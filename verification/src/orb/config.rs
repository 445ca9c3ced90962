//! The numbers a deployment owns, and the `-ORB<suffix>` argument syntax
//! CORBA 3.4 §8.5.1 gives for setting them.
//!
//! **Absent is not zero.** Every setting is an `Option`, and a field left
//! unset answers, at its accessor, exactly the constant used when nothing is
//! configured. [`OrbConfig::from_orb_args`] refuses a zero for every cap and
//! every duration, and refuses an unrecognised `-ORB…` argument (§8.5.1's
//! `BAD_PARAM`), so a configuration is applied whole or refused whole.
//!
//! `-ORBInitRef <ObjectID>=<ObjectURL>` is §8.5.3.2's; its one exclusion, a
//! `corbaloc:rir` URL, is refused naming both the `ObjectID` and the URL.
//! The numeric flags are vendor spellings; each duration flag ends in `Ms`
//! and takes milliseconds.

use vstd::prelude::*;

use crate::chars::{
    chars_of, eq_ci, find, find_char, parse_uint, parse_uint_chars, push_str, slices_eq,
    starts_with_chars, string_of, text_is,
};
use crate::giop::{
    DEFAULT_FRAGMENT_THRESHOLD, DEFAULT_MAX_MESSAGE_SIZE, FOLLOW_TIMEOUT_MS, MAX_FORWARD_HOPS,
    MAX_FRAGMENTS,
};

verus! {

/// Concurrent connections a server accepts when nothing is configured.
pub const DEFAULT_MAX_CONNECTIONS: usize = 64;

/// How often a serving loop looks at its stop flag, in milliseconds, when
/// nothing is configured.
pub const STOP_POLL_MS: u64 = 100;

/// How long a peer that has started a message may stall, in milliseconds,
/// when nothing is configured.
pub const DEFAULT_MESSAGE_TIMEOUT_MS: u64 = 30_000;

/// The `Duration` `core::time::Duration::from_millis` builds for `ms`.
pub uninterp spec fn millis_duration(ms: u64) -> core::time::Duration;

/// `core::time::Duration::from_millis` (core): the duration of `ms`
/// milliseconds. The contract names the result, which depends on `ms` alone.
#[verifier::external_body]
pub(crate) fn duration_from_millis(ms: u64) -> (r: core::time::Duration)
    ensures
        r == millis_duration(ms),
{
    core::time::Duration::from_millis(ms)
}

/// The `-ORBInitRef` argument, spelled as CORBA 3.4 §8.5.3.2 spells it.
pub const INIT_REF_ARG: &'static str = "-ORBInitRef";

/// The deployment's answers to the eight numbers, and the initial references
/// it wants registered, in the order given.
#[derive(Debug, Clone, Default, PartialEq, Eq)]
pub struct OrbConfig {
    max_message_size: Option<usize>,
    fragment_threshold: Option<usize>,
    max_fragments: Option<usize>,
    max_forward_hops: Option<u8>,
    follow_timeout_ms: Option<u64>,
    max_connections: Option<usize>,
    stop_poll_ms: Option<u64>,
    message_timeout_ms: Option<u64>,
    initial_references: Vec<(String, String)>,
}

/// A configuration as values.
pub struct ConfigView {
    pub max_message_size: Option<usize>,
    pub fragment_threshold: Option<usize>,
    pub max_fragments: Option<usize>,
    pub max_forward_hops: Option<u8>,
    pub follow_timeout_ms: Option<u64>,
    pub max_connections: Option<usize>,
    pub stop_poll_ms: Option<u64>,
    pub message_timeout_ms: Option<u64>,
    pub initial_references: Seq<(Seq<char>, Seq<char>)>,
}

/// A list of text pairs as values.
pub open spec fn pairs_view(v: Seq<(String, String)>) -> Seq<(Seq<char>, Seq<char>)> {
    v.map_values(|p: (String, String)| (p.0@, p.1@))
}

/// A list of texts as values.
pub open spec fn texts_view(v: Seq<String>) -> Seq<Seq<char>> {
    v.map_values(|s: String| s@)
}

impl View for OrbConfig {
    type V = ConfigView;

    closed spec fn view(&self) -> ConfigView {
        ConfigView {
            max_message_size: self.max_message_size,
            fragment_threshold: self.fragment_threshold,
            max_fragments: self.max_fragments,
            max_forward_hops: self.max_forward_hops,
            follow_timeout_ms: self.follow_timeout_ms,
            max_connections: self.max_connections,
            stop_poll_ms: self.stop_poll_ms,
            message_timeout_ms: self.message_timeout_ms,
            initial_references: pairs_view(self.initial_references@),
        }
    }
}

/// The configuration that changes nothing.
pub open spec fn empty_config() -> ConfigView {
    ConfigView {
        max_message_size: None,
        fragment_threshold: None,
        max_fragments: None,
        max_forward_hops: None,
        follow_timeout_ms: None,
        max_connections: None,
        stop_poll_ms: None,
        message_timeout_ms: None,
        initial_references: Seq::empty(),
    }
}

/// Why a configuration was refused. Every variant names the argument; the
/// ones about a value name the value and what was expected of it.
#[derive(Debug, Clone, PartialEq, Eq)]
pub enum ConfigError {
    /// An `-ORB<suffix>` this ORB does not recognise (§8.5.1's `BAD_PARAM`).
    Unknown {
        /// The argument as written.
        arg: String,
        /// What this ORB does accept.
        known: Vec<String>,
    },
    /// A standard `-ORB<suffix>` this ORB has not implemented.
    Unimplemented {
        /// The argument as written.
        arg: String,
        /// Why it is not accepted.
        reason: String,
    },
    /// The argument takes a following value and the list ended.
    MissingValue {
        /// The argument as written.
        arg: String,
        /// What it takes.
        expected: String,
    },
    /// The value could not be read, or was a zero where zero is never meant.
    BadValue {
        /// The argument as written.
        arg: String,
        /// The value as written.
        value: String,
        /// What it takes.
        expected: String,
    },
    /// `-ORBInitRef <ObjectID>=corbaloc:rir:…`, which §8.5.3.2 excludes.
    RirInInitRef {
        /// The `ObjectID` that was to be registered.
        object_id: String,
        /// The offending URL.
        url: String,
    },
    /// An `-ORBInitRef` value that could not be turned into a reference.
    InitRefUnreadable {
        /// The `ObjectID` that was to be registered.
        object_id: String,
        /// The URL as written.
        url: String,
        /// What `string_to_object` said.
        reason: String,
    },
    /// The same `ObjectID` was given twice.
    DuplicateInitRef {
        /// The `ObjectID` given twice.
        object_id: String,
        /// The URL from the first occurrence.
        previous: String,
        /// The URL from the second.
        url: String,
    },
}

/// A refusal as values.
pub enum ConfigErrorView {
    Unknown { arg: Seq<char>, known: Seq<Seq<char>> },
    Unimplemented { arg: Seq<char>, reason: Seq<char> },
    MissingValue { arg: Seq<char>, expected: Seq<char> },
    BadValue { arg: Seq<char>, value: Seq<char>, expected: Seq<char> },
    RirInInitRef { object_id: Seq<char>, url: Seq<char> },
    InitRefUnreadable { object_id: Seq<char>, url: Seq<char>, reason: Seq<char> },
    DuplicateInitRef { object_id: Seq<char>, previous: Seq<char>, url: Seq<char> },
}

impl View for ConfigError {
    type V = ConfigErrorView;

    open spec fn view(&self) -> ConfigErrorView {
        match self {
            ConfigError::Unknown { arg, known } => ConfigErrorView::Unknown {
                arg: arg@,
                known: texts_view(known@),
            },
            ConfigError::Unimplemented { arg, reason } => ConfigErrorView::Unimplemented {
                arg: arg@,
                reason: reason@,
            },
            ConfigError::MissingValue { arg, expected } => ConfigErrorView::MissingValue {
                arg: arg@,
                expected: expected@,
            },
            ConfigError::BadValue { arg, value, expected } => ConfigErrorView::BadValue {
                arg: arg@,
                value: value@,
                expected: expected@,
            },
            ConfigError::RirInInitRef { object_id, url } => ConfigErrorView::RirInInitRef {
                object_id: object_id@,
                url: url@,
            },
            ConfigError::InitRefUnreadable { object_id, url, reason } =>
                ConfigErrorView::InitRefUnreadable {
                object_id: object_id@,
                url: url@,
                reason: reason@,
            },
            ConfigError::DuplicateInitRef { object_id, previous, url } =>
                ConfigErrorView::DuplicateInitRef {
                object_id: object_id@,
                previous: previous@,
                url: url@,
            },
        }
    }
}

// ─────────────────────────────────────────────────────────────────────────────
// The argument grammar
// ─────────────────────────────────────────────────────────────────────────────

/// The standard arguments this ORB does not implement, and why.
pub open spec fn unimplemented_reason(arg: Seq<char>) -> Option<Seq<char>> {
    if arg == "-ORBid"@ {
        Some("this ORB has no id-keyed instance registry (CORBA 3.4 §8.5.1)"@)
    } else if arg == "-ORBServerId"@ {
        Some(
            "server ids belong to an Implementation Repository, which this ORB has not got (CORBA 3.4 §8.5.1.1)"@,
        )
    } else if arg == "-ORBListenEndpoints"@ {
        Some(
            "a Server listens on one endpoint and this argument takes a list; pass the address to Orb::server (CORBA 3.4 §8.5.1.2)"@,
        )
    } else if arg == "-ORBDefaultInitRef"@ {
        Some(
            "resolution falls back to no second source, so a default would never be reached (CORBA 3.4 §8.5.3.3)"@,
        )
    } else {
        None
    }
}

/// The numeric arguments this ORB implements, and what each takes.
pub open spec fn numeric_expected(arg: Seq<char>) -> Option<Seq<char>> {
    if arg == "-ORBmaxMessageSize"@ {
        Some("a size in bytes"@)
    } else if arg == "-ORBfragmentThreshold"@ {
        Some("a size in bytes"@)
    } else if arg == "-ORBmaxFragments"@ {
        Some("a count"@)
    } else if arg == "-ORBmaxForwardHops"@ {
        Some("a count, at most 255"@)
    } else if arg == "-ORBfollowTimeoutMs"@ {
        Some("a duration in milliseconds"@)
    } else if arg == "-ORBmaxConnections"@ {
        Some("a count"@)
    } else if arg == "-ORBstopPollMs"@ {
        Some("a duration in milliseconds"@)
    } else if arg == "-ORBmessageTimeoutMs"@ {
        Some("a duration in milliseconds"@)
    } else {
        None
    }
}

/// What an argument takes, as a refusal quotes it.
pub open spec fn expected_for(arg: Seq<char>) -> Seq<char> {
    if arg == INIT_REF_ARG@ {
        "<ObjectID>=<ObjectURL> (CORBA 3.4 §8.5.3.2)"@
    } else {
        match numeric_expected(arg) {
            Some(e) => e,
            None => "a value"@,
        }
    }
}

/// Every argument this ORB accepts, `-ORBInitRef` first.
pub open spec fn known_names() -> Seq<Seq<char>> {
    seq![
        INIT_REF_ARG@,
        "-ORBmaxMessageSize"@,
        "-ORBfragmentThreshold"@,
        "-ORBmaxFragments"@,
        "-ORBmaxForwardHops"@,
        "-ORBfollowTimeoutMs"@,
        "-ORBmaxConnections"@,
        "-ORBstopPollMs"@,
        "-ORBmessageTimeoutMs"@,
    ]
}

/// `<ObjectID>=<ObjectURL>`, split on the first `=`, with a non-empty
/// `ObjectID` and a URL that is not `corbaloc:rir`.
pub open spec fn init_ref_spec(raw: Seq<char>) -> Result<(Seq<char>, Seq<char>), ConfigErrorView> {
    let eq = find(raw, '=');
    if eq >= raw.len() {
        Err(ConfigErrorView::BadValue { arg: INIT_REF_ARG@, value: raw, expected: expected_for(INIT_REF_ARG@) })
    } else {
        let object_id = raw.take(eq);
        let url = raw.skip(eq + 1);
        if object_id.len() == 0 {
            Err(
                ConfigErrorView::BadValue {
                    arg: INIT_REF_ARG@,
                    value: raw,
                    expected: "a non-empty <ObjectID> before the '='"@,
                },
            )
        } else if url.len() >= 12 && eq_ci(url.take(12), "corbaloc:rir"@) {
            Err(ConfigErrorView::RirInInitRef { object_id, url })
        } else {
            Ok((object_id, url))
        }
    }
}

/// A count: a decimal `usize`, never zero.
pub open spec fn count_spec(value: Seq<char>) -> Option<nat> {
    match parse_uint(value, usize::MAX as nat) {
        Some(n) => if n == 0 {
            None
        } else {
            Some(n)
        },
        None => None,
    }
}

/// One numeric argument applied to `c`.
pub open spec fn apply_spec(c: ConfigView, arg: Seq<char>, value: Seq<char>) -> Result<ConfigView, ConfigErrorView> {
    let bad = ConfigErrorView::BadValue { arg, value, expected: expected_for(arg) };
    match count_spec(value) {
        None => Err(bad),
        Some(n) => if arg == "-ORBmaxMessageSize"@ {
            Ok(ConfigView { max_message_size: Some(n as usize), ..c })
        } else if arg == "-ORBfragmentThreshold"@ {
            Ok(ConfigView { fragment_threshold: Some(n as usize), ..c })
        } else if arg == "-ORBmaxFragments"@ {
            Ok(ConfigView { max_fragments: Some(n as usize), ..c })
        } else if arg == "-ORBmaxForwardHops"@ {
            if n > 255 {
                Err(bad)
            } else {
                Ok(ConfigView { max_forward_hops: Some(n as u8), ..c })
            }
        } else if arg == "-ORBfollowTimeoutMs"@ {
            Ok(ConfigView { follow_timeout_ms: Some(n as u64), ..c })
        } else if arg == "-ORBmaxConnections"@ {
            Ok(ConfigView { max_connections: Some(n as usize), ..c })
        } else if arg == "-ORBstopPollMs"@ {
            Ok(ConfigView { stop_poll_ms: Some(n as u64), ..c })
        } else {
            Ok(ConfigView { message_timeout_ms: Some(n as u64), ..c })
        },
    }
}

/// The URL an earlier `-ORBInitRef` gave `id`, if one did.
pub open spec fn earlier_url(refs: Seq<(Seq<char>, Seq<char>)>, id: Seq<char>) -> Option<Seq<char>>
    decreases refs.len(),
{
    if refs.len() == 0 {
        None
    } else if refs[0].0 == id {
        Some(refs[0].1)
    } else {
        earlier_url(refs.drop_first(), id)
    }
}

/// Whether an argument has the `-ORB<suffix>` shape: case-sensitive and
/// anchored at the start, so a bare `-ORB` is one.
pub open spec fn orb_shaped(arg: Seq<char>) -> bool {
    arg.len() >= 4 && arg.take(4) == "-ORB"@
}

/// The reading of `args` from position `i`, with the configuration and the
/// surviving arguments so far: an argument that is not `-ORB…` survives; an
/// unimplemented standard one, an unknown one, a missing or bad value, a
/// `rir` initial reference or a repeated `ObjectID` stops the read.
pub open spec fn args_from(args: Seq<Seq<char>>, i: int, c: ConfigView, rest: Seq<Seq<char>>) -> Result<
    (ConfigView, Seq<Seq<char>>),
    ConfigErrorView,
>
    decreases args.len() - i,
{
    if i >= args.len() || i < 0 {
        Ok((c, rest))
    } else {
        let arg = args[i];
        if !orb_shaped(arg) {
            args_from(args, i + 1, c, rest.push(arg))
        } else if unimplemented_reason(arg) is Some {
            Err(ConfigErrorView::Unimplemented { arg, reason: unimplemented_reason(arg)->Some_0 })
        } else if arg == INIT_REF_ARG@ {
            if i + 1 >= args.len() {
                Err(ConfigErrorView::MissingValue { arg, expected: expected_for(arg) })
            } else {
                match init_ref_spec(args[i + 1]) {
                    Err(e) => Err(e),
                    Ok((id, url)) => match earlier_url(c.initial_references, id) {
                        Some(previous) => Err(
                            ConfigErrorView::DuplicateInitRef { object_id: id, previous, url },
                        ),
                        None => args_from(
                            args,
                            i + 2,
                            ConfigView { initial_references: c.initial_references.push((id, url)), ..c },
                            rest,
                        ),
                    },
                }
            }
        } else if numeric_expected(arg) is Some {
            if i + 1 >= args.len() {
                Err(ConfigErrorView::MissingValue { arg, expected: expected_for(arg) })
            } else {
                match apply_spec(c, arg, args[i + 1]) {
                    Err(e) => Err(e),
                    Ok(c2) => args_from(args, i + 2, c2, rest),
                }
            }
        } else {
            Err(ConfigErrorView::Unknown { arg, known: known_names() })
        }
    }
}

/// What [`OrbConfig::from_orb_args`] makes of an argument list.
pub open spec fn from_args_spec(args: Seq<Seq<char>>) -> Result<(ConfigView, Seq<Seq<char>>), ConfigErrorView> {
    args_from(args, 0, empty_config(), Seq::empty())
}


// ─────────────────────────────────────────────────────────────────────────────
// Reading arguments
// ─────────────────────────────────────────────────────────────────────────────

fn owned(s: &[char]) -> (r: String)
    ensures
        r@ == s@,
{
    string_of(s)
}

fn lit(s: &str) -> (r: String)
    ensures
        r@ == s@,
{
    s.to_owned()
}

fn unimplemented_reason_of(arg: &[char]) -> (r: Option<&'static str>)
    ensures
        match unimplemented_reason(arg@) {
            Some(why) => r matches Some(x) && x@ == why,
            None => r is None,
        },
{
    if text_is(arg, "-ORBid") {
        Some("this ORB has no id-keyed instance registry (CORBA 3.4 §8.5.1)")
    } else if text_is(arg, "-ORBServerId") {
        Some(
            "server ids belong to an Implementation Repository, which this ORB has not got (CORBA 3.4 §8.5.1.1)",
        )
    } else if text_is(arg, "-ORBListenEndpoints") {
        Some(
            "a Server listens on one endpoint and this argument takes a list; pass the address to Orb::server (CORBA 3.4 §8.5.1.2)",
        )
    } else if text_is(arg, "-ORBDefaultInitRef") {
        Some(
            "resolution falls back to no second source, so a default would never be reached (CORBA 3.4 §8.5.3.3)",
        )
    } else {
        None
    }
}

fn numeric_expected_of(arg: &[char]) -> (r: Option<&'static str>)
    ensures
        match numeric_expected(arg@) {
            Some(e) => r matches Some(x) && x@ == e,
            None => r is None,
        },
{
    if text_is(arg, "-ORBmaxMessageSize") {
        Some("a size in bytes")
    } else if text_is(arg, "-ORBfragmentThreshold") {
        Some("a size in bytes")
    } else if text_is(arg, "-ORBmaxFragments") {
        Some("a count")
    } else if text_is(arg, "-ORBmaxForwardHops") {
        Some("a count, at most 255")
    } else if text_is(arg, "-ORBfollowTimeoutMs") {
        Some("a duration in milliseconds")
    } else if text_is(arg, "-ORBmaxConnections") {
        Some("a count")
    } else if text_is(arg, "-ORBstopPollMs") {
        Some("a duration in milliseconds")
    } else if text_is(arg, "-ORBmessageTimeoutMs") {
        Some("a duration in milliseconds")
    } else {
        None
    }
}

fn expected_for_exec(arg: &[char]) -> (r: String)
    ensures
        r@ == expected_for(arg@),
{
    if text_is(arg, INIT_REF_ARG) {
        return lit("<ObjectID>=<ObjectURL> (CORBA 3.4 §8.5.3.2)");
    }
    match numeric_expected_of(arg) {
        Some(e) => lit(e),
        None => lit("a value"),
    }
}

/// Every argument this ORB accepts, `-ORBInitRef` first.
fn known_argument_names() -> (r: Vec<String>)
    ensures
        texts_view(r@) == known_names(),
{
    let mut v: Vec<String> = Vec::new();
    v.push(lit(INIT_REF_ARG));
    v.push(lit("-ORBmaxMessageSize"));
    v.push(lit("-ORBfragmentThreshold"));
    v.push(lit("-ORBmaxFragments"));
    v.push(lit("-ORBmaxForwardHops"));
    v.push(lit("-ORBfollowTimeoutMs"));
    v.push(lit("-ORBmaxConnections"));
    v.push(lit("-ORBstopPollMs"));
    v.push(lit("-ORBmessageTimeoutMs"));
    assert(texts_view(v@) =~= known_names());
    v
}

fn parse_init_ref(raw: &[char]) -> (r: Result<(Vec<char>, Vec<char>), ConfigError>)
    ensures
        match init_ref_spec(raw@) {
            Ok((id, url)) => r matches Ok((x, y)) && x@ == id && y@ == url,
            Err(e) => r matches Err(x) && x@ == e,
        },
{
    let eq = find_char(raw, '=');
    if eq >= raw.len() {
        let a = chars_of(INIT_REF_ARG);
        return Err(
            ConfigError::BadValue {
                arg: lit(INIT_REF_ARG),
                value: owned(raw),
                expected: expected_for_exec(a.as_slice()),
            },
        );
    }
    let id = &raw[0..eq];
    let url = &raw[eq + 1..raw.len()];
    assert(id@ =~= raw@.take(eq as int));
    assert(url@ =~= raw@.skip(eq + 1));
    if id.len() == 0 {
        return Err(
            ConfigError::BadValue {
                arg: lit(INIT_REF_ARG),
                value: owned(raw),
                expected: lit("a non-empty <ObjectID> before the '='"),
            },
        );
    }
    if url.len() >= 12 {
        let head = &url[0..12];
        assert(head@ =~= url@.take(12));
        let rir = chars_of("corbaloc:rir");
        if crate::chars::eq_ci_slices(head, rir.as_slice()) {
            return Err(ConfigError::RirInInitRef { object_id: owned(id), url: owned(url) });
        }
    }
    let mut a: Vec<char> = Vec::new();
    crate::text::push_all_chars(&mut a, id);
    let mut b: Vec<char> = Vec::new();
    crate::text::push_all_chars(&mut b, url);
    assert(a@ =~= id@);
    assert(b@ =~= url@);
    Ok((a, b))
}

fn count_exec(value: &[char]) -> (r: Option<usize>)
    ensures
        match count_spec(value@) {
            Some(n) => r == Some(n as usize),
            None => r is None,
        },
{
    match parse_uint_chars(value, usize::MAX as u64) {
        Some(n) => {
            if n == 0 {
                None
            } else {
                Some(n as usize)
            }
        },
        None => None,
    }
}

impl OrbConfig {
    /// A configuration that changes nothing.
    pub fn new() -> (r: OrbConfig)
        ensures
            r@ == empty_config(),
    {
        let r = OrbConfig {
            max_message_size: None,
            fragment_threshold: None,
            max_fragments: None,
            max_forward_hops: None,
            follow_timeout_ms: None,
            max_connections: None,
            stop_poll_ms: None,
            message_timeout_ms: None,
            initial_references: Vec::new(),
        };
        assert(r@.initial_references =~= Seq::<(Seq<char>, Seq<char>)>::empty());
        r
    }

    fn apply_numeric(&mut self, arg: &[char], raw: &[char]) -> (r: Result<(), ConfigError>)
        requires
            numeric_expected(arg@) is Some,
        ensures
            match apply_spec(old(self)@, arg@, raw@) {
                Ok(c) => r is Ok && final(self)@ == c,
                Err(e) => r matches Err(x) && x@ == e && final(self)@ == old(self)@,
            },
    {
        let n = match count_exec(raw) {
            Some(n) => n,
            None => {
                return Err(
                    ConfigError::BadValue {
                        arg: owned(arg),
                        value: owned(raw),
                        expected: expected_for_exec(arg),
                    },
                )
            },
        };
        if text_is(arg, "-ORBmaxMessageSize") {
            self.max_message_size = Some(n);
        } else if text_is(arg, "-ORBfragmentThreshold") {
            self.fragment_threshold = Some(n);
        } else if text_is(arg, "-ORBmaxFragments") {
            self.max_fragments = Some(n);
        } else if text_is(arg, "-ORBmaxForwardHops") {
            if n > 255 {
                return Err(
                    ConfigError::BadValue {
                        arg: owned(arg),
                        value: owned(raw),
                        expected: expected_for_exec(arg),
                    },
                );
            }
            self.max_forward_hops = Some(n as u8);
        } else if text_is(arg, "-ORBfollowTimeoutMs") {
            self.follow_timeout_ms = Some(n as u64);
        } else if text_is(arg, "-ORBmaxConnections") {
            self.max_connections = Some(n);
        } else if text_is(arg, "-ORBstopPollMs") {
            self.stop_poll_ms = Some(n as u64);
        } else {
            self.message_timeout_ms = Some(n as u64);
        }
        Ok(())
    }

    /// Reads every `-ORB<suffix>` argument and answers the configuration plus
    /// the arguments that were not the ORB's, in order (§8.5.1). The first
    /// problem stops the read and nothing is applied.
    pub fn from_orb_args(args: &[String]) -> (r: Result<(OrbConfig, Vec<String>), ConfigError>)
        ensures
            match from_args_spec(texts_view(args@)) {
                Ok((c, rest)) => r matches Ok((config, left)) && config@ == c && texts_view(left@)
                    == rest,
                Err(e) => r matches Err(x) && x@ == e,
            },
    {
        let ghost all = texts_view(args@);
        let mut config = OrbConfig::new();
        let mut rest: Vec<String> = Vec::new();
        let mut i: usize = 0;
        assert(texts_view(rest@) =~= Seq::<Seq<char>>::empty());
        while i < args.len()
            invariant
                i <= args@.len(),
                all == texts_view(args@),
                from_args_spec(all) == args_from(all, i as int, config@, texts_view(rest@)),
            decreases args.len() - i,
        {
            let arg_s = &args[i];
            let arg_v = chars_of(arg_s.as_str());
            let arg = arg_v.as_slice();
            assert(arg@ == all[i as int]);
            let orb = chars_of("-ORB");
            proof {
                reveal_strlit("-ORB");
            }
            if !starts_with_chars(arg, orb.as_slice()) {
                let ghost before = texts_view(rest@);
                rest.push(arg_s.clone());
                assert(texts_view(rest@) =~= before.push(arg@));
                i = i + 1;
                continue;
            }
            assert(orb_shaped(arg@));
            if let Some(why) = unimplemented_reason_of(arg) {
                let e = ConfigError::Unimplemented { arg: owned(arg), reason: lit(why) };
                assert(e@ == ConfigErrorView::Unimplemented { arg: arg@, reason: unimplemented_reason(arg@)->Some_0 });
                assert(args_from(all, i as int, config@, texts_view(rest@)) == Err::<(ConfigView, Seq<Seq<char>>), ConfigErrorView>(e@));
                return Err(e);
            }
            if text_is(arg, INIT_REF_ARG) {
                if i + 1 >= args.len() {
                    return Err(
                        ConfigError::MissingValue { arg: owned(arg), expected: expected_for_exec(arg) },
                    );
                }
                let raw = chars_of(args[i + 1].as_str());
                assert(raw@ == all[i + 1]);
                let (id, url) = parse_init_ref(raw.as_slice())?;
                match config.earlier(id.as_slice()) {
                    Some(previous) => {
                        return Err(
                            ConfigError::DuplicateInitRef {
                                object_id: owned(id.as_slice()),
                                previous,
                                url: owned(url.as_slice()),
                            },
                        );
                    },
                    None => {},
                }
                let ghost before = config@;
                config.initial_references.push((owned(id.as_slice()), owned(url.as_slice())));
                assert(config@.initial_references =~= before.initial_references.push((id@, url@)));
                assert(config@ == ConfigView {
                    initial_references: before.initial_references.push((id@, url@)),
                    ..before
                });
                i = i + 2;
                continue;
            }
            if numeric_expected_of(arg).is_some() {
                if i + 1 >= args.len() {
                    return Err(
                        ConfigError::MissingValue { arg: owned(arg), expected: expected_for_exec(arg) },
                    );
                }
                let raw = chars_of(args[i + 1].as_str());
                assert(raw@ == all[i + 1]);
                config.apply_numeric(arg, raw.as_slice())?;
                i = i + 2;
                continue;
            }
            return Err(ConfigError::Unknown { arg: owned(arg), known: known_argument_names() });
        }
        Ok((config, rest))
    }

    /// The URL an earlier `-ORBInitRef` gave `id`.
    fn earlier(&self, id: &[char]) -> (r: Option<String>)
        ensures
            match earlier_url(self@.initial_references, id@) {
                Some(u) => r matches Some(x) && x@ == u,
                None => r is None,
            },
    {
        let mut i: usize = 0;
        assert(self@.initial_references.skip(0) =~= self@.initial_references);
        while i < self.initial_references.len()
            invariant
                i <= self.initial_references@.len(),
                earlier_url(self@.initial_references, id@) == earlier_url(
                    self@.initial_references.skip(i as int),
                    id@,
                ),
            decreases self.initial_references.len() - i,
        {
            let entry = &self.initial_references[i];
            let ghost rest = self@.initial_references.skip(i as int);
            assert(rest[0] == (entry.0@, entry.1@));
            assert(rest.drop_first() =~= self@.initial_references.skip(i + 1));
            let k = chars_of(entry.0.as_str());
            if slices_eq(k.as_slice(), id) {
                return Some(entry.1.clone());
            }
            i = i + 1;
        }
        None
    }

    /// Ceiling on an inbound message body.
    pub fn max_message_size(&self) -> (r: usize)
        ensures
            r == (match self@.max_message_size {
                Some(v) => v,
                None => DEFAULT_MAX_MESSAGE_SIZE,
            }),
    {
        match self.max_message_size {
            Some(v) => v,
            None => DEFAULT_MAX_MESSAGE_SIZE,
        }
    }

    /// Body size above which an outbound message is fragmented.
    pub fn fragment_threshold(&self) -> (r: usize)
        ensures
            r == (match self@.fragment_threshold {
                Some(v) => v,
                None => DEFAULT_FRAGMENT_THRESHOLD,
            }),
    {
        match self.fragment_threshold {
            Some(v) => v,
            None => DEFAULT_FRAGMENT_THRESHOLD,
        }
    }

    /// Most fragments accepted for one logical message.
    pub fn max_fragments(&self) -> (r: usize)
        ensures
            r == (match self@.max_fragments {
                Some(v) => v,
                None => MAX_FRAGMENTS,
            }),
    {
        match self.max_fragments {
            Some(v) => v,
            None => MAX_FRAGMENTS,
        }
    }

    /// How many `LOCATION_FORWARD` hops to follow.
    pub fn max_forward_hops(&self) -> (r: u8)
        ensures
            r == (match self@.max_forward_hops {
                Some(v) => v,
                None => MAX_FORWARD_HOPS,
            }),
    {
        match self.max_forward_hops {
            Some(v) => v,
            None => MAX_FORWARD_HOPS,
        }
    }

    /// How long a dial the ORB makes for itself may take, in milliseconds.
    pub fn follow_timeout_ms(&self) -> (r: u64)
        ensures
            r == (match self@.follow_timeout_ms {
                Some(v) => v,
                None => FOLLOW_TIMEOUT_MS,
            }),
    {
        match self.follow_timeout_ms {
            Some(v) => v,
            None => FOLLOW_TIMEOUT_MS,
        }
    }

    /// How long a dial the ORB makes for itself may take.
    pub fn follow_timeout(&self) -> (r: core::time::Duration)
        ensures
            r == millis_duration(
                match self@.follow_timeout_ms {
                    Some(v) => v,
                    None => FOLLOW_TIMEOUT_MS,
                },
            ),
    {
        duration_from_millis(self.follow_timeout_ms())
    }

    /// Concurrent connections a server accepts.
    pub fn max_connections(&self) -> (r: usize)
        ensures
            r == (match self@.max_connections {
                Some(v) => v,
                None => DEFAULT_MAX_CONNECTIONS,
            }),
    {
        match self.max_connections {
            Some(v) => v,
            None => DEFAULT_MAX_CONNECTIONS,
        }
    }

    /// Granularity of shutdown, in milliseconds.
    pub fn stop_poll_ms(&self) -> (r: u64)
        ensures
            r == (match self@.stop_poll_ms {
                Some(v) => v,
                None => STOP_POLL_MS,
            }),
    {
        match self.stop_poll_ms {
            Some(v) => v,
            None => STOP_POLL_MS,
        }
    }

    /// Granularity of shutdown, not of service.
    pub fn stop_poll(&self) -> (r: core::time::Duration)
        ensures
            r == millis_duration(
                match self@.stop_poll_ms {
                    Some(v) => v,
                    None => STOP_POLL_MS,
                },
            ),
    {
        duration_from_millis(self.stop_poll_ms())
    }

    /// How long a peer that has started a message may stall, in milliseconds.
    pub fn message_timeout_ms(&self) -> (r: u64)
        ensures
            r == (match self@.message_timeout_ms {
                Some(v) => v,
                None => DEFAULT_MESSAGE_TIMEOUT_MS,
            }),
    {
        match self.message_timeout_ms {
            Some(v) => v,
            None => DEFAULT_MESSAGE_TIMEOUT_MS,
        }
    }

    /// How long a peer that has started a message may stall before its
    /// connection is dropped.
    pub fn message_timeout(&self) -> (r: core::time::Duration)
        ensures
            r == millis_duration(
                match self@.message_timeout_ms {
                    Some(v) => v,
                    None => DEFAULT_MESSAGE_TIMEOUT_MS,
                },
            ),
    {
        duration_from_millis(self.message_timeout_ms())
    }

    /// The `-ORBInitRef` entries, in the order they were given.
    pub fn initial_references(&self) -> (r: &[(String, String)])
        ensures
            pairs_view(r@) == self@.initial_references,
    {
        self.initial_references.as_slice()
    }

    /// Whether anything at all was configured.
    pub fn is_empty(&self) -> (r: bool)
        ensures
            r == (self@ == empty_config()),
    {
        let r = self.max_message_size.is_none() && self.fragment_threshold.is_none()
            && self.max_fragments.is_none() && self.max_forward_hops.is_none()
            && self.follow_timeout_ms.is_none() && self.max_connections.is_none()
            && self.stop_poll_ms.is_none() && self.message_timeout_ms.is_none()
            && self.initial_references.len() == 0;
        if r {
            assert(self@.initial_references =~= Seq::<(Seq<char>, Seq<char>)>::empty());
            assert(self@ == empty_config());
        } else {
            assert(self@ != empty_config()) by {
                if self@ == empty_config() {
                    assert(self@.initial_references.len() == 0);
                }
            }
        }
        r
    }
}

} // verus!
