//! IOR endpoint rewriting for NAT, containers and load balancers.
//!
//! An IOR carries the address a server *believes* it has, which inside a
//! container is the container's address and behind a load balancer is
//! nobody's. Rewriting is the standard deployment step.
//!
//! | Field | Disposition |
//! |---|---|
//! | Profile `host`/`port` | Rewritten through the map |
//! | `TAG_ALTERNATE_IIOP_ADDRESS` | Rewritten by the same map |
//! | Every profile, not only the first | All of them |
//! | `object_key`, IIOP `version`, `type_id` | Never touched |
//! | A profile tag not understood | Preserved byte for byte (§9.7.2) |
//! | An IIOP profile that will not decode | The whole rewrite fails |
//!
//! Rewriting runs on [`RawIor`], which keeps every profile as `(tag, body)`;
//! a profile whose address needs no change is re-emitted as the same octets,
//! so an empty map is the identity on the wire.

use vstd::prelude::*;

use crate::cdr::{
    encapsulation_start, open_encapsulation, CdrError, Decoder, DecoderView, Encoder, EncoderView,
    Endian,
};
use crate::chars::{
    chars_of, count, decimal_text, push_decimal, eq_ci, eq_ci_slices, find, find_char, occurs_twice, parse_uint,
    parse_uint_chars, string_of, trim_slice,
};
use crate::giop::{Error, TAG_ALTERNATE_IIOP_ADDRESS, TAG_INTERNET_IOP};
use crate::ior::{
    hex_encode, ior_hex_spec, ior_prefix, parse_alternate_wire, parse_profile_wire, profile_encoding,
    profile_from_wire, ComponentView, IiopProfile, Ior, IorView, ProfileView, ProfileWire,
    TaggedComponent,
};
use crate::giop::{BadIorReason, Version};
use crate::text::{bytes_of, lossy_text, string_from_utf8_lossy, trim_chars};

verus! {

/// Environment variable a deployment sets to configure publishing.
pub const PUBLISH_MAP_ENV: &'static str = "ORBWEAVER_PUBLISH_MAP";

// ─────────────────────────────────────────────────────────────────────────────
// The map
// ─────────────────────────────────────────────────────────────────────────────

/// Why an endpoint map specification could not be read. Each carries the
/// (trimmed) rule text.
#[derive(Debug, Clone, PartialEq, Eq)]
pub enum MapError {
    /// A rule had no `=` separating the internal side from the published one.
    NoSeparator(String),
    /// A host part was empty.
    EmptyHost(String),
    /// A port was not a number in 1..=65535.
    BadPort(String),
    /// An IPv6 literal was written without brackets, so `host:port` cannot be
    /// split unambiguously.
    UnbracketedIpv6(String),
    /// The published side was `*`, which names no address.
    WildcardTarget(String),
}

/// Which of the five failures a [`MapError`] is.
#[derive(Debug, Clone, Copy, PartialEq, Eq, Structural)]
pub enum MapErrorKind {
    NoSeparator,
    EmptyHost,
    BadPort,
    UnbracketedIpv6,
    WildcardTarget,
}

impl MapError {
    pub open spec fn kind(&self) -> MapErrorKind {
        match self {
            MapError::NoSeparator(_) => MapErrorKind::NoSeparator,
            MapError::EmptyHost(_) => MapErrorKind::EmptyHost,
            MapError::BadPort(_) => MapErrorKind::BadPort,
            MapError::UnbracketedIpv6(_) => MapErrorKind::UnbracketedIpv6,
            MapError::WildcardTarget(_) => MapErrorKind::WildcardTarget,
        }
    }

    /// The rule text the failure names.
    pub open spec fn rule_text(&self) -> Seq<char> {
        match self {
            MapError::NoSeparator(s) => s@,
            MapError::EmptyHost(s) => s@,
            MapError::BadPort(s) => s@,
            MapError::UnbracketedIpv6(s) => s@,
            MapError::WildcardTarget(s) => s@,
        }
    }

    fn of(kind: MapErrorKind, text: &[char]) -> (r: MapError)
        ensures
            r.kind() == kind,
            r.rule_text() == text@,
    {
        let s = string_of(text);
        match kind {
            MapErrorKind::NoSeparator => MapError::NoSeparator(s),
            MapErrorKind::EmptyHost => MapError::EmptyHost(s),
            MapErrorKind::BadPort => MapError::BadPort(s),
            MapErrorKind::UnbracketedIpv6 => MapError::UnbracketedIpv6(s),
            MapErrorKind::WildcardTarget => MapError::WildcardTarget(s),
        }
    }
}

/// One `internal → published` mapping.
///
/// The internal side may leave the port open (matching any port on that host)
/// and the published side may leave it open (keeping whatever port matched).
/// `*` on the internal host matches every host.
#[derive(Debug, Clone, PartialEq, Eq)]
pub struct Rule {
    from_host: String,
    from_port: Option<u16>,
    to_host: String,
    to_port: Option<u16>,
}

/// A rule as values.
pub struct RuleView {
    pub from_host: Seq<char>,
    pub from_port: Option<u16>,
    pub to_host: Seq<char>,
    pub to_port: Option<u16>,
}

impl View for Rule {
    type V = RuleView;

    closed spec fn view(&self) -> RuleView {
        RuleView {
            from_host: self.from_host@,
            from_port: self.from_port,
            to_host: self.to_host@,
            to_port: self.to_port,
        }
    }
}

pub open spec fn star() -> Seq<char> {
    seq!['*']
}

/// What `core::net::IpAddr`'s parser makes of a text: `None` when it is
/// not an address literal, else whether it is IPv6 and its numeric value.
pub uninterp spec fn ip_literal(s: Seq<char>) -> Option<(bool, u128)>;

/// `<core::net::IpAddr as FromStr>::from_str` (core): whether `s` is an
/// IPv4 or IPv6 address literal, and which address. The contract names the
/// result, which depends on the text alone; the grammar is core's.
#[verifier::external_body]
fn parse_ip_literal(s: &str) -> (r: Option<(bool, u128)>)
    ensures
        r == ip_literal(s@),
{
    match s.parse::<core::net::IpAddr>() {
        Ok(core::net::IpAddr::V4(a)) => Some((false, u32::from(a) as u128)),
        Ok(core::net::IpAddr::V6(a)) => Some((true, u128::from(a))),
        Err(_) => None,
    }
}

/// Two host texts naming the same host: compared as addresses when both are
/// address literals, so `::1` and `0:0:0:0:0:0:0:1` match; otherwise
/// ignoring ASCII case, which is how DNS names compare.
pub open spec fn same_host(a: Seq<char>, b: Seq<char>) -> bool {
    match (ip_literal(a), ip_literal(b)) {
        (Some(x), Some(y)) => x == y,
        _ => eq_ci(a, b),
    }
}

fn same_host_exec(a: &str, b: &str) -> (r: bool)
    ensures
        r == same_host(a@, b@),
{
    match (parse_ip_literal(a), parse_ip_literal(b)) {
        (Some(x), Some(y)) => x.0 == y.0 && x.1 == y.1,
        _ => {
            let ca = chars_of(a);
            let cb = chars_of(b);
            eq_ci_slices(ca.as_slice(), cb.as_slice())
        },
    }
}

/// The published endpoint a rule gives `host:port`, or `None` when it does
/// not match.
pub open spec fn rule_apply(r: RuleView, host: Seq<char>, port: u16) -> Option<(Seq<char>, u16)> {
    if r.from_port matches Some(p) && p != port {
        None
    } else if r.from_host != star() && !same_host(r.from_host, host) {
        None
    } else {
        Some(
            (
                r.to_host,
                match r.to_port {
                    Some(p) => p,
                    None => port,
                },
            ),
        )
    }
}

/// Whether a text is exactly `*`.
fn is_star(s: &str) -> (r: bool)
    ensures
        r == (s@ == star()),
{
    let cs = chars_of(s);
    let r = cs.len() == 1 && cs[0] == '*';
    assert(r ==> cs@ =~= star());
    r
}

/// The host text and the optional port of one side of a rule: a bracketed
/// IPv6 literal with an optional `:port`, or `host[:port]` with at most one
/// colon. Port 0 is refused: it is a bind wildcard, never a destination.
pub open spec fn host_port_spec(s: Seq<char>) -> Result<(Seq<char>, Option<u16>), MapErrorKind> {
    let split: Result<(Seq<char>, Option<Seq<char>>), MapErrorKind> = if s.len() > 0 && s[0]
        == '[' {
        let rest = s.drop_first();
        let close = find(rest, ']');
        if close >= rest.len() {
            Err(MapErrorKind::EmptyHost)
        } else {
            let tail = rest.skip(close + 1);
            if tail.len() > 0 && tail[0] == ':' {
                Ok((rest.take(close), Some(tail.drop_first())))
            } else if tail.len() == 0 {
                Ok((rest.take(close), None))
            } else {
                Err(MapErrorKind::BadPort)
            }
        }
    } else if count(s, ':') > 1 {
        Err(MapErrorKind::UnbracketedIpv6)
    } else {
        let colon = find(s, ':');
        if colon < s.len() {
            Ok((s.take(colon), Some(s.skip(colon + 1))))
        } else {
            Ok((s, None))
        }
    };
    match split {
        Err(k) => Err(k),
        Ok((host, port)) => if host.len() == 0 {
            Err(MapErrorKind::EmptyHost)
        } else {
            match port {
                None => Ok((host, None)),
                Some(p) => match parse_uint(p, 65535) {
                    Some(v) => if v == 0 {
                        Err(MapErrorKind::BadPort)
                    } else {
                        Ok((host, Some(v as u16)))
                    },
                    None => Err(MapErrorKind::BadPort),
                },
            }
        },
    }
}

/// A rule as `Rule::parse` reads `internal[:port]=published[:port]`; an
/// error carries the trimmed rule text.
pub open spec fn rule_spec(spec: Seq<char>) -> Result<RuleView, (MapErrorKind, Seq<char>)> {
    let t = trim_chars(spec);
    let eq = find(t, '=');
    if eq >= t.len() {
        Err((MapErrorKind::NoSeparator, t))
    } else {
        match host_port_spec(trim_chars(t.take(eq))) {
            Err(k) => Err((k, t)),
            Ok((from_host, from_port)) => match host_port_spec(trim_chars(t.skip(eq + 1))) {
                Err(k) => Err((k, t)),
                Ok((to_host, to_port)) => if to_host == star() {
                    Err((MapErrorKind::WildcardTarget, t))
                } else {
                    Ok(RuleView { from_host, from_port, to_host, to_port })
                },
            },
        }
    }
}

fn split_host_port(s: &[char]) -> (r: Result<(Vec<char>, Option<u16>), MapErrorKind>)
    ensures
        match host_port_spec(s@) {
            Ok((h, p)) => r matches Ok((x, y)) && x@ == h && y == p,
            Err(k) => r == Err::<(Vec<char>, Option<u16>), MapErrorKind>(k),
        },
{
    let (host, port): (&[char], Option<&[char]>) = if s.len() > 0 && s[0] == '[' {
        let rest = &s[1..s.len()];
        assert(rest@ =~= s@.drop_first());
        let close = find_char(rest, ']');
        if close >= rest.len() {
            return Err(MapErrorKind::EmptyHost);
        }
        let host = &rest[0..close];
        let tail = &rest[close + 1..rest.len()];
        assert(host@ =~= rest@.take(close as int));
        assert(tail@ =~= rest@.skip(close + 1));
        if tail.len() > 0 && tail[0] == ':' {
            let p = &tail[1..tail.len()];
            assert(p@ =~= tail@.drop_first());
            (host, Some(p))
        } else if tail.len() == 0 {
            (host, None)
        } else {
            return Err(MapErrorKind::BadPort);
        }
    } else if occurs_twice(s, ':') {
        return Err(MapErrorKind::UnbracketedIpv6);
    } else {
        let colon = find_char(s, ':');
        if colon < s.len() {
            let h = &s[0..colon];
            let p = &s[colon + 1..s.len()];
            assert(h@ =~= s@.take(colon as int));
            assert(p@ =~= s@.skip(colon + 1));
            (h, Some(p))
        } else {
            (s, None)
        }
    };
    if host.len() == 0 {
        return Err(MapErrorKind::EmptyHost);
    }
    let port_value = match port {
        None => None,
        Some(p) => match parse_uint_chars(p, 65535) {
            Some(v) => {
                if v == 0 {
                    return Err(MapErrorKind::BadPort);
                }
                Some(v as u16)
            },
            None => return Err(MapErrorKind::BadPort),
        },
    };
    let mut h: Vec<char> = Vec::new();
    crate::text::push_all_chars(&mut h, host);
    assert(h@ =~= host@);
    Ok((h, port_value))
}

impl Rule {
    /// Rewrites `from` to `to` on any port, keeping the port.
    pub fn host(from: &str, to: &str) -> (r: Rule)
        ensures
            r@ == (RuleView { from_host: from@, from_port: None, to_host: to@, to_port: None }),
    {
        Rule { from_host: from.to_owned(), from_port: None, to_host: to.to_owned(), to_port: None }
    }

    /// Rewrites one exact endpoint to another.
    pub fn endpoint(from_host: &str, from_port: u16, to_host: &str, to_port: u16) -> (r: Rule)
        ensures
            r@ == (RuleView {
                from_host: from_host@,
                from_port: Some(from_port),
                to_host: to_host@,
                to_port: Some(to_port),
            }),
    {
        Rule {
            from_host: from_host.to_owned(),
            from_port: Some(from_port),
            to_host: to_host.to_owned(),
            to_port: Some(to_port),
        }
    }

    /// Matches every host on any port and republishes it at `to`, keeping
    /// the port. Correct only where every address in the reference is the
    /// deployment's own.
    pub fn any_host(to: &str) -> (r: Rule)
        ensures
            r@ == (RuleView { from_host: star(), from_port: None, to_host: to@, to_port: None }),
    {
        let s = vec!['*'];
        assert(s@ =~= star());
        Rule { from_host: string_of(s.as_slice()), from_port: None, to_host: to.to_owned(), to_port: None }
    }

    /// Reads `internal[:port]=published[:port]`; IPv6 literals are
    /// bracketed: `[fd00::1]:5555=[2001:db8::1]:683`.
    pub fn parse(spec: &str) -> (r: Result<Rule, MapError>)
        ensures
            match rule_spec(spec@) {
                Ok(v) => r matches Ok(rule) && rule@ == v,
                Err((k, t)) => r matches Err(e) && e.kind() == k && e.rule_text() == t,
            },
    {
        let all = chars_of(spec);
        Rule::parse_chars(all.as_slice())
    }

    fn parse_chars(spec: &[char]) -> (r: Result<Rule, MapError>)
        ensures
            match rule_spec(spec@) {
                Ok(v) => r matches Ok(rule) && rule@ == v,
                Err((k, t)) => r matches Err(e) && e.kind() == k && e.rule_text() == t,
            },
    {
        let t = trim_slice(spec);
        let eq = find_char(t, '=');
        if eq >= t.len() {
            return Err(MapError::of(MapErrorKind::NoSeparator, t));
        }
        let from = &t[0..eq];
        let to = &t[eq + 1..t.len()];
        assert(from@ =~= t@.take(eq as int));
        assert(to@ =~= t@.skip(eq + 1));
        let (from_host, from_port) = match split_host_port(trim_slice(from)) {
            Ok(x) => x,
            Err(k) => return Err(MapError::of(k, t)),
        };
        let (to_host, to_port) = match split_host_port(trim_slice(to)) {
            Ok(x) => x,
            Err(k) => return Err(MapError::of(k, t)),
        };
        if to_host.len() == 1 && to_host[0] == '*' {
            assert(to_host@ =~= star());
            return Err(MapError::of(MapErrorKind::WildcardTarget, t));
        }
        assert(to_host@ != star()) by {
            if to_host@ == star() {
                assert(to_host@.len() == 1 && to_host@[0] == '*');
            }
        }
        Ok(
            Rule {
                from_host: string_of(from_host.as_slice()),
                from_port,
                to_host: string_of(to_host.as_slice()),
                to_port,
            },
        )
    }

    /// The published endpoint for `host:port`, or `None` when this rule does
    /// not match it.
    pub fn apply(&self, host: &str, port: u16) -> (r: Option<(String, u16)>)
        ensures
            match rule_apply(self@, host@, port) {
                Some((h, p)) => r matches Some((x, y)) && x@ == h && y == p,
                None => r is None,
            },
    {
        if let Some(p) = self.from_port {
            if p != port {
                return None;
            }
        }
        if !is_star(self.from_host.as_str()) && !same_host_exec(self.from_host.as_str(), host) {
            return None;
        }
        let out_port = match self.to_port {
            Some(p) => p,
            None => port,
        };
        Some((self.to_host.clone(), out_port))
    }
}


/// A rule as `internal[:port]=published[:port]`.
pub open spec fn rule_text(r: RuleView) -> Seq<char> {
    r.from_host + (match r.from_port {
        Some(p) => seq![':'] + decimal_text(p as nat),
        None => Seq::empty(),
    }) + seq!['='] + r.to_host + (match r.to_port {
        Some(p) => seq![':'] + decimal_text(p as nat),
        None => Seq::empty(),
    })
}

impl Rule {
    fn push_text(&self, out: &mut Vec<char>)
        ensures
            final(out)@ == old(out)@ + rule_text(self@),
    {
        let f = chars_of(self.from_host.as_str());
        crate::text::push_all_chars(out, f.as_slice());
        if let Some(p) = self.from_port {
            out.push(':');
            push_decimal(out, p as u64);
        }
        out.push('=');
        let t = chars_of(self.to_host.as_str());
        crate::text::push_all_chars(out, t.as_slice());
        if let Some(p) = self.to_port {
            out.push(':');
            push_decimal(out, p as u64);
        }
        assert(out@ =~= old(out)@ + rule_text(self@));
    }

    /// The rule as text, in the form [`Rule::parse`] reads.
    pub fn text(&self) -> (r: String)
        ensures
            r@ == rule_text(self@),
    {
        let mut out: Vec<char> = Vec::new();
        self.push_text(&mut out);
        assert(out@ =~= rule_text(self@));
        string_of(out.as_slice())
    }
}

/// An ordered set of [`Rule`]s, first match winning.
///
/// Order is the whole interface: a rule that maps an address to itself,
/// placed first, protects one endpoint from a broader rule that follows it.
#[derive(Debug, Clone, Default, PartialEq, Eq)]
pub struct EndpointMap {
    rules: Vec<Rule>,
    drop_unmapped_alternates: bool,
}

/// A map as values.
pub struct MapView {
    pub rules: Seq<RuleView>,
    pub drop_unmapped: bool,
}

impl View for EndpointMap {
    type V = MapView;

    closed spec fn view(&self) -> MapView {
        MapView {
            rules: self.rules@.map_values(|r: Rule| r@),
            drop_unmapped: self.drop_unmapped_alternates,
        }
    }
}

/// The published endpoint under the first rule that matches.
pub open spec fn map_apply(rules: Seq<RuleView>, host: Seq<char>, port: u16) -> Option<(Seq<char>, u16)>
    decreases rules.len(),
{
    if rules.len() == 0 {
        None
    } else {
        match rule_apply(rules[0], host, port) {
            Some(x) => Some(x),
            None => map_apply(rules.drop_first(), host, port),
        }
    }
}

/// The separators between rules of a map specification.
pub open spec fn is_rule_sep(c: char) -> bool {
    c == ',' || c == ' ' || c == '\t' || c == '\n'
}

/// The index of the first separator at or after `i`, or the length.
pub open spec fn next_sep(s: Seq<char>, i: int) -> int
    decreases s.len() - i,
{
    if i >= s.len() {
        s.len() as int
    } else if is_rule_sep(s[i]) {
        i
    } else {
        next_sep(s, i + 1)
    }
}

proof fn lemma_next_sep(s: Seq<char>, i: int)
    requires
        0 <= i <= s.len(),
    ensures
        i <= next_sep(s, i) <= s.len(),
        next_sep(s, i) < s.len() ==> is_rule_sep(s[next_sep(s, i)]),
    decreases s.len() - i,
{
    if i < s.len() && !is_rule_sep(s[i]) {
        lemma_next_sep(s, i + 1);
    }
}

/// The rules a map specification lists: pieces between separators, blank
/// pieces skipped, each read by [`rule_spec`], stopping at the first bad one.
pub open spec fn map_rules(s: Seq<char>) -> Result<Seq<RuleView>, (MapErrorKind, Seq<char>)>
    decreases s.len(),
{
    let k = next_sep(s, 0);
    let piece = s.take(k);
    let head: Result<Option<RuleView>, (MapErrorKind, Seq<char>)> = if trim_chars(piece).len()
        == 0 {
        Ok(None)
    } else {
        match rule_spec(piece) {
            Ok(r) => Ok(Some(r)),
            Err(e) => Err(e),
        }
    };
    match head {
        Err(e) => Err(e),
        Ok(h) => {
            let tail = if k >= s.len() || k < 0 {
                Ok(Seq::empty())
            } else {
                map_rules(s.skip(k + 1))
            };
            match tail {
                Err(e) => Err(e),
                Ok(t) => Ok(
                    match h {
                        Some(r) => seq![r] + t,
                        None => t,
                    },
                ),
            }
        },
    }
}

/// A map as text: its rules, joined by `,`.
pub open spec fn map_text(rules: Seq<RuleView>) -> Seq<char>
    decreases rules.len(),
{
    if rules.len() == 0 {
        Seq::empty()
    } else if rules.len() == 1 {
        rule_text(rules[0])
    } else {
        map_text(rules.drop_last()) + seq![','] + rule_text(rules.last())
    }
}

impl EndpointMap {
    /// An empty map, which rewrites nothing.
    pub fn new() -> (r: EndpointMap)
        ensures
            r@.rules.len() == 0,
            !r@.drop_unmapped,
    {
        let r = EndpointMap { rules: Vec::new(), drop_unmapped_alternates: false };
        assert(r@.rules =~= Seq::<RuleView>::empty());
        r
    }

    /// Appends a rule, returning the map so maps can be built inline.
    pub fn with(self, rule: Rule) -> (r: EndpointMap)
        ensures
            r@.rules == self@.rules.push(rule@),
            r@.drop_unmapped == self@.drop_unmapped,
    {
        let mut m = self;
        m.push(rule);
        m
    }

    /// Appends a rule.
    pub fn push(&mut self, rule: Rule)
        ensures
            final(self)@.rules == old(self)@.rules.push(rule@),
            final(self)@.drop_unmapped == old(self)@.drop_unmapped,
    {
        let ghost r = rule@;
        self.rules.push(rule);
        assert(self@.rules =~= old(self)@.rules.push(r));
    }

    /// Reads a comma- or whitespace-separated list of rules:
    /// `10.244.3.17:5555=203.0.113.9:31000, 10.244.3.18=203.0.113.9`.
    pub fn parse(spec: &str) -> (r: Result<EndpointMap, MapError>)
        ensures
            match map_rules(spec@) {
                Ok(rs) => r matches Ok(m) && m@.rules == rs && !m@.drop_unmapped,
                Err((k, t)) => r matches Err(e) && e.kind() == k && e.rule_text() == t,
            },
    {
        let s = chars_of(spec);
        let mut map = EndpointMap::new();
        let mut pos: usize = 0;
        proof {
            assert(s@.skip(0) =~= s@);
            if let Ok(t) = map_rules(s@) {
                assert(map@.rules + t =~= t);
            }
        }
        loop
            invariant
                pos <= s@.len(),
                s@ == spec@,
                !map@.drop_unmapped,
                map_rules(s@) == match map_rules(s@.skip(pos as int)) {
                    Err(e) => Err(e),
                    Ok(t) => Ok(map@.rules + t),
                },
            decreases s@.len() - pos,
        {
            let ghost rest_s = s@.skip(pos as int);
            let mut k: usize = pos;
            while k < s.len() && !(s[k] == ',' || s[k] == ' ' || s[k] == '\t' || s[k] == '\n')
                invariant
                    pos <= k <= s@.len(),
                    next_sep(s@, pos as int) == next_sep(s@, k as int),
                decreases s.len() - k,
            {
                k = k + 1;
            }
            proof {
                lemma_next_sep_shift(s@, pos as int, k as int);
            }
            let piece = &s[pos..k];
            assert(piece@ =~= rest_s.take(k - pos));
            let ghost before = map@.rules;
            if trim_slice(piece).len() > 0 {
                let rule = Rule::parse_chars(piece)?;
                map.push(rule);
            }
            if k >= s.len() {
                proof {
                    if map@.rules.len() > before.len() {
                        assert(map_rules(rest_s) == Ok::<Seq<RuleView>, (MapErrorKind, Seq<char>)>(
                            seq![map@.rules.last()] + Seq::<RuleView>::empty(),
                        ));
                        assert(before + (seq![map@.rules.last()] + Seq::<RuleView>::empty())
                            =~= map@.rules);
                    } else {
                        assert(map_rules(rest_s) == Ok::<Seq<RuleView>, (MapErrorKind, Seq<char>)>(
                            Seq::<RuleView>::empty(),
                        ));
                        assert(before + Seq::<RuleView>::empty() =~= map@.rules);
                    }
                }
                return Ok(map);
            }
            proof {
                assert(rest_s.skip(k - pos + 1) =~= s@.skip(k + 1));
                match map_rules(s@.skip(k + 1)) {
                    Err(_) => {},
                    Ok(t) => {
                        if map@.rules.len() > before.len() {
                            assert(before + (seq![map@.rules.last()] + t) =~= map@.rules + t);
                        } else {
                            assert(map@.rules =~= before);
                        }
                    },
                }
            }
            pos = k + 1;
        }
    }

    /// Whether this map has no rules.
    pub fn is_empty(&self) -> (r: bool)
        ensures
            r == (self@.rules.len() == 0),
    {
        self.rules.len() == 0
    }

    /// The rules, in match order.
    pub fn rules(&self) -> (r: &[Rule])
        ensures
            r@.map_values(|x: Rule| x@) == self@.rules,
    {
        self.rules.as_slice()
    }

    /// Drops alternate addresses no rule matched, instead of keeping them.
    /// Never removes a profile's own address.
    pub fn drop_unmapped_alternates(self, yes: bool) -> (r: EndpointMap)
        ensures
            r@.rules == self@.rules,
            r@.drop_unmapped == yes,
    {
        EndpointMap { rules: self.rules, drop_unmapped_alternates: yes }
    }

    /// The published endpoint for `host:port` under the first matching rule.
    pub fn apply(&self, host: &str, port: u16) -> (r: Option<(String, u16)>)
        ensures
            match map_apply(self@.rules, host@, port) {
                Some((h, p)) => r matches Some((x, y)) && x@ == h && y == p,
                None => r is None,
            },
    {
        let mut i: usize = 0;
        assert(self@.rules.skip(0) =~= self@.rules);
        while i < self.rules.len()
            invariant
                i <= self.rules@.len(),
                map_apply(self@.rules, host@, port) == map_apply(
                    self@.rules.skip(i as int),
                    host@,
                    port,
                ),
            decreases self.rules.len() - i,
        {
            let ghost rest = self@.rules.skip(i as int);
            assert(rest[0] == self.rules@[i as int]@);
            assert(rest.drop_first() =~= self@.rules.skip(i + 1));
            if let Some(x) = self.rules[i].apply(host, port) {
                return Some(x);
            }
            i = i + 1;
        }
        None
    }

    /// The map as text: its rules joined by `,`.
    pub fn text(&self) -> (r: String)
        ensures
            r@ == map_text(self@.rules),
    {
        let mut out: Vec<char> = Vec::new();
        let mut i: usize = 0;
        while i < self.rules.len()
            invariant
                i <= self.rules@.len(),
                out@ == map_text(self@.rules.take(i as int)),
            decreases self.rules.len() - i,
        {
            let ghost t = self@.rules.take(i + 1);
            proof {
                assert(t.drop_last() =~= self@.rules.take(i as int));
                assert(t.last() == self.rules@[i as int]@);
            }
            if i > 0 {
                out.push(',');
            }
            self.rules[i].push_text(&mut out);
            proof {
                if i == 0 {
                    assert(out@ =~= rule_text(t[0]));
                } else {
                    assert(out@ =~= map_text(t));
                }
            }
            i = i + 1;
        }
        assert(self@.rules.take(self@.rules.len() as int) =~= self@.rules);
        string_of(out.as_slice())
    }
}

proof fn lemma_next_sep_shift(s: Seq<char>, pos: int, k: int)
    requires
        0 <= pos <= k <= s.len(),
        next_sep(s, pos) == next_sep(s, k),
        k < s.len() ==> is_rule_sep(s[k]),
    ensures
        next_sep(s.skip(pos), 0) == k - pos,
    decreases k - pos,
{
    lemma_next_sep_rel(s, pos, 0);
}

proof fn lemma_next_sep_rel(s: Seq<char>, pos: int, j: int)
    requires
        0 <= pos <= s.len(),
        0 <= j <= s.len() - pos,
    ensures
        next_sep(s.skip(pos), j) == next_sep(s, pos + j) - pos,
    decreases s.len() - pos - j,
{
    if j < s.len() - pos {
        assert(s.skip(pos)[j] == s[pos + j]);
        lemma_next_sep_rel(s, pos, j + 1);
    }
}


// ─────────────────────────────────────────────────────────────────────────────
// The lossless IOR
// ─────────────────────────────────────────────────────────────────────────────

/// A tagged profile kept exactly as it arrived.
#[derive(Debug, Clone, PartialEq, Eq)]
pub struct RawProfile {
    /// `IOP::ProfileId`. [`TAG_INTERNET_IOP`] is the one decoded.
    pub tag: u32,
    /// The profile body, undecoded.
    pub body: Vec<u8>,
}

/// A raw profile as values.
pub struct RawProfileView {
    pub tag: u32,
    pub body: Seq<u8>,
}

impl View for RawProfile {
    type V = RawProfileView;

    open spec fn view(&self) -> RawProfileView {
        RawProfileView { tag: self.tag, body: self.body@ }
    }
}

pub open spec fn raw_profiles_view(v: Seq<RawProfile>) -> Seq<RawProfileView> {
    v.map_values(|p: RawProfile| p@)
}

impl RawProfile {
    /// A copy with the same tag and octets.
    pub fn duplicate(&self) -> (r: RawProfile)
        ensures
            r@ == self@,
    {
        let mut body: Vec<u8> = Vec::new();
        crate::text::push_all(&mut body, self.body.as_slice());
        assert(body@ =~= self.body@);
        RawProfile { tag: self.tag, body }
    }
}

/// An IOR with every profile preserved, whether or not it is understood,
/// and the byte order of the encapsulation it came in.
#[derive(Debug, Clone, PartialEq, Eq)]
pub struct RawIor {
    /// Repository ID of the most-derived interface.
    pub type_id: String,
    /// Every profile, in order, verbatim.
    pub profiles: Vec<RawProfile>,
    /// Byte order the source encapsulation used.
    pub endian: Endian,
}

/// A raw reference as values.
pub struct RawIorView {
    pub type_id: Seq<char>,
    pub profiles: Seq<RawProfileView>,
    pub endian: Endian,
}

impl View for RawIor {
    type V = RawIorView;

    open spec fn view(&self) -> RawIorView {
        RawIorView {
            type_id: self.type_id@,
            profiles: raw_profiles_view(self.profiles@),
            endian: self.endian,
        }
    }
}

/// `n` tagged profiles, each kept as its tag and body octets.
pub open spec fn read_raw_profiles(d: DecoderView, n: nat) -> Result<
    (Seq<RawProfileView>, DecoderView),
    CdrError,
>
    decreases n,
{
    if n == 0 {
        Ok((Seq::empty(), d))
    } else {
        match read_raw_profiles(d, (n - 1) as nat) {
            Err(e) => Err(e),
            Ok((ps, d1)) => match d1.get_u32() {
                Err(e) => Err(e),
                Ok((tag, d2)) => match d2.get_octet_seq() {
                    Err(e) => Err(e),
                    Ok((body, d3)) => Ok((ps.push(RawProfileView { tag, body }), d3)),
                },
            },
        }
    }
}

/// A reference's type id (read lossily) and its profiles, kept whole.
pub open spec fn read_raw_body(d: DecoderView) -> Result<
    ((Seq<char>, Seq<RawProfileView>), DecoderView),
    CdrError,
> {
    match d.get_string_bytes() {
        Err(e) => Err(e),
        Ok((tb, d1)) => match d1.get_u32() {
            Err(e) => Err(e),
            Ok((n, d2)) => if !d2.count_fits(n as int, 8) {
                Err(CdrError::CountTooLarge)
            } else {
                match read_raw_profiles(d2, n as nat) {
                    Err(e) => Err(e),
                    Ok((ps, d3)) => Ok(((lossy_text(tb), ps), d3)),
                }
            },
        },
    }
}

/// A reference read from `d`, in `d`'s byte order.
pub open spec fn read_raw_ior(d: DecoderView) -> Result<(RawIorView, DecoderView), CdrError> {
    match read_raw_body(d) {
        Err(e) => Err(e),
        Ok(((type_id, profiles), after)) => Ok(
            (RawIorView { type_id, profiles, endian: d.endian }, after),
        ),
    }
}

/// The profiles of a reference, each a tag and an octet sequence.
pub open spec fn put_raw_profiles(e: EncoderView, ps: Seq<RawProfileView>) -> EncoderView
    decreases ps.len(),
{
    if ps.len() == 0 {
        e
    } else {
        put_raw_profiles(e, ps.drop_last()).put_u32(ps.last().tag).put_octet_seq(ps.last().body)
    }
}

/// A raw reference marshalled inline.
pub open spec fn raw_encoding(e: EncoderView, r: RawIorView) -> EncoderView {
    put_raw_profiles(e.put_str(r.type_id).put_u32(r.profiles.len() as u32), r.profiles)
}

proof fn lemma_read_raw_stop(d: DecoderView, i: nat, n: nat, e: CdrError)
    requires
        read_raw_profiles(d, i + 1) == Err::<(Seq<RawProfileView>, DecoderView), CdrError>(e),
        i + 1 <= n,
    ensures
        read_raw_profiles(d, n) == Err::<(Seq<RawProfileView>, DecoderView), CdrError>(e),
    decreases n,
{
    if n > i + 1 {
        lemma_read_raw_stop(d, i, (n - 1) as nat, e);
    }
}

/// The dialing view of raw profiles: the IIOP ones decoded, the rest
/// dropped; the first IIOP profile that does not decode is the error.
pub open spec fn dialing_profiles(ps: Seq<RawProfileView>) -> Result<Seq<ProfileWire>, CdrError>
    decreases ps.len(),
{
    if ps.len() == 0 {
        Ok(Seq::empty())
    } else {
        match dialing_profiles(ps.drop_last()) {
            Err(e) => Err(e),
            Ok(ws) => if ps.last().tag == TAG_INTERNET_IOP {
                match parse_profile_wire(ps.last().body) {
                    Err(e) => Err(e),
                    Ok(w) => Ok(ws.push(w)),
                }
            } else {
                Ok(ws)
            },
        }
    }
}

impl RawIor {
    /// Parses the `IOR:<hex>` stringified form.
    pub fn parse(s: &str) -> (r: Result<RawIor, Error>)
        ensures
            match ior_hex_spec(bytes_of(trim_chars(s@))) {
                Err(why) => r matches Err(Error::BadIor(w)) && w == why,
                Ok(b) => match open_encapsulation(b) {
                    Err(e) => r matches Err(Error::Cdr(x)) && x == e,
                    Ok(d) => match read_raw_ior(d) {
                        Ok((v, _)) => r matches Ok(ior) && ior@ == v,
                        Err(e) => r matches Err(Error::Cdr(x)) && x == e,
                    },
                },
            },
    {
        let bytes = crate::ior::ior_hex_bytes(s)?;
        RawIor::from_encapsulation(bytes.as_slice())
    }

    /// Parses the CDR encapsulation a stringified IOR wraps.
    pub fn from_encapsulation(bytes: &[u8]) -> (r: Result<RawIor, Error>)
        ensures
            match open_encapsulation(bytes@) {
                Err(e) => r matches Err(Error::Cdr(x)) && x == e,
                Ok(d) => match read_raw_ior(d) {
                    Ok((v, _)) => r matches Ok(ior) && ior@ == v,
                    Err(e) => r matches Err(Error::Cdr(x)) && x == e,
                },
            },
    {
        let mut d = match Decoder::encapsulation(bytes) {
            Ok(d) => d,
            Err(e) => return Err(Error::Cdr(e)),
        };
        RawIor::read_from(&mut d)
    }

    /// Reads a reference marshalled inline in an existing stream (§9.3.6),
    /// adopting that stream's byte order.
    pub fn read_from(d: &mut Decoder) -> (r: Result<RawIor, Error>)
        ensures
            match read_raw_ior(old(d)@) {
                Ok((v, after)) => r matches Ok(ior) && ior@ == v && final(d)@ == after,
                Err(e) => r matches Err(Error::Cdr(x)) && x == e,
            },
    {
        let endian = d.endian();
        let tb = match d.get_string_bytes() {
            Ok(b) => b,
            Err(e) => return Err(Error::Cdr(e)),
        };
        let type_id = string_from_utf8_lossy(tb);
        let count = match d.get_u32() {
            Ok(v) => v,
            Err(e) => return Err(Error::Cdr(e)),
        };
        let n = match d.validate_count(count, 8) {
            Ok(n) => n,
            Err(e) => return Err(Error::Cdr(e)),
        };
        let ghost d0 = d@;
        let mut profiles: Vec<RawProfile> = Vec::new();
        let mut i: usize = 0;
        assert(raw_profiles_view(profiles@) =~= Seq::<RawProfileView>::empty());
        while i < n
            invariant
                i <= n,
                read_raw_ior(old(d)@) == match read_raw_profiles(d0, n as nat) {
                    Err(e) => Err(e),
                    Ok((ps, d3)) => Ok(
                        (RawIorView { type_id: type_id@, profiles: ps, endian }, d3),
                    ),
                },
                read_raw_profiles(d0, i as nat) == Ok::<(Seq<RawProfileView>, DecoderView), CdrError>(
                    (raw_profiles_view(profiles@), d@),
                ),
            decreases n - i,
        {
            let tag = match d.get_u32() {
                Ok(v) => v,
                Err(e) => {
                    proof {
                        lemma_read_raw_stop(d0, i as nat, n as nat, e);
                    }
                    return Err(Error::Cdr(e));
                },
            };
            let body = match d.get_octet_seq() {
                Ok(v) => v,
                Err(e) => {
                    proof {
                        lemma_read_raw_stop(d0, i as nat, n as nat, e);
                    }
                    return Err(Error::Cdr(e));
                },
            };
            let mut owned: Vec<u8> = Vec::new();
            crate::text::push_all(&mut owned, body);
            assert(owned@ =~= body@);
            let ghost before = raw_profiles_view(profiles@);
            profiles.push(RawProfile { tag, body: owned });
            assert(raw_profiles_view(profiles@) =~= before.push(RawProfileView { tag, body: body@ }));
            i = i + 1;
        }
        Ok(RawIor { type_id, profiles, endian })
    }

    /// Marshals inline into an existing stream (§9.3.6).
    pub fn write_to(&self, e: &mut Encoder) -> (r: Result<(), Error>)
        ensures
            r is Ok,
            final(e)@ == raw_encoding(old(e)@, self@),
    {
        e.put_str(self.type_id.as_str());
        e.put_u32(#[verifier::truncate] (self.profiles.len() as u32));
        let ghost start = e@;
        let mut i: usize = 0;
        while i < self.profiles.len()
            invariant
                i <= self.profiles@.len(),
                e@ == put_raw_profiles(start, self@.profiles.take(i as int)),
            decreases self.profiles.len() - i,
        {
            let p = &self.profiles[i];
            e.put_u32(p.tag);
            e.put_octet_seq(p.body.as_slice());
            proof {
                let t = self@.profiles.take(i + 1);
                assert(t.drop_last() =~= self@.profiles.take(i as int));
                assert(t.last() == p@);
            }
            i = i + 1;
        }
        assert(self@.profiles.take(self@.profiles.len() as int) =~= self@.profiles);
        Ok(())
    }

    /// The `IOR:<hex>` stringified form, in the byte order this reference
    /// was read in.
    pub fn to_stringified(&self) -> (r: Result<String, Error>)
        ensures
            raw_encoding(encapsulation_start(self.endian), self@).ok ==> (r matches Ok(s)
                && bytes_of(s@) == ior_prefix() + hex_encode(
                raw_encoding(encapsulation_start(self.endian), self@).bytes,
            )),
            !raw_encoding(encapsulation_start(self.endian), self@).ok ==> r matches Err(
                Error::Cdr(CdrError::TooLong),
            ),
    {
        let mut e = Encoder::encapsulation(self.endian);
        self.write_to(&mut e)?;
        match e.finish() {
            Ok(bytes) => Ok(crate::ior::hex_ior(bytes.as_slice())),
            Err(x) => Err(Error::Cdr(x)),
        }
    }

    /// The dialing view: the same reference with non-IIOP profiles dropped.
    pub fn to_ior(&self) -> (r: Result<Ior, Error>)
        ensures
            match dialing_profiles(self@.profiles) {
                Err(e) => r matches Err(Error::Cdr(x)) && x == e,
                Ok(ws) => r matches Ok(ior) && ior@.type_id == self@.type_id && ior@.profiles.len()
                    == ws.len() && forall|j: int|
                    0 <= j < ws.len() ==> profile_from_wire(#[trigger] ior@.profiles[j], ws[j]),
            },
    {
        let mut profiles: Vec<IiopProfile> = Vec::new();
        let ghost mut ws: Seq<ProfileWire> = Seq::empty();
        let mut i: usize = 0;
        while i < self.profiles.len()
            invariant
                i <= self.profiles@.len(),
                dialing_profiles(self@.profiles.take(i as int)) == Ok::<Seq<ProfileWire>, CdrError>(ws),
                profiles@.len() == ws.len(),
                forall|j: int| 0 <= j < ws.len() ==> profile_from_wire(#[trigger] profiles@[j]@, ws[j]),
            decreases self.profiles.len() - i,
        {
            let p = &self.profiles[i];
            proof {
                let t = self@.profiles.take(i + 1);
                assert(t.drop_last() =~= self@.profiles.take(i as int));
                assert(t.last() == p@);
            }
            if p.tag == TAG_INTERNET_IOP {
                match crate::ior::parse_iiop_profile(p.body.as_slice()) {
                    Ok(prof) => {
                        let ghost before = profiles@;
                        profiles.push(prof);
                        proof {
                            let w = parse_profile_wire(p.body@)->Ok_0;
                            assert forall|j: int| 0 <= j < ws.push(w).len() implies profile_from_wire(
                                #[trigger] profiles@[j]@,
                                ws.push(w)[j],
                            ) by {
                                if j < ws.len() {
                                    assert(profiles@[j] == before[j]);
                                }
                            }
                            ws = ws.push(w);
                        }
                    },
                    Err(e) => {
                        proof {
                            lemma_dialing_stop(self@.profiles, i + 1);
                        }
                        return Err(e);
                    },
                }
            }
            i = i + 1;
        }
        assert(self@.profiles.take(self@.profiles.len() as int) =~= self@.profiles);
        let ior = Ior { type_id: self.type_id.clone(), profiles };
        proof {
            assert forall|j: int| 0 <= j < ws.len() implies profile_from_wire(
                #[trigger] ior@.profiles[j],
                ws[j],
            ) by {
                assert(ior@.profiles[j] == profiles@[j]@);
            }
        }
        Ok(ior)
    }
}

proof fn lemma_dialing_stop(ps: Seq<RawProfileView>, i: int)
    requires
        0 < i <= ps.len(),
        dialing_profiles(ps.take(i)) is Err,
    ensures
        dialing_profiles(ps) == dialing_profiles(ps.take(i)),
    decreases ps.len() - i,
{
    if i < ps.len() {
        assert(ps.take(i + 1).drop_last() =~= ps.take(i));
        lemma_dialing_stop(ps, i + 1);
    } else {
        assert(ps.take(i) =~= ps);
    }
}


// ─────────────────────────────────────────────────────────────────────────────
// The rewrite
// ─────────────────────────────────────────────────────────────────────────────

/// Where a rewritten endpoint sat in the reference.
#[derive(Debug, Clone, Copy, PartialEq, Eq, Structural)]
pub enum Where {
    /// The profile's own `host`/`port`.
    ProfileAddress,
    /// A `TAG_ALTERNATE_IIOP_ADDRESS` component of that profile.
    Alternate,
}

/// One endpoint that moved.
#[derive(Debug, PartialEq, Eq)]
pub struct Change {
    /// Index of the profile within the IOR.
    pub profile: usize,
    /// Which field moved.
    pub site: Where,
    /// Address before.
    pub from: (String, u16),
    /// Address after.
    pub to: (String, u16),
}

/// A change as values.
pub struct ChangeView {
    pub profile: nat,
    pub site: Where,
    pub from: (Seq<char>, u16),
    pub to: (Seq<char>, u16),
}

impl View for Change {
    type V = ChangeView;

    open spec fn view(&self) -> ChangeView {
        ChangeView {
            profile: self.profile as nat,
            site: self.site,
            from: (self.from.0@, self.from.1),
            to: (self.to.0@, self.to.1),
        }
    }
}

impl Clone for Change {
    fn clone(&self) -> (r: Change)
        ensures
            r@ == self@,
    {
        Change {
            profile: self.profile,
            site: self.site,
            from: (self.from.0.clone(), self.from.1),
            to: (self.to.0.clone(), self.to.1),
        }
    }
}

/// An endpoint list as values.
pub open spec fn endpoints_view(v: Seq<(String, u16)>) -> Seq<(Seq<char>, u16)> {
    v.map_values(|e: (String, u16)| (e.0@, e.1))
}

/// What a rewrite did, so a deployment can assert on it instead of hoping.
#[derive(Debug, Default, PartialEq, Eq)]
pub struct RewriteReport {
    /// Profiles in the reference, of every tag.
    pub profiles: usize,
    /// Profiles carrying [`TAG_INTERNET_IOP`].
    pub iiop_profiles: usize,
    /// Profiles of a tag not decoded, kept byte for byte.
    pub foreign_profiles: usize,
    /// Every endpoint that moved.
    pub changed: Vec<Change>,
    /// Endpoints no rule matched, left as they were.
    pub unmapped: Vec<(String, u16)>,
    /// Alternates removed under [`EndpointMap::drop_unmapped_alternates`].
    pub dropped: Vec<(String, u16)>,
    /// Alternate components whose body would not decode; kept verbatim.
    pub malformed_alternates: usize,
}

/// A report as values.
pub struct ReportView {
    pub profiles: nat,
    pub iiop_profiles: nat,
    pub foreign_profiles: nat,
    pub changed: Seq<ChangeView>,
    pub unmapped: Seq<(Seq<char>, u16)>,
    pub dropped: Seq<(Seq<char>, u16)>,
    pub malformed_alternates: nat,
}

impl View for RewriteReport {
    type V = ReportView;

    open spec fn view(&self) -> ReportView {
        ReportView {
            profiles: self.profiles as nat,
            iiop_profiles: self.iiop_profiles as nat,
            foreign_profiles: self.foreign_profiles as nat,
            changed: self.changed@.map_values(|c: Change| c@),
            unmapped: endpoints_view(self.unmapped@),
            dropped: endpoints_view(self.dropped@),
            malformed_alternates: self.malformed_alternates as nat,
        }
    }
}

impl RewriteReport {
    /// Whether anything moved.
    pub fn changed_anything(&self) -> (r: bool)
        ensures
            r == (self@.changed.len() > 0 || self@.dropped.len() > 0),
    {
        self.changed.len() > 0 || self.dropped.len() > 0
    }
}

/// One more, saturating at the largest count a report can hold.
pub open spec fn bump(n: nat) -> nat {
    if n + 1 > usize::MAX {
        usize::MAX as nat
    } else {
        n + 1
    }
}

/// The report with one more endpoint moved.
pub open spec fn with_change(r: ReportView, c: ChangeView) -> ReportView {
    ReportView { changed: r.changed.push(c), ..r }
}

/// The report with one more endpoint left alone.
pub open spec fn with_unmapped(r: ReportView, e: (Seq<char>, u16)) -> ReportView {
    ReportView { unmapped: r.unmapped.push(e), ..r }
}

/// The report with one more alternate dropped.
pub open spec fn with_dropped(r: ReportView, e: (Seq<char>, u16)) -> ReportView {
    ReportView { dropped: r.dropped.push(e), ..r }
}

/// The report with one more malformed alternate.
pub open spec fn with_malformed(r: ReportView) -> ReportView {
    ReportView { malformed_alternates: bump(r.malformed_alternates), ..r }
}

/// The body of a `TAG_ALTERNATE_IIOP_ADDRESS` component: an encapsulated
/// `string host; unsigned short port;`.
pub open spec fn alternate_encoding(host: Seq<char>, port: u16, endian: Endian) -> EncoderView {
    encapsulation_start(endian).put_str(host).put_u16(port)
}

/// Builds a `TAG_ALTERNATE_IIOP_ADDRESS` component.
pub fn alternate_address(host: &str, port: u16, endian: Endian) -> (r: Result<TaggedComponent, Error>)
    ensures
        alternate_encoding(host@, port, endian).ok ==> (r matches Ok(c) && c@ == ComponentView {
            tag: TAG_ALTERNATE_IIOP_ADDRESS,
            data: alternate_encoding(host@, port, endian).bytes,
        }),
        !alternate_encoding(host@, port, endian).ok ==> r matches Err(
            Error::Cdr(CdrError::TooLong),
        ),
{
    let mut e = Encoder::encapsulation(endian);
    e.put_str(host);
    e.put_u16(port);
    match e.finish() {
        Ok(data) => Ok(TaggedComponent { tag: TAG_ALTERNATE_IIOP_ADDRESS, data }),
        Err(x) => Err(Error::Cdr(x)),
    }
}

/// Where a component walk stands: the components so far, the report, and
/// whether anything moved.
pub struct Walk {
    pub out: Seq<ComponentView>,
    pub report: ReportView,
    pub changed: bool,
}

/// One component of an IIOP profile under the map: anything but an
/// alternate is kept; a malformed alternate is kept and counted; an
/// alternate a rule moves is re-encoded in its own byte order; one a rule
/// names as it is stays; an unmatched one is dropped when the map asks, else
/// kept and reported unmapped.
pub open spec fn walk_step(index: nat, w: Walk, c: ComponentView, map: MapView) -> Result<Walk, CdrError> {
    if c.tag != TAG_ALTERNATE_IIOP_ADDRESS {
        Ok(Walk { out: w.out.push(c), ..w })
    } else {
        match parse_alternate_wire(c.data) {
            Err(_) => Ok(Walk { out: w.out.push(c), report: with_malformed(w.report), changed: w.changed }),
            Ok((hb, port)) => {
                let host = lossy_text(hb);
                match map_apply(map.rules, host, port) {
                    Some((h, p)) => if h != host || p != port {
                        let enc = alternate_encoding(h, p, open_encapsulation(c.data)->Ok_0.endian);
                        if enc.ok {
                            Ok(
                                Walk {
                                    out: w.out.push(
                                        ComponentView { tag: TAG_ALTERNATE_IIOP_ADDRESS, data: enc.bytes },
                                    ),
                                    report: with_change(
                                        w.report,
                                        ChangeView {
                                            profile: index,
                                            site: Where::Alternate,
                                            from: (host, port),
                                            to: (h, p),
                                        },
                                    ),
                                    changed: true,
                                },
                            )
                        } else {
                            Err(CdrError::TooLong)
                        }
                    } else {
                        Ok(Walk { out: w.out.push(c), ..w })
                    },
                    None => if map.drop_unmapped {
                        Ok(Walk { out: w.out, report: with_dropped(w.report, (host, port)), changed: true })
                    } else {
                        Ok(
                            Walk {
                                out: w.out.push(c),
                                report: with_unmapped(w.report, (host, port)),
                                changed: w.changed,
                            },
                        )
                    },
                }
            },
        }
    }
}

/// The walk over a whole component list.
pub open spec fn walk(index: nat, start: Walk, cs: Seq<ComponentView>, map: MapView) -> Result<Walk, CdrError>
    decreases cs.len(),
{
    if cs.len() == 0 {
        Ok(start)
    } else {
        match walk(index, start, cs.drop_last(), map) {
            Err(e) => Err(e),
            Ok(w) => walk_step(index, w, cs.last(), map),
        }
    }
}

/// One IIOP profile under the map, with the report it leaves. The profile's
/// own address is looked up first, then its components in order; when
/// nothing moved the original octets are kept, else the profile is
/// re-encoded in its own byte order with the same version and key.
#[verifier::opaque]
pub open spec fn rewrite_profile_spec(index: nat, raw: RawProfileView, map: MapView, report: ReportView) -> Result<
    (RawProfileView, ReportView),
    Error,
> {
    match open_encapsulation(raw.body) {
        Err(e) => Err(Error::Cdr(e)),
        Ok(d) => match parse_profile_wire(raw.body) {
            Err(e) => Err(Error::Cdr(e)),
            Ok(pw) => {
                let host = lossy_text(pw.host);
                let port = pw.port;
                let (r1, new_host, new_port, moved) = match map_apply(map.rules, host, port) {
                    Some((h, p)) => if h != host || p != port {
                        (
                            with_change(
                                report,
                                ChangeView {
                                    profile: index,
                                    site: Where::ProfileAddress,
                                    from: (host, port),
                                    to: (h, p),
                                },
                            ),
                            h,
                            p,
                            true,
                        )
                    } else {
                        (report, host, port, false)
                    },
                    None => (with_unmapped(report, (host, port)), host, port, false),
                };
                match walk(index, Walk { out: Seq::empty(), report: r1, changed: moved }, pw.components, map) {
                    Err(e) => Err(Error::Cdr(e)),
                    Ok(w) => if !w.changed {
                        Ok((raw, w.report))
                    } else {
                        let enc = profile_encoding(
                            ProfileView {
                                version: Version { major: pw.major, minor: pw.minor },
                                host: new_host,
                                port: new_port,
                                object_key: pw.object_key,
                                components: w.out,
                            },
                            d.endian,
                        );
                        if enc.ok {
                            Ok((RawProfileView { tag: TAG_INTERNET_IOP, body: enc.bytes }, w.report))
                        } else {
                            Err(Error::Cdr(CdrError::TooLong))
                        }
                    },
                }
            },
        },
    }
}

/// Every profile of a reference under the map, in order: foreign tags kept
/// as they are and counted, IIOP ones rewritten.
pub open spec fn rewrite_all(ps: Seq<RawProfileView>, map: MapView, start: ReportView) -> Result<
    (Seq<RawProfileView>, ReportView),
    Error,
>
    decreases ps.len(),
{
    if ps.len() == 0 {
        Ok((Seq::empty(), start))
    } else {
        match rewrite_all(ps.drop_last(), map, start) {
            Err(e) => Err(e),
            Ok((out, rep)) => {
                let p = ps.last();
                if p.tag != TAG_INTERNET_IOP {
                    Ok((out.push(p), ReportView { foreign_profiles: rep.foreign_profiles + 1, ..rep }))
                } else {
                    match rewrite_profile_spec(
                        (ps.len() - 1) as nat,
                        p,
                        map,
                        ReportView { iiop_profiles: rep.iiop_profiles + 1, ..rep },
                    ) {
                        Err(e) => Err(e),
                        Ok((np, rep2)) => Ok((out.push(np), rep2)),
                    }
                }
            },
        }
    }
}

/// The report a rewrite of `n` profiles starts from.
pub open spec fn empty_report(n: nat) -> ReportView {
    ReportView {
        profiles: n,
        iiop_profiles: 0,
        foreign_profiles: 0,
        changed: Seq::empty(),
        unmapped: Seq::empty(),
        dropped: Seq::empty(),
        malformed_alternates: 0,
    }
}

/// What [`rewrite`] makes of a reference.
pub open spec fn rewrite_spec(ior: RawIorView, map: MapView) -> Result<(RawIorView, ReportView), Error> {
    match rewrite_all(ior.profiles, map, empty_report(ior.profiles.len())) {
        Err(e) => Err(e),
        Ok((ps, rep)) => Ok((RawIorView { type_id: ior.type_id, profiles: ps, endian: ior.endian }, rep)),
    }
}


impl RewriteReport {
    fn starting(n: usize) -> (r: RewriteReport)
        ensures
            r@ == empty_report(n as nat),
    {
        let r = RewriteReport {
            profiles: n,
            iiop_profiles: 0,
            foreign_profiles: 0,
            changed: Vec::new(),
            unmapped: Vec::new(),
            dropped: Vec::new(),
            malformed_alternates: 0,
        };
        assert(r@.changed =~= Seq::<ChangeView>::empty());
        assert(r@.unmapped =~= Seq::<(Seq<char>, u16)>::empty());
        assert(r@.dropped =~= Seq::<(Seq<char>, u16)>::empty());
        r
    }

    fn note_change(&mut self, c: Change)
        ensures
            final(self)@ == with_change(old(self)@, c@),
    {
        let ghost cv = c@;
        self.changed.push(c);
        assert(self@.changed =~= old(self)@.changed.push(cv));
    }

    fn note_unmapped(&mut self, host: String, port: u16)
        ensures
            final(self)@ == with_unmapped(old(self)@, (host@, port)),
    {
        let ghost h = host@;
        self.unmapped.push((host, port));
        assert(self@.unmapped =~= old(self)@.unmapped.push((h, port)));
    }

    fn note_dropped(&mut self, host: String, port: u16)
        ensures
            final(self)@ == with_dropped(old(self)@, (host@, port)),
    {
        let ghost h = host@;
        self.dropped.push((host, port));
        assert(self@.dropped =~= old(self)@.dropped.push((h, port)));
    }

    fn note_malformed(&mut self)
        ensures
            final(self)@ == with_malformed(old(self)@),
    {
        self.malformed_alternates = self.malformed_alternates.saturating_add(1);
    }
}

fn copy_component(c: &TaggedComponent) -> (r: TaggedComponent)
    ensures
        r@ == c@,
{
    let mut data: Vec<u8> = Vec::new();
    crate::text::push_all(&mut data, c.data.as_slice());
    assert(data@ =~= c.data@);
    TaggedComponent { tag: c.tag, data }
}

pub open spec fn components_view(v: Seq<TaggedComponent>) -> Seq<ComponentView> {
    v.map_values(|c: TaggedComponent| c@)
}

/// Rewrites the components of one IIOP profile, from the walk state `start`.
fn rewrite_components(
    index: usize,
    cs: &[TaggedComponent],
    map: &EndpointMap,
    report: &mut RewriteReport,
    changed_before: bool,
) -> (r: Result<(Vec<TaggedComponent>, bool), Error>)
    ensures
        match walk(
            index as nat,
            Walk { out: Seq::empty(), report: old(report)@, changed: changed_before },
            components_view(cs@),
            map@,
        ) {
            Ok(w) => r matches Ok((out, ch)) && components_view(out@) == w.out && final(report)@
                == w.report && ch == w.changed,
            Err(e) => r matches Err(Error::Cdr(x)) && x == e,
        },
        final(report)@.iiop_profiles == old(report)@.iiop_profiles,
        final(report)@.foreign_profiles == old(report)@.foreign_profiles,
{
    let ghost start = Walk { out: Seq::empty(), report: old(report)@, changed: changed_before };
    let mut out: Vec<TaggedComponent> = Vec::new();
    let mut changed = changed_before;
    let mut i: usize = 0;
    assert(components_view(cs@).take(0) =~= Seq::<ComponentView>::empty());
    assert(components_view(out@) =~= Seq::<ComponentView>::empty());
    while i < cs.len()
        invariant
            i <= cs@.len(),
            start == (Walk { out: Seq::empty(), report: old(report)@, changed: changed_before }),
            report@.iiop_profiles == old(report)@.iiop_profiles,
            report@.foreign_profiles == old(report)@.foreign_profiles,
            walk(index as nat, start, components_view(cs@).take(i as int), map@) == Ok::<Walk, CdrError>(
                Walk { out: components_view(out@), report: report@, changed },
            ),
        decreases cs.len() - i,
    {
        let c = &cs[i];
        let ghost before = components_view(out@);
        let ghost w = Walk { out: components_view(out@), report: report@, changed };
        proof {
            let t = components_view(cs@).take(i + 1);
            assert(t.drop_last() =~= components_view(cs@).take(i as int));
            assert(t.last() == c@);
        }
        if c.tag != TAG_ALTERNATE_IIOP_ADDRESS {
            out.push(copy_component(c));
            assert(components_view(out@) =~= before.push(c@));
        } else {
            match crate::ior::parse_alternate_address(c.data.as_slice()) {
                Err(_) => {
                    report.note_malformed();
                    out.push(copy_component(c));
                    assert(components_view(out@) =~= before.push(c@));
                },
                Ok((host, port)) => {
                    match map.apply(host.as_str(), port) {
                        Some((h, p)) => {
                            if h != host || p != port {
                                let comp_endian = match Decoder::encapsulation(c.data.as_slice()) {
                                    Ok(d) => d.endian(),
                                    Err(e) => return Err(Error::Cdr(e)),
                                };
                                let comp = match alternate_address(h.as_str(), p, comp_endian) {
                                    Ok(comp) => comp,
                                    Err(e) => {
                                        proof {
                                            lemma_walk_stop(index as nat, start, components_view(cs@), map@, i + 1);
                                        }
                                        return Err(e);
                                    },
                                };
                                let ghost hv = h@;
                                let h2 = h.clone();
                                report.note_change(
                                    Change { profile: index, site: Where::Alternate, from: (host, port), to: (h2, p) },
                                );
                                out.push(comp);
                                changed = true;
                                assert(components_view(out@) =~= before.push(comp@));
                            } else {
                                out.push(copy_component(c));
                                assert(components_view(out@) =~= before.push(c@));
                            }
                        },
                        None => {
                            if map.drop_unmapped_alternates {
                                report.note_dropped(host, port);
                                changed = true;
                            } else {
                                report.note_unmapped(host, port);
                                out.push(copy_component(c));
                                assert(components_view(out@) =~= before.push(c@));
                            }
                        },
                    }
                },
            }
        }
        i = i + 1;
    }
    assert(components_view(cs@).take(cs@.len() as int) =~= components_view(cs@));
    Ok((out, changed))
}

proof fn lemma_walk_stop(index: nat, start: Walk, cs: Seq<ComponentView>, map: MapView, i: int)
    requires
        0 < i <= cs.len(),
        walk(index, start, cs.take(i), map) is Err,
    ensures
        walk(index, start, cs, map) == walk(index, start, cs.take(i), map),
    decreases cs.len() - i,
{
    if i < cs.len() {
        assert(cs.take(i + 1).drop_last() =~= cs.take(i));
        lemma_walk_stop(index, start, cs, map, i + 1);
    } else {
        assert(cs.take(i) =~= cs);
    }
}


/// Rewrites one IIOP profile, noting what it did in `report`.
fn rewrite_iiop_profile(index: usize, raw: &RawProfile, map: &EndpointMap, report: &mut RewriteReport) -> (r: Result<RawProfile, Error>)
    ensures
        match rewrite_profile_spec(index as nat, raw@, map@, old(report)@) {
            Ok((p, rep)) => r matches Ok(x) && x@ == p && final(report)@ == rep,
            Err(Error::Cdr(c)) => r matches Err(Error::Cdr(x)) && x == c,
            Err(_) => false,
        },
        final(report)@.iiop_profiles == old(report)@.iiop_profiles,
        final(report)@.foreign_profiles == old(report)@.foreign_profiles,
{
    reveal(rewrite_profile_spec);
    let endian = match Decoder::encapsulation(raw.body.as_slice()) {
        Ok(d) => d.endian(),
        Err(e) => return Err(Error::Cdr(e)),
    };
    let profile = crate::ior::parse_iiop_profile(raw.body.as_slice())?;
    let ghost pw = parse_profile_wire(raw@.body)->Ok_0;
    let mut new_host = profile.host.clone();
    let mut new_port = profile.port;
    let mut moved = false;
    match map.apply(profile.host.as_str(), profile.port) {
        Some((host, port)) => {
            if host != profile.host || port != profile.port {
                let h2 = host.clone();
                report.note_change(
                    Change {
                        profile: index,
                        site: Where::ProfileAddress,
                        from: (profile.host.clone(), profile.port),
                        to: (h2, port),
                    },
                );
                new_host = host;
                new_port = port;
                moved = true;
            }
        },
        None => {
            report.note_unmapped(profile.host.clone(), profile.port);
        },
    }
    let (components, changed) = rewrite_components(
        index,
        profile.components.as_slice(),
        map,
        report,
        moved,
    )?;
    assert(components_view(profile.components@) == pw.components);
    if !changed {
        return Ok(raw.duplicate());
    }
    let mut key: Vec<u8> = Vec::new();
    crate::text::push_all(&mut key, profile.object_key.as_slice());
    assert(key@ =~= pw.object_key);
    let out = IiopProfile {
        version: profile.version,
        host: new_host,
        port: new_port,
        object_key: key,
        components,
    };
    let e = out.encapsulate(endian)?;
    match e.finish() {
        Ok(body) => Ok(RawProfile { tag: TAG_INTERNET_IOP, body }),
        Err(x) => Err(Error::Cdr(x)),
    }
}

/// Rewrites every endpoint in `ior` that `map` names, preserving everything
/// else — including profiles this implementation does not understand.
pub fn rewrite(ior: &RawIor, map: &EndpointMap) -> (r: Result<(RawIor, RewriteReport), Error>)
    ensures
        match rewrite_spec(ior@, map@) {
            Ok((v, rep)) => r matches Ok((out, report)) && out@ == v && report@ == rep,
            Err(Error::Cdr(c)) => r matches Err(Error::Cdr(x)) && x == c,
            Err(_) => false,
        },
{
    let mut report = RewriteReport::starting(ior.profiles.len());
    let mut out: Vec<RawProfile> = Vec::new();
    let mut i: usize = 0;
    assert(ior@.profiles.take(0) =~= Seq::<RawProfileView>::empty());
    assert(raw_profiles_view(out@) =~= Seq::<RawProfileView>::empty());
    while i < ior.profiles.len()
        invariant
            i <= ior.profiles@.len(),
            report@.iiop_profiles + report@.foreign_profiles == i,
            rewrite_all(ior@.profiles.take(i as int), map@, empty_report(ior.profiles@.len() as nat))
                == Ok::<(Seq<RawProfileView>, ReportView), Error>((raw_profiles_view(out@), report@)),
        decreases ior.profiles.len() - i,
    {
        let p = &ior.profiles[i];
        let ghost before = raw_profiles_view(out@);
        proof {
            let t = ior@.profiles.take(i + 1);
            assert(t.drop_last() =~= ior@.profiles.take(i as int));
            assert(t.last() == p@);
        }
        if p.tag != TAG_INTERNET_IOP {
            report.foreign_profiles = report.foreign_profiles + 1;
            out.push(p.duplicate());
            assert(raw_profiles_view(out@) =~= before.push(p@));
        } else {
            report.iiop_profiles = report.iiop_profiles + 1;
            let np = match rewrite_iiop_profile(i, p, map, &mut report) {
                Ok(np) => np,
                Err(e) => {
                    proof {
                        lemma_rewrite_all_stop(ior@.profiles, map@, empty_report(ior.profiles@.len() as nat), i + 1);
                    }
                    return Err(e);
                },
            };
            let ghost npv = np@;
            out.push(np);
            assert(raw_profiles_view(out@) =~= before.push(npv));
        }
        i = i + 1;
    }
    assert(ior@.profiles.take(ior@.profiles.len() as int) =~= ior@.profiles);
    Ok((RawIor { type_id: ior.type_id.clone(), profiles: out, endian: ior.endian }, report))
}

proof fn lemma_rewrite_all_stop(ps: Seq<RawProfileView>, map: MapView, start: ReportView, i: int)
    requires
        0 < i <= ps.len(),
        rewrite_all(ps.take(i), map, start) is Err,
    ensures
        rewrite_all(ps, map, start) == rewrite_all(ps.take(i), map, start),
    decreases ps.len() - i,
{
    if i < ps.len() {
        assert(ps.take(i + 1).drop_last() =~= ps.take(i));
        lemma_rewrite_all_stop(ps, map, start, i + 1);
    } else {
        assert(ps.take(i) =~= ps);
    }
}

/// [`rewrite`] on the stringified form: `IOR:...` in, `IOR:...` out, in the
/// byte order the reference came in. The read-time entry point: a client
/// repairing a reference it received and decided to trust.
pub fn rewrite_stringified(ior: &str, map: &EndpointMap) -> (r: Result<(String, RewriteReport), Error>)
    ensures
        match ior_hex_spec(bytes_of(trim_chars(ior@))) {
            Err(why) => r matches Err(Error::BadIor(w)) && w == why,
            Ok(b) => match open_encapsulation(b) {
                Err(e) => r matches Err(Error::Cdr(x)) && x == e,
                Ok(d) => match read_raw_ior(d) {
                    Err(e) => r matches Err(Error::Cdr(x)) && x == e,
                    Ok((raw, _)) => match rewrite_spec(raw, map@) {
                        Err(Error::Cdr(c)) => r matches Err(Error::Cdr(x)) && x == c,
                        Err(_) => false,
                        Ok((out, rep)) => {
                            let enc = raw_encoding(encapsulation_start(out.endian), out);
                            &&& enc.ok ==> (r matches Ok((s, report)) && report@ == rep && bytes_of(s@)
                                == ior_prefix() + hex_encode(enc.bytes))
                            &&& !enc.ok ==> (r matches Err(Error::Cdr(x)) && x == CdrError::TooLong)
                        },
                    },
                },
            },
        },
{
    let raw = RawIor::parse(ior)?;
    let (out, report) = rewrite(&raw, map)?;
    let text = out.to_stringified()?;
    Ok((text, report))
}


// ─────────────────────────────────────────────────────────────────────────────
// Laws
// ─────────────────────────────────────────────────────────────────────────────

/// The alternates of a component list that decode, in order, as a rewrite
/// reports them.
pub open spec fn alternates_listed(cs: Seq<ComponentView>) -> Seq<(Seq<char>, u16)>
    decreases cs.len(),
{
    if cs.len() == 0 {
        Seq::empty()
    } else {
        alternates_listed(cs.drop_last()) + if cs.last().tag == TAG_ALTERNATE_IIOP_ADDRESS
            && parse_alternate_wire(cs.last().data) is Ok {
            seq![
                (
                    lossy_text(parse_alternate_wire(cs.last().data)->Ok_0.0),
                    parse_alternate_wire(cs.last().data)->Ok_0.1,
                ),
            ]
        } else {
            Seq::empty()
        }
    }
}

/// Every endpoint of a reference's IIOP profiles, in order: each profile's
/// own address, then its alternates that decode.
pub open spec fn addresses_listed(ps: Seq<RawProfileView>) -> Seq<(Seq<char>, u16)>
    decreases ps.len(),
{
    if ps.len() == 0 {
        Seq::empty()
    } else if ps.last().tag == TAG_INTERNET_IOP && parse_profile_wire(ps.last().body) is Ok {
        let pw = parse_profile_wire(ps.last().body)->Ok_0;
        addresses_listed(ps.drop_last()) + seq![(lossy_text(pw.host), pw.port)] + alternates_listed(
            pw.components,
        )
    } else {
        addresses_listed(ps.drop_last())
    }
}

proof fn lemma_walk_unmoved(index: nat, start: Walk, cs: Seq<ComponentView>, map: MapView)
    requires
        map.rules.len() == 0,
        !map.drop_unmapped,
        !start.changed,
    ensures
        walk(index, start, cs, map) matches Ok(w) && !w.changed && w.report.changed
            == start.report.changed && w.report.dropped == start.report.dropped
            && w.report.iiop_profiles == start.report.iiop_profiles
            && w.report.foreign_profiles == start.report.foreign_profiles
            && w.report.unmapped == start.report.unmapped + alternates_listed(cs),
    decreases cs.len(),
{
    if cs.len() == 0 {
        assert(start.report.unmapped + alternates_listed(cs) =~= start.report.unmapped);
    } else {
        lemma_walk_unmoved(index, start, cs.drop_last(), map);
        let w = walk(index, start, cs.drop_last(), map)->Ok_0;
        let c = cs.last();
        if c.tag == TAG_ALTERNATE_IIOP_ADDRESS {
            if let Ok((hb, port)) = parse_alternate_wire(c.data) {
                assert(map_apply(map.rules, lossy_text(hb), port) is None);
                assert(start.report.unmapped + alternates_listed(cs) =~= (start.report.unmapped
                    + alternates_listed(cs.drop_last())).push((lossy_text(hb), port)));
            } else {
                assert(start.report.unmapped + alternates_listed(cs) =~= start.report.unmapped
                    + alternates_listed(cs.drop_last()));
            }
        } else {
            assert(start.report.unmapped + alternates_listed(cs) =~= start.report.unmapped
                + alternates_listed(cs.drop_last()));
        }
    }
}

proof fn lemma_profile_unmoved(index: nat, raw: RawProfileView, map: MapView, report: ReportView)
    requires
        map.rules.len() == 0,
        !map.drop_unmapped,
        parse_profile_wire(raw.body) is Ok,
    ensures
        rewrite_profile_spec(index, raw, map, report) matches Ok((p, rep)) && p == raw
            && rep.changed == report.changed && rep.dropped == report.dropped
            && rep.iiop_profiles == report.iiop_profiles
            && rep.foreign_profiles == report.foreign_profiles
            && rep.unmapped == report.unmapped + seq![
                (lossy_text(parse_profile_wire(raw.body)->Ok_0.host), parse_profile_wire(raw.body)->Ok_0.port),
            ] + alternates_listed(parse_profile_wire(raw.body)->Ok_0.components),
{
    reveal(rewrite_profile_spec);
    let pw = parse_profile_wire(raw.body)->Ok_0;
    assert(open_encapsulation(raw.body) is Ok);
    let r1 = with_unmapped(report, (lossy_text(pw.host), pw.port));
    lemma_walk_unmoved(index, Walk { out: Seq::empty(), report: r1, changed: false }, pw.components, map);
    assert(r1.unmapped =~= report.unmapped + seq![(lossy_text(pw.host), pw.port)]);
}

#[verifier::spinoff_prover]
#[verifier::rlimit(40)]
proof fn lemma_all_unmoved(ps: Seq<RawProfileView>, map: MapView, start: ReportView)
    requires
        map.rules.len() == 0,
        !map.drop_unmapped,
        dialing_profiles(ps) is Ok,
    ensures
        rewrite_all(ps, map, start) matches Ok((out, rep)) && out == ps && rep.changed
            == start.changed && rep.dropped == start.dropped && rep.unmapped == start.unmapped
            + addresses_listed(ps),
    decreases ps.len(),
{
    if ps.len() == 0 {
        assert(start.unmapped + addresses_listed(ps) =~= start.unmapped);
    } else {
        lemma_all_unmoved(ps.drop_last(), map, start);
        let (out, rep) = rewrite_all(ps.drop_last(), map, start)->Ok_0;
        if ps.last().tag == TAG_INTERNET_IOP {
            lemma_profile_unmoved(
                (ps.len() - 1) as nat,
                ps.last(),
                map,
                ReportView { iiop_profiles: rep.iiop_profiles + 1, ..rep },
            );
            let pw = parse_profile_wire(ps.last().body)->Ok_0;
            assert(start.unmapped + addresses_listed(ps) =~= start.unmapped + addresses_listed(
                ps.drop_last(),
            ) + seq![(lossy_text(pw.host), pw.port)] + alternates_listed(pw.components));
        }
        assert(ps.drop_last().push(ps.last()) =~= ps);
    }
}

/// A map with no rules, keeping unmapped alternates, rewrites nothing:
/// every profile comes back as the same octets, in the same order, and the
/// report names nothing moved or dropped and every address and decodable
/// alternate as unmapped — for every reference whose IIOP
/// profiles decode (one that does not is refused whatever the map).
pub proof fn law_empty_map_is_identity(ior: RawIorView, map: MapView)
    requires
        map.rules.len() == 0,
        !map.drop_unmapped,
        dialing_profiles(ior.profiles) is Ok,
    ensures
        rewrite_spec(ior, map) matches Ok((out, rep)) && out == ior && rep.changed.len() == 0
            && rep.dropped.len() == 0 && rep.unmapped == addresses_listed(ior.profiles),
{
    lemma_all_unmoved(ior.profiles, map, empty_report(ior.profiles.len()));
    assert(Seq::<(Seq<char>, u16)>::empty() + addresses_listed(ior.profiles) =~= addresses_listed(ior.profiles));
}

proof fn lemma_all_shape(ps: Seq<RawProfileView>, map: MapView, start: ReportView)
    requires
        rewrite_all(ps, map, start) is Ok,
    ensures
        rewrite_all(ps, map, start) matches Ok((out, _)) && out.len() == ps.len() && forall|i: int|
            0 <= i < ps.len() ==> (#[trigger] out[i]).tag == ps[i].tag && (ps[i].tag
                != TAG_INTERNET_IOP ==> out[i] == ps[i]),
    decreases ps.len(),
{
    reveal(rewrite_profile_spec);
    if ps.len() > 0 {
        lemma_all_shape(ps.drop_last(), map, start);
        let (out, rep) = rewrite_all(ps.drop_last(), map, start)->Ok_0;
        let full = rewrite_all(ps, map, start)->Ok_0.0;
        assert forall|i: int| 0 <= i < ps.len() implies (#[trigger] full[i]).tag == ps[i].tag && (
        ps[i].tag != TAG_INTERNET_IOP ==> full[i] == ps[i]) by {
            if i < ps.len() - 1 {
                assert(full[i] == out[i]);
                assert(ps[i] == ps.drop_last()[i]);
            }
        }
    }
}

/// A rewrite keeps the reference's type id and byte order, keeps every
/// profile in its place with its tag, and keeps every profile of a foreign
/// tag byte for byte.
pub proof fn law_rewrite_preserves_shape(ior: RawIorView, map: MapView)
    requires
        rewrite_spec(ior, map) is Ok,
    ensures
        rewrite_spec(ior, map) matches Ok((out, _)) && out.type_id == ior.type_id && out.endian
            == ior.endian && out.profiles.len() == ior.profiles.len() && forall|i: int|
            0 <= i < ior.profiles.len() ==> (#[trigger] out.profiles[i]).tag
                == ior.profiles[i].tag && (ior.profiles[i].tag != TAG_INTERNET_IOP
                ==> out.profiles[i] == ior.profiles[i]),
{
    lemma_all_shape(ior.profiles, map, empty_report(ior.profiles.len()));
}

/// `after` is `before` with only alternates no rule matches appended, and
/// only when the map drops those.
pub open spec fn drops_only_unmapped(before: Seq<(Seq<char>, u16)>, after: Seq<(Seq<char>, u16)>, map: MapView) -> bool {
    &&& before.len() <= after.len()
    &&& after.subrange(0, before.len() as int) == before
    &&& forall|i: int|
        before.len() <= i < after.len() ==> map.drop_unmapped && map_apply(
            map.rules,
            (#[trigger] after[i]).0,
            after[i].1,
        ) is None
}

proof fn lemma_drops_trans(a: Seq<(Seq<char>, u16)>, b: Seq<(Seq<char>, u16)>, c: Seq<(Seq<char>, u16)>, map: MapView)
    requires
        drops_only_unmapped(a, b, map),
        drops_only_unmapped(b, c, map),
    ensures
        drops_only_unmapped(a, c, map),
{
    assert(c.subrange(0, a.len() as int) =~= b.subrange(0, a.len() as int)) by {
        assert forall|i: int| 0 <= i < a.len() implies c.subrange(0, a.len() as int)[i] == b.subrange(
            0,
            a.len() as int,
        )[i] by {
            assert(c[i] == c.subrange(0, b.len() as int)[i]);
        }
    }
    assert forall|i: int| a.len() <= i < c.len() implies map.drop_unmapped && map_apply(
        map.rules,
        (#[trigger] c[i]).0,
        c[i].1,
    ) is None by {
        if i < b.len() {
            assert(c[i] == c.subrange(0, b.len() as int)[i]);
        }
    }
}

proof fn lemma_drops_refl(a: Seq<(Seq<char>, u16)>, map: MapView)
    ensures
        drops_only_unmapped(a, a, map),
{
    assert(a.subrange(0, a.len() as int) =~= a);
}

proof fn lemma_walk_drops(index: nat, start: Walk, cs: Seq<ComponentView>, map: MapView)
    requires
        walk(index, start, cs, map) is Ok,
    ensures
        drops_only_unmapped(start.report.dropped, walk(index, start, cs, map)->Ok_0.report.dropped, map),
    decreases cs.len(),
{
    if cs.len() == 0 {
        lemma_drops_refl(start.report.dropped, map);
    } else {
        lemma_walk_drops(index, start, cs.drop_last(), map);
        let w = walk(index, start, cs.drop_last(), map)->Ok_0;
        let w2 = walk(index, start, cs, map)->Ok_0;
        if w2.report.dropped == w.report.dropped {
            lemma_drops_refl(w.report.dropped, map);
        } else {
            assert(w2.report.dropped.subrange(0, w.report.dropped.len() as int) =~= w.report.dropped);
        }
        lemma_drops_trans(start.report.dropped, w.report.dropped, w2.report.dropped, map);
    }
}

proof fn lemma_profile_drops(index: nat, raw: RawProfileView, map: MapView, report: ReportView)
    requires
        rewrite_profile_spec(index, raw, map, report) is Ok,
    ensures
        drops_only_unmapped(report.dropped, rewrite_profile_spec(index, raw, map, report)->Ok_0.1.dropped, map),
{
    reveal(rewrite_profile_spec);
    let pw = parse_profile_wire(raw.body)->Ok_0;
    let host = lossy_text(pw.host);
    let port = pw.port;
    let (r1, _nh, _np, moved) = match map_apply(map.rules, host, port) {
        Some((h, p)) => if h != host || p != port {
            (
                with_change(
                    report,
                    ChangeView { profile: index, site: Where::ProfileAddress, from: (host, port), to: (h, p) },
                ),
                h,
                p,
                true,
            )
        } else {
            (report, host, port, false)
        },
        None => (with_unmapped(report, (host, port)), host, port, false),
    };
    lemma_walk_drops(index, Walk { out: Seq::empty(), report: r1, changed: moved }, pw.components, map);
}

proof fn lemma_all_drops(ps: Seq<RawProfileView>, map: MapView, start: ReportView)
    requires
        rewrite_all(ps, map, start) is Ok,
    ensures
        drops_only_unmapped(start.dropped, rewrite_all(ps, map, start)->Ok_0.1.dropped, map),
    decreases ps.len(),
{
    if ps.len() == 0 {
        lemma_drops_refl(start.dropped, map);
    } else {
        lemma_all_drops(ps.drop_last(), map, start);
        let (out, rep) = rewrite_all(ps.drop_last(), map, start)->Ok_0;
        let p = ps.last();
        if p.tag != TAG_INTERNET_IOP {
            lemma_drops_refl(rep.dropped, map);
        } else {
            lemma_profile_drops(
                (ps.len() - 1) as nat,
                p,
                map,
                ReportView { iiop_profiles: rep.iiop_profiles + 1, ..rep },
            );
        }
        lemma_drops_trans(start.dropped, rep.dropped, rewrite_all(ps, map, start)->Ok_0.1.dropped, map);
    }
}

/// Dropping unmapped alternates never drops a profile: a rewrite keeps every
/// profile, even one whose own address no rule matches (it is reported
/// unmapped instead). What it drops are alternates no rule matches, and only
/// under a map that asks for it; a map that keeps them drops nothing.
pub proof fn law_only_unmapped_alternates_are_dropped(ior: RawIorView, map: MapView)
    requires
        rewrite_spec(ior, map) is Ok,
    ensures
        rewrite_spec(ior, map) matches Ok((out, rep)) && {
            &&& out.profiles.len() == ior.profiles.len()
            &&& forall|i: int|
                0 <= i < rep.dropped.len() ==> map_apply(map.rules, (#[trigger] rep.dropped[i]).0, rep.dropped[i].1)
                    is None
            &&& !map.drop_unmapped ==> rep.dropped.len() == 0
        },
{
    law_rewrite_preserves_shape(ior, map);
    lemma_all_drops(ior.profiles, map, empty_report(ior.profiles.len()));
    let rep = rewrite_all(ior.profiles, map, empty_report(ior.profiles.len()))->Ok_0.1;
    assert(rewrite_spec(ior, map)->Ok_0.1 == rep);
    assert(empty_report(ior.profiles.len()).dropped.len() == 0);
    assert forall|i: int| 0 <= i < rep.dropped.len() implies map_apply(
        map.rules,
        (#[trigger] rep.dropped[i]).0,
        rep.dropped[i].1,
    ) is None && map.drop_unmapped by {
        assert(0 <= i < rep.dropped.len());
    }
    if rep.dropped.len() > 0 {
        assert(map_apply(map.rules, rep.dropped[0].0, rep.dropped[0].1) is None);
    }
}

proof fn lemma_raw_profiles_extend(e: EncoderView, ps: Seq<RawProfileView>)
    ensures
        crate::cdr::extends(e, put_raw_profiles(e, ps)),
        put_raw_profiles(e, ps).ok ==> put_raw_profiles(e, ps).bytes.len() >= e.bytes.len() + 8 * ps.len(),
    decreases ps.len(),
{
    if ps.len() == 0 {
        crate::cdr::lemma_extends_refl(e);
    } else {
        let m = put_raw_profiles(e, ps.drop_last());
        let t = m.put_u32(ps.last().tag);
        let f = put_raw_profiles(e, ps);
        lemma_raw_profiles_extend(e, ps.drop_last());
        crate::cdr::lemma_u32_extends(m, ps.last().tag);
        crate::cdr::lemma_octets_extend(t, ps.last().body);
        crate::cdr::lemma_extends_trans(m, t, f);
        crate::cdr::lemma_extends_trans(e, m, f);
    }
}

proof fn lemma_raw_profiles_read_back(e: EncoderView, ps: Seq<RawProfileView>, d: DecoderView)
    requires
        crate::cdr::holds(put_raw_profiles(e, ps), d),
        d.pos == e.bytes.len(),
    ensures
        read_raw_profiles(d, ps.len()) == Ok::<(Seq<RawProfileView>, DecoderView), CdrError>(
            (ps, d.at(put_raw_profiles(e, ps).bytes.len() as int)),
        ),
    decreases ps.len(),
{
    if ps.len() == 0 {
        assert(d.at(e.bytes.len() as int) =~= d);
        assert(ps =~= Seq::<RawProfileView>::empty());
    } else {
        let dl = ps.drop_last();
        let last = ps.last();
        let m = put_raw_profiles(e, dl);
        let t = m.put_u32(last.tag);
        let f = put_raw_profiles(e, ps);
        lemma_raw_profiles_extend(e, dl);
        crate::cdr::lemma_u32_extends(m, last.tag);
        crate::cdr::lemma_octets_extend(t, last.body);
        crate::cdr::lemma_extends_trans(m, t, f);
        crate::cdr::lemma_reads_back_at(e, m, f, d);
        lemma_raw_profiles_read_back(e, dl, d);
        crate::cdr::lemma_read_u32_at(m, last.tag, f, d);
        crate::cdr::lemma_extends_refl(f);
        crate::cdr::lemma_read_octets_at(t, last.body, f, d);
        assert(dl.push(last) =~= ps);
    }
}

/// A raw reference marshalled inline reads back as itself.
#[verifier::spinoff_prover]
proof fn lemma_raw_read_back(e: EncoderView, r: RawIorView, d: DecoderView)
    requires
        crate::cdr::holds(raw_encoding(e, r), d),
        d.pos == e.bytes.len(),
        r.profiles.len() <= u32::MAX,
    ensures
        read_raw_body(d) matches Ok(((t, ps), _)) && t == r.type_id && ps == r.profiles,
{
    let f = raw_encoding(e, r);
    let n = r.profiles.len() as u32;
    let a = e.put_str(r.type_id);
    let c = a.put_u32(n);
    assert(f == put_raw_profiles(c, r.profiles));
    lemma_raw_profiles_extend(c, r.profiles);
    crate::cdr::lemma_read_u32_at(a, n, f, d);
    crate::cdr::lemma_read_str_at(e, r.type_id, f, d);
    assert(d.at(e.bytes.len() as int) =~= d);
    let d2 = d.at(c.bytes.len() as int);
    assert(d2.count_fits(n as int, 8));
    assert(crate::cdr::holds(f, d2));
    lemma_raw_profiles_read_back(c, r.profiles, d2);
    assert(n as nat == r.profiles.len());
    vstd::utf8::encode_utf8_valid_utf8(r.type_id);
    vstd::utf8::encode_utf8_decode_utf8(r.type_id);
}

/// An empty map keeps a stringified reference as it is: the string read,
/// rewritten under a map with no rules that keeps unmapped alternates, and
/// stringified again in its own byte order is the string it was, with
/// nothing reported moved or dropped — for every reference this library
/// stringifies whose IIOP profiles decode.
pub proof fn law_empty_map_keeps_the_string(raw: RawIorView, s: Seq<char>, map: MapView)
    requires
        raw_encoding(encapsulation_start(raw.endian), raw).ok,
        raw.profiles.len() <= u32::MAX,
        bytes_of(s) == ior_prefix() + hex_encode(raw_encoding(encapsulation_start(raw.endian), raw).bytes),
        map.rules.len() == 0,
        !map.drop_unmapped,
        dialing_profiles(raw.profiles) is Ok,
    ensures
        ({
            let b = raw_encoding(encapsulation_start(raw.endian), raw).bytes;
            &&& ior_hex_spec(bytes_of(trim_chars(s))) == Ok::<Seq<u8>, BadIorReason>(b)
            &&& open_encapsulation(b) matches Ok(d) && read_raw_ior(d) matches Ok((r2, _)) && r2 == raw
            &&& rewrite_spec(raw, map) matches Ok((out, rep)) && out == raw && rep.changed.len() == 0
                && rep.dropped.len() == 0 && rep.unmapped == addresses_listed(raw.profiles)
            &&& forall|s2: Seq<char>| bytes_of(s2) == ior_prefix() + hex_encode(b) ==> s2 == s
        }),
{
    let e0 = encapsulation_start(raw.endian);
    let f = raw_encoding(e0, raw);
    let b = f.bytes;
    let a = e0.put_str(raw.type_id);
    crate::cdr::lemma_str_extends(e0, raw.type_id);
    lemma_raw_profiles_extend(a.put_u32(raw.profiles.len() as u32), raw.profiles);
    crate::cdr::lemma_u32_extends(a, raw.profiles.len() as u32);
    crate::cdr::lemma_extends_trans(a, a.put_u32(raw.profiles.len() as u32), f);
    crate::cdr::lemma_extends_trans(e0, a, f);
    assert(b.len() >= 1);
    assert(b[0] == b.subrange(0, 1)[0]);
    crate::ior::lemma_ior_text_chars(b, s);
    crate::ior::lemma_ior_hex_bytes(b);
    let d0 = DecoderView { bytes: b, pos: 1, endian: raw.endian };
    assert(open_encapsulation(b) == Ok::<DecoderView, CdrError>(d0));
    assert(crate::cdr::holds(f, d0)) by {
        assert(b.subrange(0, b.len() as int) =~= b);
    }
    lemma_raw_read_back(e0, raw, d0);
    law_empty_map_is_identity(raw, map);
    assert forall|s2: Seq<char>| bytes_of(s2) == ior_prefix() + hex_encode(b) implies s2 == s by {
        vstd::utf8::encode_utf8_decode_utf8(s2);
        vstd::utf8::encode_utf8_decode_utf8(s);
    }
}

/// Two texts that are the same up to ASCII case: the same length, and at
/// each place the same character, or an ASCII letter and its other case.
pub open spec fn same_up_to_ascii_case(a: Seq<char>, b: Seq<char>) -> bool {
    a.len() == b.len() && forall|i: int|
        0 <= i < a.len() ==> {
            let x = #[trigger] a[i] as u32;
            let y = b[i] as u32;
            x == y || (65 <= x <= 90 && y == x + 32) || (65 <= y <= 90 && x == y + 32)
        }
}

/// A rule names a host the way DNS names compare: a host that is the rule's
/// from-host up to ASCII case is matched (on the rule's port, or any port
/// when it names none) and published at the rule's target, keeping the port
/// when the rule gives none — unless both are address literals, which match
/// when they denote the same address, whatever their spelling. A host that
/// differs otherwise is not matched by a rule naming a host.
pub proof fn law_hosts_match_ignoring_ascii_case(r: RuleView, host: Seq<char>, port: u16)
    ensures
        (r.from_port is None || r.from_port == Some(port)) && (ip_literal(r.from_host) is None
            || ip_literal(host) is None) && same_up_to_ascii_case(r.from_host, host) ==> rule_apply(
            r,
            host,
            port,
        ) == Some(
            (
                r.to_host,
                match r.to_port {
                    Some(p) => p,
                    None => port,
                },
            ),
        ),
        (r.from_port is None || r.from_port == Some(port)) && ip_literal(r.from_host) is Some
            && ip_literal(r.from_host) == ip_literal(host) ==> rule_apply(r, host, port) is Some,
        r.from_port matches Some(p) && p != port ==> rule_apply(r, host, port) is None,
        r.from_host != star() && !same_up_to_ascii_case(r.from_host, host) && (ip_literal(
            r.from_host,
        ) is None || ip_literal(host) is None) ==> rule_apply(r, host, port) is None,
{
    if same_up_to_ascii_case(r.from_host, host) {
        assert forall|i: int| 0 <= i < r.from_host.len() implies crate::chars::fold_case(#[trigger] r.from_host[i])
            == crate::chars::fold_case(host[i]) by {
            let x = r.from_host[i] as u32;
            let y = host[i] as u32;
            assert(x == y || (65 <= x <= 90 && y == x + 32) || (65 <= y <= 90 && x == y + 32));
        }
        assert(eq_ci(r.from_host, host));
    }
    if eq_ci(r.from_host, host) {
        assert forall|i: int| 0 <= i < r.from_host.len() implies {
            let x = #[trigger] r.from_host[i] as u32;
            let y = host[i] as u32;
            x == y || (65 <= x <= 90 && y == x + 32) || (65 <= y <= 90 && x == y + 32)
        } by {
            assert(crate::chars::fold_case(r.from_host[i]) == crate::chars::fold_case(host[i]));
        }
        assert(same_up_to_ascii_case(r.from_host, host));
    }
}

} // verus!
