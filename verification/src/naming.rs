//! Object-reference acquisition by name: `corbaloc:` and `corbaname:` URLs
//! (§7.6.10), the stringified CosNaming name grammar, and the wire shape of
//! a CosNaming `Name`.
//!
//! `corbaloc::host/Key` — an empty protocol token and no port — is legal and
//! common, and §7.6.10.3 then fills in **IIOP 1.0** and **port 2809**.
//!
//! Everything here is defined over the characters of the text; the object
//! key alone is octets, because it is opaque server state.

use vstd::prelude::*;
use vstd::utf8::*;

use crate::cdr::{CdrError, Decoder, DecoderView, Encoder, EncoderView};
use crate::chars::{
    ascii_chars, chars_of, dec_value, eq_ci, find, find_char, first_at, fold_case,
    lemma_first_at, parse_uint, parse_uint_chars, string_of, strip_ci, strip_prefix_ci, utf8_of,
};
use crate::giop::{BadIorReason, Error, Version};
use crate::ior::{IiopProfile, Ior, IorView, ProfileView};
use crate::text::{hex_digit, hex_value, string_from_utf8, trim, trim_chars};

verus! {

broadcast use {encode_utf8_valid_utf8, encode_utf8_decode_utf8};

/// Port assumed when a `corbaloc:` address omits one (§7.6.10.3).
pub const DEFAULT_CORBALOC_PORT: u16 = 2809;

/// Repository id of the naming context interface.
pub const NAMING_CONTEXT_EXT_ID: &'static str = "IDL:omg.org/CosNaming/NamingContextExt:1.0";

/// One element of a CosNaming path.
#[derive(Debug, Clone, PartialEq, Eq, Default)]
pub struct NameComponent {
    /// The identifier part.
    pub id: String,
    /// The kind part, frequently empty.
    pub kind: String,
}

/// A name component as text.
pub struct NameView {
    pub id: Seq<char>,
    pub kind: Seq<char>,
}

impl View for NameComponent {
    type V = NameView;

    open spec fn view(&self) -> NameView {
        NameView { id: self.id@, kind: self.kind@ }
    }
}

/// A path as text.
pub open spec fn names_view(v: Seq<NameComponent>) -> Seq<NameView> {
    v.map_values(|c: NameComponent| c@)
}

impl NameComponent {
    /// A component with an empty kind.
    pub fn new(id: &str) -> (r: NameComponent)
        ensures
            r@.id == id@,
            r@.kind.len() == 0,
    {
        NameComponent { id: id.to_owned(), kind: String::new() }
    }

    /// A copy with the same text.
    pub fn duplicate(&self) -> (r: NameComponent)
        ensures
            r@ == self@,
    {
        NameComponent { id: self.id.clone(), kind: self.kind.clone() }
    }
}

/// One endpoint from an address list.
#[derive(Debug, Clone, PartialEq, Eq)]
pub struct IiopAddress {
    /// GIOP version the peer claims to speak. Defaults to 1.0 (§7.6.10.3).
    pub version: Version,
    /// Host, as written.
    pub host: String,
    /// Port, defaulting to 2809.
    pub port: u16,
}

/// An endpoint as values.
pub struct AddressView {
    pub version: Version,
    pub host: Seq<char>,
    pub port: u16,
}

impl View for IiopAddress {
    type V = AddressView;

    open spec fn view(&self) -> AddressView {
        AddressView { version: self.version, host: self.host@, port: self.port }
    }
}

/// An address list as values.
pub open spec fn addresses_view(v: Seq<IiopAddress>) -> Seq<AddressView> {
    v.map_values(|a: IiopAddress| a@)
}

/// A parsed `corbaloc:` or `corbaname:` URL.
#[derive(Debug, Clone, PartialEq)]
pub enum ObjectUrl {
    /// Direct addressing: one or more endpoints plus an object key.
    Corbaloc {
        /// Endpoints to try, in order.
        addresses: Vec<IiopAddress>,
        /// Object key, already unescaped.
        object_key: Vec<u8>,
    },
    /// `corbaloc:rir:/Name` — resolve through initial references locally.
    InitialReference(String),
    /// `corbaname:` — a naming service address plus a path to resolve in it.
    Corbaname {
        /// Where the naming service lives.
        addresses: Vec<IiopAddress>,
        /// Object key of the naming context, usually `NameService`.
        object_key: Vec<u8>,
        /// The path to resolve inside it.
        name: Vec<NameComponent>,
    },
}

/// A URL as values.
pub enum UrlView {
    Corbaloc { addresses: Seq<AddressView>, object_key: Seq<u8> },
    InitialReference(Seq<char>),
    Corbaname { addresses: Seq<AddressView>, object_key: Seq<u8>, name: Seq<NameView> },
}

impl View for ObjectUrl {
    type V = UrlView;

    open spec fn view(&self) -> UrlView {
        match self {
            ObjectUrl::Corbaloc { addresses, object_key } => UrlView::Corbaloc {
                addresses: addresses_view(addresses@),
                object_key: object_key@,
            },
            ObjectUrl::InitialReference(s) => UrlView::InitialReference(s@),
            ObjectUrl::Corbaname { addresses, object_key, name } => UrlView::Corbaname {
                addresses: addresses_view(addresses@),
                object_key: object_key@,
                name: names_view(name@),
            },
        }
    }
}

/// Why a URL could not be parsed.
///
/// The variants mirror the `BAD_PARAM` minor codes §7.6.10.3 assigns, so a
/// diagnostic can name the same failure the specification does.
#[derive(Debug, Clone, PartialEq, Eq)]
pub enum UrlError {
    /// Not a scheme this parser handles. `BAD_PARAM` minor 7.
    BadSchemeName(String),
    /// The address portion is malformed. `BAD_PARAM` minor 8.
    BadAddress(String),
    /// The whole URL is malformed. `BAD_PARAM` minor 9.
    BadSchemeSpecificPart(String),
    /// Some other structural problem. `BAD_PARAM` minor 10.
    Other(String),
}

/// Which of the four failures a [`UrlError`] is.
#[derive(Debug, Clone, Copy, PartialEq, Eq, Structural)]
pub enum UrlErrorKind {
    BadSchemeName,
    BadAddress,
    BadSchemeSpecificPart,
    Other,
}

impl UrlError {
    /// The failure, without its text.
    pub open spec fn kind(&self) -> UrlErrorKind {
        match self {
            UrlError::BadSchemeName(_) => UrlErrorKind::BadSchemeName,
            UrlError::BadAddress(_) => UrlErrorKind::BadAddress,
            UrlError::BadSchemeSpecificPart(_) => UrlErrorKind::BadSchemeSpecificPart,
            UrlError::Other(_) => UrlErrorKind::Other,
        }
    }

    /// The text a failure carries.
    pub open spec fn what(&self) -> Seq<char> {
        match self {
            UrlError::BadSchemeName(s) => s@,
            UrlError::BadAddress(s) => s@,
            UrlError::BadSchemeSpecificPart(s) => s@,
            UrlError::Other(s) => s@,
        }
    }

    /// The `BAD_PARAM` minor code §7.6.10.3 assigns to the failure.
    pub open spec fn minor_code(&self) -> u8 {
        match self {
            UrlError::BadSchemeName(_) => 7,
            UrlError::BadAddress(_) => 8,
            UrlError::BadSchemeSpecificPart(_) => 9,
            UrlError::Other(_) => 10,
        }
    }
}

/// Whether a result is a failure of the given kind.
pub open spec fn fails_with<T>(r: Result<T, UrlError>, k: UrlErrorKind) -> bool {
    r matches Err(e) && e.kind() == k
}

// ─────────────────────────────────────────────────────────────────────────────
// The grammar, as definitions over characters
// ─────────────────────────────────────────────────────────────────────────────

pub open spec fn corbaloc_scheme() -> Seq<char> {
    seq!['c', 'o', 'r', 'b', 'a', 'l', 'o', 'c', ':']
}

pub open spec fn corbaname_scheme() -> Seq<char> {
    seq!['c', 'o', 'r', 'b', 'a', 'n', 'a', 'm', 'e', ':']
}

pub open spec fn rir_token() -> Seq<char> {
    seq!['r', 'i', 'r', ':']
}

pub open spec fn iiop_token() -> Seq<char> {
    seq!['i', 'i', 'o', 'p', ':']
}

pub open spec fn name_service() -> Seq<char> {
    seq!['N', 'a', 'm', 'e', 'S', 'e', 'r', 'v', 'i', 'c', 'e']
}

/// Where the key begins: the first `/` outside an IPv6 literal's brackets,
/// or the length when there is none.
pub open spec fn key_slash(s: Seq<char>, i: int, in_brackets: bool) -> int
    decreases s.len() - i,
{
    if i >= s.len() {
        s.len() as int
    } else if s[i] == '[' {
        key_slash(s, i + 1, true)
    } else if s[i] == ']' {
        key_slash(s, i + 1, false)
    } else if s[i] == '/' && !in_brackets {
        i
    } else {
        key_slash(s, i + 1, in_brackets)
    }
}

/// The address list and the key of `s`.
pub open spec fn split_key(s: Seq<char>) -> (Seq<char>, Seq<char>) {
    let k = key_slash(s, 0, false);
    if k < s.len() {
        (s.take(k), s.skip(k + 1))
    } else {
        (s, Seq::empty())
    }
}

/// What follows a version's `.`, or `None` without one.
pub open spec fn version_spec(v: Seq<char>) -> Option<Version> {
    let dot = find(v, '.');
    if dot >= v.len() {
        None
    } else {
        match (parse_uint(v.take(dot), 255), parse_uint(v.skip(dot + 1), 255)) {
            (Some(major), Some(minor)) => Some(Version { major: major as u8, minor: minor as u8 }),
            _ => None,
        }
    }
}

/// The host and the port text of an address after its version.
pub open spec fn host_port(r: Seq<char>) -> Option<(Seq<char>, Seq<char>)> {
    if r.len() > 0 && r[0] == '[' {
        let r6 = r.drop_first();
        let close = find(r6, ']');
        if close >= r6.len() {
            None
        } else {
            let tail = r6.skip(close + 1);
            Some(
                (
                    r6.take(close),
                    if tail.len() > 0 && tail[0] == ':' {
                        tail.drop_first()
                    } else {
                        Seq::empty()
                    },
                ),
            )
        }
    } else {
        let colon = find(r, ':');
        if colon < r.len() {
            Some((r.take(colon), r.skip(colon + 1)))
        } else {
            Some((r, Seq::empty()))
        }
    }
}

/// One address of a list: a protocol token (`iiop:` or the bare `:`), an
/// optional `major.minor@`, a host (bracketed when IPv6) and an optional
/// `:port`. Every failure is `BadAddress`.
pub open spec fn address_spec(s: Seq<char>) -> Option<AddressView> {
    let rest = match strip_ci(s, iiop_token()) {
        Some(r) => Some(r),
        None => if s.len() > 0 && s[0] == ':' {
            Some(s.drop_first())
        } else {
            None
        },
    };
    match rest {
        None => None,
        Some(rest) => {
            let at = find(rest, '@');
            let vr = if at < rest.len() {
                match version_spec(rest.take(at)) {
                    Some(v) => Some((v, rest.skip(at + 1))),
                    None => None,
                }
            } else {
                Some((Version { major: 1, minor: 0 }, rest))
            };
            match vr {
                None => None,
                Some((version, r)) => match host_port(r) {
                    None => None,
                    Some((host, port)) => if host.len() == 0 {
                        None
                    } else if port.len() == 0 {
                        Some(AddressView { version, host, port: DEFAULT_CORBALOC_PORT })
                    } else {
                        match parse_uint(port, 65535) {
                            Some(p) => Some(AddressView { version, host, port: p as u16 }),
                            None => None,
                        }
                    },
                },
            }
        },
    }
}

/// A comma-separated list of addresses, stopping at the first bad one.
pub open spec fn address_list(s: Seq<char>) -> Option<Seq<AddressView>>
    decreases s.len(),
{
    let k = find(s, ',');
    match address_spec(s.take(k)) {
        None => None,
        Some(a) => if k >= s.len() || k < 0 {
            Some(seq![a])
        } else {
            match address_list(s.skip(k + 1)) {
                None => None,
                Some(rest) => Some(seq![a] + rest),
            }
        },
    }
}

/// The address list of a URL, which may not be empty.
pub open spec fn addresses_spec(s: Seq<char>) -> Option<Seq<AddressView>> {
    if s.len() == 0 {
        None
    } else {
        address_list(s)
    }
}

/// The value two octets after a `%` denote: exactly two hex digits
/// (RFC 2396 §2.4.1); anything else, a sign included, is malformed.
pub open spec fn hex_pair(a: u8, b: u8) -> Option<u8> {
    match (hex_value(a), hex_value(b)) {
        (Some(x), Some(y)) => Some((x * 16 + y) as u8),
        _ => None,
    }
}

/// RFC 2396 `%XX` decoding; `None` for a truncated or malformed escape.
pub open spec fn unescape_spec(b: Seq<u8>) -> Option<Seq<u8>>
    decreases b.len(),
{
    if b.len() == 0 {
        Some(Seq::empty())
    } else if b[0] == 37 {
        if b.len() <= 2 {
            None
        } else {
            match hex_pair(b[1], b[2]) {
                None => None,
                Some(v) => match unescape_spec(b.skip(3)) {
                    None => None,
                    Some(r) => Some(seq![v] + r),
                },
            }
        }
    } else {
        match unescape_spec(b.drop_first()) {
            None => None,
            Some(r) => Some(seq![b[0]] + r),
        }
    }
}

/// The text an escaped stringified name denotes: `%XX` decoded, then read
/// as UTF-8.
pub open spec fn unescape_name_spec(s: Seq<char>) -> Option<Seq<char>> {
    match unescape_spec(encode_utf8(s)) {
        None => None,
        Some(b) => if valid_utf8(b) {
            Some(decode_utf8(b))
        } else {
            None
        },
    }
}

/// The state of a left-to-right read of a stringified name.
pub struct NameScan {
    pub done: Seq<NameView>,
    pub id: Seq<char>,
    pub kind: Seq<char>,
    pub in_kind: bool,
    pub escaped: bool,
}

pub open spec fn scan_start() -> NameScan {
    NameScan {
        done: Seq::empty(),
        id: Seq::empty(),
        kind: Seq::empty(),
        in_kind: false,
        escaped: false,
    }
}

/// Appends `c` to whichever part is being read.
pub open spec fn scan_push(st: NameScan, c: char) -> NameScan {
    if st.in_kind {
        NameScan { done: st.done, id: st.id, kind: st.kind.push(c), in_kind: true, escaped: false }
    } else {
        NameScan { done: st.done, id: st.id.push(c), kind: st.kind, in_kind: false, escaped: false }
    }
}

/// One character of the name grammar: `\` escapes the next character, the
/// first unescaped `.` of a component starts its kind, `/` ends it.
pub open spec fn scan_step(st: NameScan, c: char) -> NameScan {
    if st.escaped {
        scan_push(st, c)
    } else if c == '\\' {
        NameScan { done: st.done, id: st.id, kind: st.kind, in_kind: st.in_kind, escaped: true }
    } else if c == '.' && !st.in_kind {
        NameScan { done: st.done, id: st.id, kind: st.kind, in_kind: true, escaped: false }
    } else if c == '/' {
        NameScan {
            done: st.done.push(NameView { id: st.id, kind: st.kind }),
            id: Seq::empty(),
            kind: Seq::empty(),
            in_kind: false,
            escaped: false,
        }
    } else {
        scan_push(st, c)
    }
}

/// The state after reading `s` from `st`.
pub open spec fn scan_from(st: NameScan, s: Seq<char>) -> NameScan
    decreases s.len(),
{
    if s.len() == 0 {
        st
    } else {
        scan_step(scan_from(st, s.drop_last()), s.last())
    }
}

/// A stringified name (`id.kind/id.kind/...`) as its components; `None`
/// when it ends in an unfinished `\` escape. The empty text is the empty
/// name.
pub open spec fn name_spec(s: Seq<char>) -> Option<Seq<NameView>> {
    if s.len() == 0 {
        Some(Seq::empty())
    } else {
        let st = scan_from(scan_start(), s);
        if st.escaped {
            None
        } else {
            Some(st.done.push(NameView { id: st.id, kind: st.kind }))
        }
    }
}

/// The whole URL grammar, after surrounding whitespace is trimmed.
pub open spec fn url_body_spec(s: Seq<char>) -> Result<UrlView, UrlErrorKind> {
    match strip_ci(s, corbaloc_scheme()) {
        Some(rest) => match strip_ci(rest, rir_token()) {
            Some(name) => {
                let key = if name.len() > 0 && name[0] == '/' {
                    name.drop_first()
                } else {
                    name
                };
                Ok(
                    UrlView::InitialReference(
                        if key.len() == 0 {
                            name_service()
                        } else {
                            key
                        },
                    ),
                )
            },
            None => {
                let (addr, key) = split_key(rest);
                match addresses_spec(addr) {
                    None => Err(UrlErrorKind::BadAddress),
                    Some(addresses) => match unescape_spec(encode_utf8(key)) {
                        None => Err(UrlErrorKind::BadSchemeSpecificPart),
                        Some(object_key) => Ok(UrlView::Corbaloc { addresses, object_key }),
                    },
                }
            },
        },
        None => match strip_ci(s, corbaname_scheme()) {
            None => Err(UrlErrorKind::BadSchemeName),
            Some(rest) => {
                let h = find(rest, '#');
                let loc = rest.take(h);
                let name_part = if h < rest.len() {
                    rest.skip(h + 1)
                } else {
                    Seq::empty()
                };
                let (addr, key_part) = split_key(loc);
                match addresses_spec(addr) {
                    None => Err(UrlErrorKind::BadAddress),
                    Some(addresses) => {
                        let key = if key_part.len() == 0 {
                            Some(encode_utf8(name_service()))
                        } else {
                            unescape_spec(encode_utf8(key_part))
                        };
                        match key {
                            None => Err(UrlErrorKind::BadSchemeSpecificPart),
                            Some(object_key) => match unescape_name_spec(name_part) {
                                None => Err(UrlErrorKind::BadSchemeSpecificPart),
                                Some(text) => match name_spec(text) {
                                    None => Err(UrlErrorKind::BadSchemeSpecificPart),
                                    Some(name) => Ok(
                                        UrlView::Corbaname { addresses, object_key, name },
                                    ),
                                },
                            },
                        }
                    },
                }
            },
        },
    }
}

/// What [`ObjectUrl::parse`] makes of `url`.
pub open spec fn url_spec(url: Seq<char>) -> Result<UrlView, UrlErrorKind> {
    url_body_spec(trim_chars(url))
}


// ─────────────────────────────────────────────────────────────────────────────
// Parsing
// ─────────────────────────────────────────────────────────────────────────────

fn corbaloc_chars() -> (r: Vec<char>)
    ensures
        r@ == corbaloc_scheme(),
{
    let r = vec!['c', 'o', 'r', 'b', 'a', 'l', 'o', 'c', ':'];
    assert(r@ =~= corbaloc_scheme());
    r
}

fn corbaname_chars() -> (r: Vec<char>)
    ensures
        r@ == corbaname_scheme(),
{
    let r = vec!['c', 'o', 'r', 'b', 'a', 'n', 'a', 'm', 'e', ':'];
    assert(r@ =~= corbaname_scheme());
    r
}

fn rir_chars() -> (r: Vec<char>)
    ensures
        r@ == rir_token(),
{
    let r = vec!['r', 'i', 'r', ':'];
    assert(r@ =~= rir_token());
    r
}

fn iiop_chars() -> (r: Vec<char>)
    ensures
        r@ == iiop_token(),
{
    let r = vec!['i', 'i', 'o', 'p', ':'];
    assert(r@ =~= iiop_token());
    r
}

fn name_service_chars() -> (r: Vec<char>)
    ensures
        r@ == name_service(),
{
    let r = vec!['N', 'a', 'm', 'e', 'S', 'e', 'r', 'v', 'i', 'c', 'e'];
    assert(r@ =~= name_service());
    r
}

fn bad_address(what: &str) -> (r: UrlError)
    ensures
        r.kind() == UrlErrorKind::BadAddress,
        r.what() == what@,
{
    UrlError::BadAddress(what.to_owned())
}

fn bad_part(what: &str) -> (r: UrlError)
    ensures
        r.kind() == UrlErrorKind::BadSchemeSpecificPart,
        r.what() == what@,
{
    UrlError::BadSchemeSpecificPart(what.to_owned())
}

/// `key_slash` from the start, outside brackets.
fn find_key_slash(s: &[char]) -> (r: usize)
    ensures
        r == key_slash(s@, 0, false),
        r <= s@.len(),
{
    let mut in_brackets = false;
    let mut i: usize = 0;
    while i < s.len()
        invariant
            i <= s@.len(),
            key_slash(s@, 0, false) == key_slash(s@, i as int, in_brackets),
        decreases s.len() - i,
    {
        let c = s[i];
        if c == '[' {
            in_brackets = true;
        } else if c == ']' {
            in_brackets = false;
        } else if c == '/' && !in_brackets {
            return i;
        }
        i = i + 1;
    }
    i
}

/// The address list and the key, split on the first `/` outside brackets.
fn split_key_exec(s: &[char]) -> (r: (&[char], &[char]))
    ensures
        r.0@ == split_key(s@).0,
        r.1@ == split_key(s@).1,
{
    let k = find_key_slash(s);
    if k < s.len() {
        let a = &s[0..k];
        let b = &s[k + 1..s.len()];
        assert(a@ =~= s@.take(k as int));
        assert(b@ =~= s@.skip(k + 1));
        (a, b)
    } else {
        let e = &s[s.len()..s.len()];
        assert(e@ =~= Seq::<char>::empty());
        (s, e)
    }
}

fn parse_version(v: &[char]) -> (r: Option<Version>)
    ensures
        r == version_spec(v@),
{
    let dot = find_char(v, '.');
    if dot >= v.len() {
        return None;
    }
    let a = &v[0..dot];
    let b = &v[dot + 1..v.len()];
    assert(a@ =~= v@.take(dot as int));
    assert(b@ =~= v@.skip(dot + 1));
    match (parse_uint_chars(a, 255), parse_uint_chars(b, 255)) {
        (Some(major), Some(minor)) => Some(Version { major: major as u8, minor: minor as u8 }),
        _ => None,
    }
}

/// The host and port text after an address's version.
fn split_host_port(r: &[char]) -> (out: Option<(&[char], &[char])>)
    ensures
        match host_port(r@) {
            None => out is None,
            Some((h, p)) => out matches Some((x, y)) && x@ == h && y@ == p,
        },
{
    if r.len() > 0 && r[0] == '[' {
        let r6 = &r[1..r.len()];
        assert(r6@ =~= r@.drop_first());
        let close = find_char(r6, ']');
        if close >= r6.len() {
            return None;
        }
        let host = &r6[0..close];
        let tail = &r6[close + 1..r6.len()];
        assert(host@ =~= r6@.take(close as int));
        assert(tail@ =~= r6@.skip(close + 1));
        if tail.len() > 0 && tail[0] == ':' {
            let p = &tail[1..tail.len()];
            assert(p@ =~= tail@.drop_first());
            Some((host, p))
        } else {
            let p = &tail[0..0];
            assert(p@ =~= Seq::<char>::empty());
            Some((host, p))
        }
    } else {
        let colon = find_char(r, ':');
        if colon < r.len() {
            let h = &r[0..colon];
            let p = &r[colon + 1..r.len()];
            assert(h@ =~= r@.take(colon as int));
            assert(p@ =~= r@.skip(colon + 1));
            Some((h, p))
        } else {
            let p = &r[0..0];
            assert(p@ =~= Seq::<char>::empty());
            Some((r, p))
        }
    }
}

/// One address of a list.
fn parse_address(s: &[char]) -> (r: Result<IiopAddress, UrlError>)
    ensures
        match address_spec(s@) {
            Some(a) => r matches Ok(x) && x@ == a,
            None => fails_with(r, UrlErrorKind::BadAddress),
        },
{
    let iiop = iiop_chars();
    let rest: &[char] = match strip_prefix_ci(s, iiop.as_slice()) {
        Some(r) => r,
        None => {
            if s.len() > 0 && s[0] == ':' {
                let r = &s[1..s.len()];
                assert(r@ =~= s@.drop_first());
                r
            } else {
                return Err(bad_address("address has no iiop: or : protocol token"));
            }
        },
    };
    let at = find_char(rest, '@');
    let (version, r) = if at < rest.len() {
        let v = &rest[0..at];
        let r = &rest[at + 1..rest.len()];
        assert(v@ =~= rest@.take(at as int));
        assert(r@ =~= rest@.skip(at + 1));
        match parse_version(v) {
            Some(version) => (version, r),
            None => return Err(bad_address("malformed version")),
        }
    } else {
        (Version { major: 1, minor: 0 }, rest)
    };
    let (host, port) = match split_host_port(r) {
        Some(hp) => hp,
        None => return Err(bad_address("unterminated IPv6 literal")),
    };
    if host.len() == 0 {
        return Err(bad_address("no host in address"));
    }
    let port_value: u16 = if port.len() == 0 {
        DEFAULT_CORBALOC_PORT
    } else {
        match parse_uint_chars(port, 65535) {
            Some(p) => p as u16,
            None => return Err(bad_address("malformed port")),
        }
    };
    Ok(IiopAddress { version, host: string_of(host), port: port_value })
}

/// A comma-separated address list, which may not be empty.
fn parse_addresses(s: &[char]) -> (r: Result<Vec<IiopAddress>, UrlError>)
    ensures
        match addresses_spec(s@) {
            Some(v) => r matches Ok(x) && addresses_view(x@) == v,
            None => fails_with(r, UrlErrorKind::BadAddress),
        },
{
    if s.len() == 0 {
        return Err(bad_address("no address in URL"));
    }
    let mut out: Vec<IiopAddress> = Vec::new();
    let mut pos: usize = 0;
    proof {
        assert(s@.skip(0) =~= s@);
        if let Some(t) = address_list(s@) {
            assert(addresses_view(out@) + t =~= t);
        }
    }
    loop
        invariant
            pos <= s@.len(),
            s@.len() > 0,
            address_list(s@) == match address_list(s@.skip(pos as int)) {
                None => None,
                Some(rest) => Some(addresses_view(out@) + rest),
            },
        decreases s@.len() - pos,
    {
        let rest = &s[pos..s.len()];
        assert(rest@ =~= s@.skip(pos as int));
        let k = find_char(rest, ',');
        let piece = &rest[0..k];
        assert(piece@ =~= rest@.take(k as int));
        let a = parse_address(piece)?;
        let ghost before = out@;
        out.push(a);
        assert(addresses_view(out@) =~= addresses_view(before) + seq![a@]);
        if k >= rest.len() {
            assert(address_list(rest@) == Some(seq![a@]));
            return Ok(out);
        }
        proof {
            assert(rest@.skip(k + 1) =~= s@.skip(pos + k + 1));
            let tail = address_list(rest@.skip(k + 1));
            assert(address_list(rest@) == match tail {
                None => None,
                Some(t) => Some(seq![a@] + t),
            });
            if tail is Some {
                assert(addresses_view(before) + (seq![a@] + tail->Some_0) =~= addresses_view(out@)
                    + tail->Some_0);
            }
        }
        pos = pos + k + 1;
    }
}

/// RFC 2396 `%XX` decoding of an object key.
fn unescape(b: &[u8]) -> (r: Result<Vec<u8>, UrlError>)
    ensures
        match unescape_spec(b@) {
            Some(v) => r matches Ok(x) && x@ == v,
            None => fails_with(r, UrlErrorKind::BadSchemeSpecificPart),
        },
{
    let mut out: Vec<u8> = Vec::new();
    let mut i: usize = 0;
    proof {
        assert(b@.skip(0) =~= b@);
        if let Some(t) = unescape_spec(b@) {
            assert(out@ + t =~= t);
        }
    }
    while i < b.len()
        invariant
            i <= b@.len(),
            unescape_spec(b@) == match unescape_spec(b@.skip(i as int)) {
                None => None,
                Some(rest) => Some(out@ + rest),
            },
        decreases b.len() - i,
    {
        let ghost rest = b@.skip(i as int);
        let ghost before = out@;
        if b[i] == 37u8 {
            if b.len() - i <= 2 {
                return Err(bad_part("truncated % escape"));
            }
            let hi = b[i + 1];
            let lo = b[i + 2];
            let v: u8 = match (crate::text::hex_nibble(hi), crate::text::hex_nibble(lo)) {
                (Some(x), Some(y)) => x * 16 + y,
                _ => return Err(bad_part("malformed % escape")),
            };
            assert(hex_pair(rest[1], rest[2]) == Some(v));
            assert(rest.skip(3) =~= b@.skip(i + 3));
            out.push(v);
            i = i + 3;
            proof {
                match unescape_spec(b@.skip(i as int)) {
                    None => {},
                    Some(t) => {
                        assert(before + (seq![v] + t) =~= out@ + t);
                    },
                }
            }
        } else {
            assert(rest.drop_first() =~= b@.skip(i + 1));
            out.push(b[i]);
            i = i + 1;
            proof {
                match unescape_spec(b@.skip(i as int)) {
                    None => {},
                    Some(t) => {
                        assert(before + (seq![rest[0]] + t) =~= out@ + t);
                    },
                }
            }
        }
    }
    assert(b@.skip(i as int) =~= Seq::<u8>::empty());
    assert(out@ + Seq::<u8>::empty() =~= out@);
    Ok(out)
}


/// `parse_stringified_name` on characters.
fn parse_name_chars(s: &[char]) -> (r: Result<Vec<NameComponent>, UrlError>)
    ensures
        match name_spec(s@) {
            Some(v) => r matches Ok(x) && names_view(x@) == v,
            None => fails_with(r, UrlErrorKind::BadSchemeSpecificPart),
        },
{
    let mut out: Vec<NameComponent> = Vec::new();
    if s.len() == 0 {
        assert(names_view(out@) =~= Seq::<NameView>::empty());
        return Ok(out);
    }
    let mut id: Vec<char> = Vec::new();
    let mut kind: Vec<char> = Vec::new();
    let mut in_kind = false;
    let mut escaped = false;
    let mut i: usize = 0;
    proof {
        assert(s@.take(0) =~= Seq::<char>::empty());
        assert(names_view(out@) =~= Seq::<NameView>::empty());
        assert(id@ =~= Seq::<char>::empty());
        assert(kind@ =~= Seq::<char>::empty());
    }
    while i < s.len()
        invariant
            i <= s@.len(),
            scan_from(scan_start(), s@.take(i as int)).done == names_view(out@),
            scan_from(scan_start(), s@.take(i as int)).id == id@,
            scan_from(scan_start(), s@.take(i as int)).kind == kind@,
            scan_from(scan_start(), s@.take(i as int)).in_kind == in_kind,
            scan_from(scan_start(), s@.take(i as int)).escaped == escaped,
        decreases s.len() - i,
    {
        let c = s[i];
        let ghost before = names_view(out@);
        proof {
            assert(s@.take(i + 1).drop_last() =~= s@.take(i as int));
            assert(s@.take(i + 1).last() == c);
        }
        if escaped {
            if in_kind {
                kind.push(c);
            } else {
                id.push(c);
            }
            escaped = false;
        } else if c == '\\' {
            escaped = true;
        } else if c == '.' && !in_kind {
            in_kind = true;
        } else if c == '/' {
            let comp = NameComponent { id: string_of(id.as_slice()), kind: string_of(kind.as_slice()) };
            out.push(comp);
            assert(names_view(out@) =~= before.push(NameView { id: id@, kind: kind@ }));
            id = Vec::new();
            kind = Vec::new();
            in_kind = false;
            assert(id@ =~= Seq::<char>::empty());
            assert(kind@ =~= Seq::<char>::empty());
        } else {
            if in_kind {
                kind.push(c);
            } else {
                id.push(c);
            }
        }
        i = i + 1;
    }
    assert(s@.take(s@.len() as int) =~= s@);
    if escaped {
        return Err(bad_part("name ends in a trailing backslash"));
    }
    let ghost before = names_view(out@);
    let comp = NameComponent { id: string_of(id.as_slice()), kind: string_of(kind.as_slice()) };
    out.push(comp);
    assert(names_view(out@) =~= before.push(NameView { id: id@, kind: kind@ }));
    Ok(out)
}

/// Parses a stringified CosNaming name: `id.kind/id.kind/...`.
///
/// `\` escapes a literal `.`, `/` or `\`, which is the only way a name
/// component can contain one.
pub fn parse_stringified_name(s: &str) -> (r: Result<Vec<NameComponent>, UrlError>)
    ensures
        match name_spec(s@) {
            Some(v) => r matches Ok(x) && names_view(x@) == v,
            None => fails_with(r, UrlErrorKind::BadSchemeSpecificPart),
        },
{
    let cs = chars_of(s);
    parse_name_chars(cs.as_slice())
}

/// `%XX`-decodes an escaped stringified name and reads it as UTF-8.
fn unescape_name(s: &[char]) -> (r: Result<Vec<char>, UrlError>)
    ensures
        match unescape_name_spec(s@) {
            Some(v) => r matches Ok(x) && x@ == v,
            None => fails_with(r, UrlErrorKind::BadSchemeSpecificPart),
        },
{
    let bytes = utf8_of(s);
    let decoded = unescape(bytes.as_slice())?;
    match string_from_utf8(decoded) {
        Some(text) => Ok(chars_of(text.as_str())),
        None => Err(bad_part("the escaped stringified name is not valid UTF-8 once decoded")),
    }
}


impl ObjectUrl {
    /// Parses a `corbaloc:` or `corbaname:` URL. Surrounding whitespace is
    /// ignored and the scheme is matched in any case.
    pub fn parse(url: &str) -> (r: Result<ObjectUrl, UrlError>)
        ensures
            match url_spec(url@) {
                Ok(v) => r matches Ok(u) && u@ == v,
                Err(k) => fails_with(r, k),
            },
    {
        let t = trim(url);
        let cs = chars_of(t);
        ObjectUrl::parse_chars(cs.as_slice())
    }

    /// The grammar on the trimmed characters.
    fn parse_chars(s: &[char]) -> (r: Result<ObjectUrl, UrlError>)
        ensures
            match url_body_spec(s@) {
                Ok(v) => r matches Ok(u) && u@ == v,
                Err(k) => fails_with(r, k),
            },
    {
        let loc = corbaloc_chars();
        if let Some(rest) = strip_prefix_ci(s, loc.as_slice()) {
            let rir = rir_chars();
            if let Some(name) = strip_prefix_ci(rest, rir.as_slice()) {
                let key: &[char] = if name.len() > 0 && name[0] == '/' {
                    let k = &name[1..name.len()];
                    assert(k@ =~= name@.drop_first());
                    k
                } else {
                    name
                };
                let text = if key.len() == 0 {
                    let ns = name_service_chars();
                    string_of(ns.as_slice())
                } else {
                    string_of(key)
                };
                return Ok(ObjectUrl::InitialReference(text));
            }
            let (addr, key) = split_key_exec(rest);
            let addresses = parse_addresses(addr)?;
            let key_bytes = utf8_of(key);
            let object_key = unescape(key_bytes.as_slice())?;
            return Ok(ObjectUrl::Corbaloc { addresses, object_key });
        }
        let cn = corbaname_chars();
        if let Some(rest) = strip_prefix_ci(s, cn.as_slice()) {
            let h = find_char(rest, '#');
            let loc_part = &rest[0..h];
            assert(loc_part@ =~= rest@.take(h as int));
            let name_part: &[char] = if h < rest.len() {
                let n = &rest[h + 1..rest.len()];
                assert(n@ =~= rest@.skip(h + 1));
                n
            } else {
                let n = &rest[0..0];
                assert(n@ =~= Seq::<char>::empty());
                n
            };
            let (addr, key_part) = split_key_exec(loc_part);
            let addresses = parse_addresses(addr)?;
            let object_key = if key_part.len() == 0 {
                let ns = name_service_chars();
                utf8_of(ns.as_slice())
            } else {
                let kb = utf8_of(key_part);
                unescape(kb.as_slice())?
            };
            let text = unescape_name(name_part)?;
            let name = parse_name_chars(text.as_slice())?;
            return Ok(ObjectUrl::Corbaname { addresses, object_key, name });
        }
        Err(UrlError::BadSchemeName("not a corbaloc: or corbaname: URL".to_owned()))
    }
}


// ─────────────────────────────────────────────────────────────────────────────
// From a URL to a reference
// ─────────────────────────────────────────────────────────────────────────────

/// The multi-profile reference an addressed URL denotes: one profile per
/// address, every one carrying the same key and no components.
pub open spec fn addressed_view(addresses: Seq<AddressView>, object_key: Seq<u8>, type_id: Seq<char>) -> IorView {
    IorView {
        type_id,
        profiles: addresses.map_values(
            |a: AddressView|
                ProfileView {
                    version: a.version,
                    host: a.host,
                    port: a.port,
                    object_key,
                    components: Seq::empty(),
                },
        ),
    }
}

/// Builds the multi-profile IOR an addressed URL denotes. The one
/// conversion shared by [`ObjectUrl::to_ior`] and the ORB's URL resolution.
pub fn addressed_ior(addresses: &[IiopAddress], object_key: &[u8], type_id: &str) -> (r: Ior)
    ensures
        r@ == addressed_view(addresses_view(addresses@), object_key@, type_id@),
{
    let mut profiles: Vec<IiopProfile> = Vec::new();
    let mut i: usize = 0;
    while i < addresses.len()
        invariant
            i <= addresses@.len(),
            profiles@.map_values(|p: IiopProfile| p@) == addressed_view(
                addresses_view(addresses@).take(i as int),
                object_key@,
                type_id@,
            ).profiles,
        decreases addresses.len() - i,
    {
        let a = &addresses[i];
        let mut key: Vec<u8> = Vec::new();
        crate::text::push_all(&mut key, object_key);
        assert(key@ =~= object_key@);
        let p = IiopProfile {
            version: a.version,
            host: a.host.clone(),
            port: a.port,
            object_key: key,
            components: Vec::new(),
        };
        let ghost before = profiles@;
        profiles.push(p);
        proof {
            assert(p.components@.map_values(|c: crate::ior::TaggedComponent| c@) =~= Seq::<
                crate::ior::ComponentView,
            >::empty());
            assert(addresses_view(addresses@).take(i + 1) =~= addresses_view(addresses@).take(
                i as int,
            ).push(a@));
            assert(p@ == ProfileView {
                version: a@.version,
                host: a@.host,
                port: a@.port,
                object_key: object_key@,
                components: Seq::empty(),
            });
            assert(profiles@.map_values(|p: IiopProfile| p@) =~= before.map_values(
                |p: IiopProfile| p@,
            ).push(p@));
            assert(profiles@.map_values(|p: IiopProfile| p@) =~= addressed_view(
                addresses_view(addresses@).take(i + 1),
                object_key@,
                type_id@,
            ).profiles);
        }
        i = i + 1;
    }
    assert(addresses_view(addresses@).take(addresses@.len() as int) =~= addresses_view(addresses@));
    Ior { type_id: type_id.to_owned(), profiles }
}

/// The reference an addressed URL denotes; `None` for `corbaloc:rir:`,
/// whose answer lives in the ORB's initial references, not in the URL.
pub open spec fn url_ior(u: UrlView, type_id: Seq<char>) -> Option<IorView> {
    match u {
        UrlView::Corbaloc { addresses, object_key } => Some(
            addressed_view(addresses, object_key, type_id),
        ),
        UrlView::Corbaname { addresses, object_key, .. } => Some(
            addressed_view(addresses, object_key, type_id),
        ),
        UrlView::InitialReference(_) => None,
    }
}

impl ObjectUrl {
    /// Builds an IOR for the forms that address an object directly: every
    /// address becomes a profile. `corbaloc:rir:` gives `None`; the ORB
    /// answers it from its table.
    pub fn to_ior(&self, type_id: &str) -> (r: Option<Ior>)
        ensures
            match url_ior(self@, type_id@) {
                Some(v) => r matches Some(ior) && ior@ == v,
                None => r is None,
            },
    {
        match self {
            ObjectUrl::Corbaloc { addresses, object_key } => Some(
                addressed_ior(addresses.as_slice(), object_key.as_slice(), type_id),
            ),
            ObjectUrl::Corbaname { addresses, object_key, .. } => Some(
                addressed_ior(addresses.as_slice(), object_key.as_slice(), type_id),
            ),
            ObjectUrl::InitialReference(_) => None,
        }
    }
}

/// The byte order used when a URL is turned into an IOR.
pub const URL_IOR_ENDIAN: crate::cdr::Endian = crate::cdr::Endian::Little;

/// Builds a stringified IOR for a `corbaloc:` URL, for tools that want one.
pub fn corbaloc_to_ior_string(url: &str, type_id: &str) -> (r: Result<String, Error>)
    ensures
        match url_spec(url@) {
            Err(_) => r matches Err(Error::BadIor(w)) && w == BadIorReason::MalformedUrl,
            Ok(u) => match url_ior(u, type_id@) {
                None => r matches Err(Error::BadIor(w)) && w == BadIorReason::NotAddressed,
                Some(v) => {
                    let enc = crate::ior::ior_encoding(crate::cdr::encapsulation_start(crate::cdr::Endian::Little), v);
                    &&& enc.ok ==> (r matches Ok(s) && crate::text::bytes_of(s@) == crate::ior::ior_prefix()
                        + crate::ior::hex_encode(enc.bytes))
                    &&& !enc.ok ==> (r matches Err(Error::Cdr(c)) && c == CdrError::TooLong)
                },
            },
        },
{
    let parsed = match ObjectUrl::parse(url) {
        Ok(p) => p,
        Err(_) => return Err(Error::BadIor(BadIorReason::MalformedUrl)),
    };
    let ior = match parsed.to_ior(type_id) {
        Some(i) => i,
        None => return Err(Error::BadIor(BadIorReason::NotAddressed)),
    };
    ior.to_stringified()
}


// ─────────────────────────────────────────────────────────────────────────────
// From a name to text, and to a URL
// ─────────────────────────────────────────────────────────────────────────────

/// Whether `c` needs a `\` in stringified form.
pub open spec fn name_special(c: char) -> bool {
    c == '.' || c == '/' || c == '\\'
}

/// `s` with `.`, `/` and `\` each preceded by `\`.
pub open spec fn esc(s: Seq<char>) -> Seq<char>
    decreases s.len(),
{
    if s.len() == 0 {
        Seq::empty()
    } else if name_special(s.last()) {
        esc(s.drop_last()) + seq!['\\', s.last()]
    } else {
        esc(s.drop_last()).push(s.last())
    }
}

/// One component in stringified form: `id`, or `id.kind` when it has a kind.
pub open spec fn component_text(n: NameView) -> Seq<char> {
    if n.kind.len() == 0 {
        esc(n.id)
    } else {
        esc(n.id) + seq!['.'] + esc(n.kind)
    }
}

/// A name in stringified form: its components joined by `/`.
pub open spec fn stringify(ns: Seq<NameView>) -> Seq<char>
    decreases ns.len(),
{
    if ns.len() == 0 {
        Seq::empty()
    } else if ns.len() == 1 {
        component_text(ns[0])
    } else {
        stringify(ns.drop_last()) + seq!['/'] + component_text(ns.last())
    }
}

fn push_escaped(out: &mut Vec<char>, s: &[char])
    ensures
        final(out)@ == old(out)@ + esc(s@),
{
    let ghost start = out@;
    let mut i: usize = 0;
    assert(s@.take(0) =~= Seq::<char>::empty());
    assert(start + esc(Seq::<char>::empty()) =~= start);
    while i < s.len()
        invariant
            i <= s@.len(),
            out@ == start + esc(s@.take(i as int)),
            start == old(out)@,
        decreases s.len() - i,
    {
        let c = s[i];
        assert(s@.take(i + 1).drop_last() =~= s@.take(i as int));
        assert(s@.take(i + 1).last() == c);
        if c == '.' || c == '/' || c == '\\' {
            out.push('\\');
        }
        out.push(c);
        assert(out@ =~= start + esc(s@.take(i + 1)));
        i = i + 1;
    }
    assert(s@.take(s@.len() as int) =~= s@);
}

/// Emits the stringified form of a name, escaping the separators.
pub fn stringify_name(name: &[NameComponent]) -> (r: String)
    ensures
        r@ == stringify(names_view(name@)),
{
    let mut out: Vec<char> = Vec::new();
    let mut i: usize = 0;
    while i < name.len()
        invariant
            i <= name@.len(),
            out@ == stringify(names_view(name@).take(i as int)),
        decreases name.len() - i,
    {
        let c = &name[i];
        let ghost before = out@;
        proof {
            assert(names_view(name@).take(i + 1).drop_last() =~= names_view(name@).take(i as int));
            assert(names_view(name@).take(i + 1).last() == c@);
        }
        if i > 0 {
            out.push('/');
        }
        let id = chars_of(c.id.as_str());
        push_escaped(&mut out, id.as_slice());
        if !c.kind.as_str().is_empty() {
            out.push('.');
            let kind = chars_of(c.kind.as_str());
            push_escaped(&mut out, kind.as_slice());
        }
        proof {
            let t = names_view(name@).take(i + 1);
            if i == 0 {
                assert(t.len() == 1);
                assert(t[0] == c@);
            }
            assert(out@ =~= stringify(t));
        }
        i = i + 1;
    }
    assert(names_view(name@).take(name@.len() as int) =~= names_view(name@));
    string_of(out.as_slice())
}

/// Whether octet `b` may stand for itself in the stringified-name part of a
/// `corbaname:` URL: RFC 2396's unreserved characters and the reserved ones
/// a path may carry literally. `\`, `%`, `#`, space, controls and every
/// octet above 0x7F are escaped.
pub open spec fn url_name_safe(b: u8) -> bool {
    ||| (48 <= b <= 57)
    ||| (65 <= b <= 90)
    ||| (97 <= b <= 122)
    ||| b == 45 || b == 95 || b == 46 || b == 33 || b == 126 || b == 42 || b == 39 || b == 40
        || b == 41
    ||| b == 59 || b == 47 || b == 58 || b == 63 || b == 64 || b == 38 || b == 61 || b == 43
        || b == 36 || b == 44
}

fn is_url_name_safe(b: u8) -> (r: bool)
    ensures
        r == url_name_safe(b),
{
    (48 <= b && b <= 57) || (65 <= b && b <= 90) || (97 <= b && b <= 122) || b == 45 || b == 95
        || b == 46 || b == 33 || b == 126 || b == 42 || b == 39 || b == 40 || b == 41 || b == 59
        || b == 47 || b == 58 || b == 63 || b == 64 || b == 38 || b == 61 || b == 43 || b == 36
        || b == 44
}

/// The escaped form of one octet: itself, or `%` and two upper-case hex
/// digits.
pub open spec fn escape_piece(b: u8) -> Seq<u8> {
    if url_name_safe(b) {
        seq![b]
    } else {
        seq![37u8, hex_digit(b / 16, true), hex_digit(b % 16, true)]
    }
}

/// Percent-escaping of a stringified name's octets (§2.5.3.3).
pub open spec fn escape_spec(b: Seq<u8>) -> Seq<u8>
    decreases b.len(),
{
    if b.len() == 0 {
        Seq::empty()
    } else {
        escape_piece(b[0]) + escape_spec(b.drop_first())
    }
}

proof fn lemma_escape_snoc(b: Seq<u8>, x: u8)
    ensures
        escape_spec(b.push(x)) == escape_spec(b) + escape_piece(x),
    decreases b.len(),
{
    if b.len() == 0 {
        assert(b.push(x).drop_first() =~= Seq::<u8>::empty());
        assert(escape_spec(b.push(x).drop_first()) == Seq::<u8>::empty());
        assert(b.push(x)[0] == x);
        assert(escape_spec(b.push(x)) =~= escape_piece(x));
    } else {
        lemma_escape_snoc(b.drop_first(), x);
        assert(b.push(x).drop_first() =~= b.drop_first().push(x));
        assert(escape_spec(b.push(x)) =~= escape_spec(b) + escape_piece(x));
    }
}

/// Appends the escaped form of `b`, as characters.
fn push_escaped_url(out: &mut Vec<char>, b: &[u8])
    ensures
        final(out)@ == old(out)@ + ascii_chars(escape_spec(b@)),
{
    let ghost start = out@;
    let mut i: usize = 0;
    assert(b@.take(0) =~= Seq::<u8>::empty());
    assert(start + ascii_chars(escape_spec(Seq::<u8>::empty())) =~= start);
    while i < b.len()
        invariant
            i <= b@.len(),
            out@ == start + ascii_chars(escape_spec(b@.take(i as int))),
            start == old(out)@,
        decreases b.len() - i,
    {
        let x = b[i];
        proof {
            assert(b@.take(i as int).push(x) =~= b@.take(i + 1));
            lemma_escape_snoc(b@.take(i as int), x);
        }
        if is_url_name_safe(x) {
            out.push(x as char);
        } else {
            out.push('%');
            out.push(crate::text::hex_digit_of(x / 16, true) as char);
            out.push(crate::text::hex_digit_of(x % 16, true) as char);
        }
        assert(out@ =~= start + ascii_chars(escape_spec(b@.take(i + 1))));
        i = i + 1;
    }
    assert(b@.take(b@.len() as int) =~= b@);
}

/// A character no URL can carry literally in an address: space, controls,
/// DEL, `#`, or anything outside ASCII.
pub open spec fn url_unsafe(c: char) -> bool {
    (c as u32) <= 32 || (c as u32) == 127 || (c as u32) >= 128 || c == '#'
}

/// The URL `to_url` builds: the address after `corbaname:`, then `#` and
/// the escaped name unless the name is empty.
pub open spec fn to_url_text(address: Seq<char>, name: Seq<char>) -> Seq<char> {
    if name.len() == 0 {
        corbaname_scheme() + address
    } else {
        corbaname_scheme() + address + seq!['#'] + ascii_chars(escape_spec(encode_utf8(name)))
    }
}

/// What `to_url` answers: `BadAddress` for an empty address, one with a
/// character a URL cannot carry, or one the address grammar refuses;
/// `BadSchemeSpecificPart` for a name the name grammar refuses; otherwise
/// the URL, provided the URL parser reads it back as the same name, and
/// `Other` if it does not.
pub open spec fn to_url_spec(address: Seq<char>, name: Seq<char>) -> Result<Seq<char>, UrlErrorKind> {
    if address.len() == 0 {
        Err(UrlErrorKind::BadAddress)
    } else if exists|i: int| 0 <= i < address.len() && url_unsafe(#[trigger] address[i]) {
        Err(UrlErrorKind::BadAddress)
    } else if addresses_spec(split_key(address).0) is None {
        Err(UrlErrorKind::BadAddress)
    } else {
        let intended = if name.len() == 0 {
            Some(Seq::<NameView>::empty())
        } else {
            name_spec(name)
        };
        match intended {
            None => Err(UrlErrorKind::BadSchemeSpecificPart),
            Some(n) => {
                let url = to_url_text(address, name);
                if url_spec(url) matches Ok(UrlView::Corbaname { name: back, .. }) && back == n {
                    Ok(url)
                } else {
                    Err(UrlErrorKind::Other)
                }
            },
        }
    }
}

/// Whether two paths have the same text, component by component.
pub fn names_equal(a: &[NameComponent], b: &[NameComponent]) -> (r: bool)
    ensures
        r == (names_view(a@) == names_view(b@)),
{
    if a.len() != b.len() {
        assert(names_view(a@).len() != names_view(b@).len());
        return false;
    }
    let mut i: usize = 0;
    while i < a.len()
        invariant
            i <= a@.len() == b@.len(),
            forall|j: int| 0 <= j < i ==> names_view(a@)[j] == names_view(b@)[j],
        decreases a.len() - i,
    {
        if a[i].id != b[i].id || a[i].kind != b[i].kind {
            assert(names_view(a@)[i as int] != names_view(b@)[i as int]);
            return false;
        }
        i = i + 1;
    }
    assert(names_view(a@) =~= names_view(b@));
    true
}

/// `NamingContextExt::to_url` — builds a `corbaname:` URL out of an address
/// (`:host`, `iiop:1.2@host:2809/Key`, comma-separated lists) and a
/// stringified name (§2.5.3.3).
///
/// It parses what it built and refuses to hand back a URL that does not read
/// as the name it was given, so the round trip holds of every `Ok`. An empty
/// name gives the URL of the context itself.
pub fn to_url(address: &str, name: &str) -> (r: Result<String, UrlError>)
    ensures
        match to_url_spec(address@, name@) {
            Ok(u) => r matches Ok(s) && s@ == u,
            Err(k) => fails_with(r, k),
        },
{
    let a = chars_of(address);
    if a.len() == 0 {
        return Err(bad_address("no address given"));
    }
    let mut i: usize = 0;
    while i < a.len()
        invariant
            i <= a@.len(),
            a@ == address@,
            forall|j: int| 0 <= j < i ==> !url_unsafe(#[trigger] a@[j]),
        decreases a.len() - i,
    {
        let c = a[i];
        if (c as u32) <= 32 || (c as u32) == 127 || (c as u32) >= 128 || c == '#' {
            assert(url_unsafe(address@[i as int]));
            return Err(bad_address("the address carries a character that cannot stand in a URL"));
        }
        i = i + 1;
    }
    let (addr_part, _key_part) = split_key_exec(a.as_slice());
    parse_addresses(addr_part)?;
    let n = chars_of(name);
    let intended: Vec<NameComponent> = if n.len() == 0 {
        Vec::new()
    } else {
        parse_name_chars(n.as_slice())?
    };
    assert(n.len() == 0 ==> names_view(intended@) =~= Seq::<NameView>::empty());
    let mut url = corbaname_chars();
    crate::text::push_all_chars(&mut url, a.as_slice());
    if n.len() > 0 {
        url.push('#');
        let bytes = utf8_of(n.as_slice());
        push_escaped_url(&mut url, bytes.as_slice());
    }
    assert(url@ =~= to_url_text(address@, name@));
    let text = string_of(url.as_slice());
    match ObjectUrl::parse(text.as_str()) {
        Ok(ObjectUrl::Corbaname { name: back, .. }) => {
            if names_equal(back.as_slice(), intended.as_slice()) {
                Ok(text)
            } else {
                Err(UrlError::Other("the URL built does not read back as the name given".to_owned()))
            }
        },
        _ => Err(UrlError::Other("the URL built does not read back as a corbaname: URL".to_owned())),
    }
}


/// How a failure reads: its text, then the minor code in brackets.
pub open spec fn url_error_text(e: UrlError) -> Seq<char> {
    e.what() + seq![' ', '(', 'B', 'A', 'D', '_', 'P', 'A', 'R', 'A', 'M', ' ', 'm', 'i', 'n', 'o', 'r', ' ']
        + (if e.minor_code() == 10 {
        seq!['1', '0']
    } else {
        seq![((e.minor_code() + 48) as u8) as char]
    }) + seq![')']
}

impl UrlError {
    /// The failure as text: `"<what> (BAD_PARAM minor <code>)"`.
    pub fn message(&self) -> (r: String)
        ensures
            r@ == url_error_text(*self),
    {
        let (code, what): (u8, &String) = match self {
            UrlError::BadSchemeName(s) => (7, s),
            UrlError::BadAddress(s) => (8, s),
            UrlError::BadSchemeSpecificPart(s) => (9, s),
            UrlError::Other(s) => (10, s),
        };
        let mut out = chars_of(what.as_str());
        let tail = vec![' ', '(', 'B', 'A', 'D', '_', 'P', 'A', 'R', 'A', 'M', ' ', 'm', 'i', 'n', 'o', 'r', ' '];
        crate::text::push_all_chars(&mut out, tail.as_slice());
        if code == 10 {
            out.push('1');
            out.push('0');
        } else {
            out.push((code + 48) as char);
        }
        out.push(')');
        assert(out@ =~= url_error_text(*self));
        string_of(out.as_slice())
    }
}

// ─────────────────────────────────────────────────────────────────────────────
// The wire shape of a Name
// ─────────────────────────────────────────────────────────────────────────────

/// The components of a name, each an `id` string then a `kind` string.
pub open spec fn put_name_parts(e: EncoderView, ns: Seq<NameView>) -> EncoderView
    decreases ns.len(),
{
    if ns.len() == 0 {
        e
    } else {
        put_name_parts(e, ns.drop_last()).put_str(ns.last().id).put_str(ns.last().kind)
    }
}

/// A CosNaming `Name`: the component count, then the components.
pub open spec fn put_name(e: EncoderView, ns: Seq<NameView>) -> EncoderView {
    put_name_parts(e.put_u32(ns.len() as u32), ns)
}

/// Marshals a CosNaming `Name`: a sequence of `NameComponent`, each an `id`
/// string followed by a `kind` string. This and [`read_name`] are the only
/// places that know the wire shape of a `Name`.
pub fn write_name(e: &mut Encoder, name: &[NameComponent])
    ensures
        final(e)@ == put_name(old(e)@, names_view(name@)),
{
    e.put_u32(#[verifier::truncate] (name.len() as u32));
    let ghost start = e@;
    let mut i: usize = 0;
    while i < name.len()
        invariant
            i <= name@.len(),
            e@ == put_name_parts(start, names_view(name@).take(i as int)),
            start == old(e)@.put_u32(name@.len() as u32),
        decreases name.len() - i,
    {
        let c = &name[i];
        e.put_str(c.id.as_str());
        e.put_str(c.kind.as_str());
        proof {
            assert(names_view(name@).take(i + 1).drop_last() =~= names_view(name@).take(i as int));
            assert(names_view(name@).take(i + 1).last() == c@);
        }
        i = i + 1;
    }
    assert(names_view(name@).take(name@.len() as int) =~= names_view(name@));
}

/// `n` components as the octets of their `id` and `kind` strings.
pub open spec fn read_name_parts(d: DecoderView, n: nat) -> Result<
    (Seq<(Seq<u8>, Seq<u8>)>, DecoderView),
    CdrError,
>
    decreases n,
{
    if n == 0 {
        Ok((Seq::empty(), d))
    } else {
        match read_name_parts(d, (n - 1) as nat) {
            Err(e) => Err(e),
            Ok((ps, d1)) => match d1.get_string_bytes() {
                Err(e) => Err(e),
                Ok((id, d2)) => match d2.get_string_bytes() {
                    Err(e) => Err(e),
                    Ok((kind, d3)) => Ok((ps.push((id, kind)), d3)),
                },
            },
        }
    }
}

/// A marshalled `Name`: a count no larger than the stream can hold at
/// eight octets a component, then the components.
pub open spec fn read_name_wire(d: DecoderView) -> Result<
    (Seq<(Seq<u8>, Seq<u8>)>, DecoderView),
    CdrError,
> {
    match d.get_u32() {
        Err(e) => Err(e),
        Ok((n, a)) => if !a.count_fits(n as int, 8) {
            Err(CdrError::CountTooLarge)
        } else {
            read_name_parts(a, n as nat)
        },
    }
}

/// `ns` is what a lossy read of the component octets `w` produces.
pub open spec fn names_from_wire(ns: Seq<NameView>, w: Seq<(Seq<u8>, Seq<u8>)>) -> bool {
    &&& ns.len() == w.len()
    &&& forall|i: int|
        0 <= i < ns.len() ==> crate::cdr::lossy_text_exact(w[i].0, (#[trigger] ns[i]).id)
            && crate::cdr::lossy_text_exact(w[i].1, ns[i].kind)
}

proof fn lemma_names_from_wire_push(
    ns: Seq<NameView>,
    w: Seq<(Seq<u8>, Seq<u8>)>,
    n: NameView,
    p: (Seq<u8>, Seq<u8>),
)
    requires
        names_from_wire(ns, w),
        crate::cdr::lossy_text_exact(p.0, n.id),
        crate::cdr::lossy_text_exact(p.1, n.kind),
    ensures
        names_from_wire(ns.push(n), w.push(p)),
{
    assert forall|j: int| 0 <= j < ns.push(n).len() implies crate::cdr::lossy_text_exact(
        w.push(p)[j].0,
        (#[trigger] ns.push(n)[j]).id,
    ) && crate::cdr::lossy_text_exact(w.push(p)[j].1, ns.push(n)[j].kind) by {
        if j < ns.len() {
            assert(ns.push(n)[j] == ns[j]);
            assert(w.push(p)[j] == w[j]);
        }
    }
}

proof fn lemma_read_name_stop(d: DecoderView, i: nat, n: nat, e: CdrError)
    requires
        read_name_parts(d, i + 1) == Err::<(Seq<(Seq<u8>, Seq<u8>)>, DecoderView), CdrError>(e),
        i + 1 <= n,
    ensures
        read_name_parts(d, n) == Err::<(Seq<(Seq<u8>, Seq<u8>)>, DecoderView), CdrError>(e),
    decreases n,
{
    if n > i + 1 {
        lemma_read_name_stop(d, i, (n - 1) as nat, e);
    }
}

/// The name a lossy read of component octets produces.
pub open spec fn names_of(w: Seq<(Seq<u8>, Seq<u8>)>) -> Seq<NameView> {
    w.map_values(|p: (Seq<u8>, Seq<u8>)| NameView { id: crate::text::lossy_text(p.0), kind: crate::text::lossy_text(p.1) })
}

pub proof fn lemma_names_of(ns: Seq<NameView>, w: Seq<(Seq<u8>, Seq<u8>)>)
    requires
        names_from_wire(ns, w),
    ensures
        ns == names_of(w),
{
    assert forall|i: int| 0 <= i < ns.len() implies #[trigger] ns[i] == names_of(w)[i] by {
        assert(crate::cdr::lossy_text_exact(w[i].0, ns[i].id));
        assert(crate::cdr::lossy_text_exact(w[i].1, ns[i].kind));
    }
    assert(ns =~= names_of(w));
}


proof fn lemma_name_parts_extend(e: EncoderView, ns: Seq<NameView>)
    ensures
        crate::cdr::extends(e, put_name_parts(e, ns)),
        put_name_parts(e, ns).ok ==> put_name_parts(e, ns).bytes.len() >= e.bytes.len() + 8
            * ns.len(),
    decreases ns.len(),
{
    if ns.len() == 0 {
        crate::cdr::lemma_extends_refl(e);
    } else {
        let m = put_name_parts(e, ns.drop_last());
        let t = m.put_str(ns.last().id);
        lemma_name_parts_extend(e, ns.drop_last());
        crate::cdr::lemma_str_extends(m, ns.last().id);
        crate::cdr::lemma_str_extends(t, ns.last().kind);
        crate::cdr::lemma_extends_trans(m, t, put_name_parts(e, ns));
        crate::cdr::lemma_extends_trans(e, m, put_name_parts(e, ns));
    }
}

/// Writing a name only appends: its count, then at least eight octets per
/// component.
pub proof fn lemma_name_extends(e: EncoderView, ns: Seq<NameView>)
    ensures
        crate::cdr::extends(e, put_name(e, ns)),
        put_name(e, ns).ok ==> put_name(e, ns).bytes.len() >= e.bytes.len() + 4 + 8 * ns.len(),
{
    let c = e.put_u32(ns.len() as u32);
    crate::cdr::lemma_u32_extends(e, ns.len() as u32);
    lemma_name_parts_extend(c, ns);
    crate::cdr::lemma_extends_trans(e, c, put_name(e, ns));
}

/// The components of a name written at `e` read back, as their UTF-8
/// octets.
proof fn lemma_name_parts_read_back(e: EncoderView, ns: Seq<NameView>, d: DecoderView)
    requires
        crate::cdr::holds(put_name_parts(e, ns), d),
        d.pos == e.bytes.len(),
    ensures
        read_name_parts(d, ns.len()) is Ok,
        names_of(read_name_parts(d, ns.len())->Ok_0.0) == ns,
        read_name_parts(d, ns.len())->Ok_0.1 == d.at(put_name_parts(e, ns).bytes.len() as int),
    decreases ns.len(),
{
    if ns.len() == 0 {
        assert(d.at(e.bytes.len() as int) =~= d);
        assert(names_of(Seq::<(Seq<u8>, Seq<u8>)>::empty()) =~= ns);
    } else {
        let dl = ns.drop_last();
        let c = ns.last();
        let m = put_name_parts(e, dl);
        let t = m.put_str(c.id);
        let f = put_name_parts(e, ns);
        crate::cdr::lemma_extends_refl(f);
        lemma_name_parts_extend(e, dl);
        crate::cdr::lemma_read_str_at(t, c.kind, f, d);
        crate::cdr::lemma_read_str_at(m, c.id, f, d);
        crate::cdr::lemma_extends_trans(e, m, f);
        assert(crate::cdr::holds(m, d)) by {
            crate::cdr::lemma_reads_back_at(e, m, f, d);
        }
        lemma_name_parts_read_back(e, dl, d);
        let w = read_name_parts(d, dl.len())->Ok_0.0;
        vstd::utf8::encode_utf8_valid_utf8(c.id);
        vstd::utf8::encode_utf8_decode_utf8(c.id);
        vstd::utf8::encode_utf8_valid_utf8(c.kind);
        vstd::utf8::encode_utf8_decode_utf8(c.kind);
        let w2 = w.push((crate::cdr::utf8(c.id), crate::cdr::utf8(c.kind)));
        assert(names_of(w2) =~= names_of(w).push(c));
        assert(dl.push(c) =~= ns);
    }
}

/// Reading a marshalled `Name` gives back the name written.
pub proof fn law_name_wire_round_trip(e: EncoderView, ns: Seq<NameView>, d: DecoderView)
    requires
        crate::cdr::holds(put_name(e, ns), d),
        d.pos == e.bytes.len(),
    ensures
        read_name_wire(d) is Ok,
        names_of(read_name_wire(d)->Ok_0.0) == ns,
        read_name_wire(d)->Ok_0.1 == d.at(put_name(e, ns).bytes.len() as int),
{
    let n = ns.len() as u32;
    let c = e.put_u32(n);
    let f = put_name(e, ns);
    lemma_name_parts_extend(c, ns);
    crate::cdr::lemma_read_u32_at(e, n, f, d);
    assert(d.at(e.bytes.len() as int) =~= d);
    let d1 = d.at(c.bytes.len() as int);
    assert(ns.len() <= u32::MAX || !f.ok);
    assert(d1.count_fits(n as int, 8));
    assert(crate::cdr::holds(f, d1));
    lemma_name_parts_read_back(c, ns, d1);
    assert(n as nat == ns.len());
}

/// Unmarshals a CosNaming `Name` — the inverse of [`write_name`]. Text that
/// is not UTF-8 is read lossily.
pub fn read_name(d: &mut Decoder) -> (r: Result<Vec<NameComponent>, Error>)
    ensures
        match read_name_wire(old(d)@) {
            Ok((w, after)) => r matches Ok(v) && names_from_wire(names_view(v@), w) && final(d)@
                == after,
            Err(e) => r matches Err(Error::Cdr(x)) && x == e,
        },
{
    let count = match d.get_u32() {
        Ok(v) => v,
        Err(e) => return Err(Error::Cdr(e)),
    };
    let n = match d.validate_count(count, 8) {
        Ok(n) => n,
        Err(e) => return Err(Error::Cdr(e)),
    };
    let ghost d0 = d@;
    let ghost mut wires: Seq<(Seq<u8>, Seq<u8>)> = Seq::empty();
    let mut out: Vec<NameComponent> = Vec::new();
    let mut i: usize = 0;
    assert(names_view(out@) =~= Seq::<NameView>::empty());
    while i < n
        invariant
            i <= n,
            read_name_wire(old(d)@) == read_name_parts(d0, n as nat),
            read_name_parts(d0, i as nat) == Ok::<(Seq<(Seq<u8>, Seq<u8>)>, DecoderView), CdrError>(
                (wires, d@),
            ),
            names_from_wire(names_view(out@), wires),
        decreases n - i,
    {
        let idb = match d.get_string_bytes() {
            Ok(b) => b,
            Err(e) => {
                proof {
                    lemma_read_name_stop(d0, i as nat, n as nat, e);
                }
                return Err(Error::Cdr(e));
            },
        };
        let kb = match d.get_string_bytes() {
            Ok(b) => b,
            Err(e) => {
                proof {
                    lemma_read_name_stop(d0, i as nat, n as nat, e);
                }
                return Err(Error::Cdr(e));
            },
        };
        let id = crate::text::string_from_utf8_lossy(idb);
        let kind = crate::text::string_from_utf8_lossy(kb);
        let ghost before = names_view(out@);
        out.push(NameComponent { id, kind });
        proof {
            lemma_names_from_wire_push(before, wires, NameView { id: id@, kind: kind@ }, (idb@, kb@));
            wires = wires.push((idb@, kb@));
            assert(names_view(out@) =~= before.push(NameView { id: id@, kind: kind@ }));
        }
        i = i + 1;
    }
    Ok(out)
}

/// One entry reported by `NamingContext::list`.
#[derive(Debug, Clone, PartialEq, Eq)]
pub struct Binding {
    /// The binding's name, relative to the listed context.
    pub name: Vec<NameComponent>,
    /// `true` for `BindingType::ncontext`, `false` for `nobject`.
    pub is_context: bool,
}

/// The bindings of a `list` reply as octets: each name with its binding
/// type.
#[verifier::opaque]
pub open spec fn read_binding_items(d: DecoderView, n: nat) -> Result<
    (Seq<(Seq<(Seq<u8>, Seq<u8>)>, u32)>, DecoderView),
    CdrError,
>
    decreases n,
{
    if n == 0 {
        Ok((Seq::empty(), d))
    } else {
        match read_binding_items(d, (n - 1) as nat) {
            Err(e) => Err(e),
            Ok((bs, d1)) => match read_name_wire(d1) {
                Err(e) => Err(e),
                Ok((w, d2)) => match d2.get_u32() {
                    Err(e) => Err(e),
                    Ok((t, d3)) => Ok((bs.push((w, t)), d3)),
                },
            },
        }
    }
}

/// A `list` reply body: a count, that many bindings (each at least eight
/// octets), and the iterator reference.
#[verifier::opaque]
pub open spec fn read_list_wire(d: DecoderView) -> Result<
    (Seq<(Seq<(Seq<u8>, Seq<u8>)>, u32)>, crate::ior::IorWire, DecoderView),
    CdrError,
> {
    match d.get_u32() {
        Err(e) => Err(e),
        Ok((n, a)) => if !a.count_fits(n as int, 8) {
            Err(CdrError::CountTooLarge)
        } else {
            match read_binding_items(a, n as nat) {
                Err(e) => Err(e),
                Ok((bs, d1)) => match crate::ior::read_ior_wire(d1) {
                    Err(e) => Err(e),
                    Ok((w, d2)) => Ok((bs, w, d2)),
                },
            }
        }
    }
}

/// `bs` is what a lossy read of the binding octets `w` produces; a binding
/// type of 1 is a context.
pub open spec fn bindings_from_wire(bs: Seq<Binding>, w: Seq<(Seq<(Seq<u8>, Seq<u8>)>, u32)>) -> bool {
    &&& bs.len() == w.len()
    &&& forall|i: int|
        0 <= i < bs.len() ==> names_from_wire(names_view((#[trigger] bs[i]).name@), w[i].0)
            && bs[i].is_context == (w[i].1 == 1)
}

proof fn lemma_read_bindings_stop(d: DecoderView, i: nat, n: nat, e: CdrError)
    requires
        read_binding_items(d, i + 1) == Err::<(Seq<(Seq<(Seq<u8>, Seq<u8>)>, u32)>, DecoderView), CdrError>(e),
        i + 1 <= n,
    ensures
        read_binding_items(d, n) == Err::<(Seq<(Seq<(Seq<u8>, Seq<u8>)>, u32)>, DecoderView), CdrError>(e),
    decreases n,
{
    reveal(read_binding_items);
    if n > i + 1 {
        lemma_read_bindings_stop(d, i, (n - 1) as nat, e);
    }
}

/// One more binding read after `i`: where it ends, or why it fails.
proof fn lemma_binding_step(d0: DecoderView, i: nat, ws: Seq<(Seq<(Seq<u8>, Seq<u8>)>, u32)>, dd: DecoderView)
    requires
        read_binding_items(d0, i) == Ok::<(Seq<(Seq<(Seq<u8>, Seq<u8>)>, u32)>, DecoderView), CdrError>((ws, dd)),
    ensures
        read_binding_items(d0, i + 1) == (match read_name_wire(dd) {
            Err(e) => Err(e),
            Ok((w, d2)) => match d2.get_u32() {
                Err(e) => Err(e),
                Ok((t, d3)) => Ok((ws.push((w, t)), d3)),
            },
        }),
{
    reveal(read_binding_items);
    assert((i + 1 - 1) as nat == i);
}

/// The bindings and the iterator after the count.
pub open spec fn list_after_count(d0: DecoderView, n: nat) -> Result<
    (Seq<(Seq<(Seq<u8>, Seq<u8>)>, u32)>, crate::ior::IorWire, DecoderView),
    CdrError,
> {
    match read_binding_items(d0, n) {
        Err(e) => Err(e),
        Ok((bs, d1)) => match crate::ior::read_ior_wire(d1) {
            Err(e) => Err(e),
            Ok((w, d2)) => Ok((bs, w, d2)),
        },
    }
}

/// The body of a `list` reply, once its count has been read.
proof fn lemma_read_list(d: DecoderView, n: u32, d0: DecoderView)
    requires
        d.get_u32() == Ok::<(u32, DecoderView), CdrError>((n, d0)),
        d0.count_fits(n as int, 8),
    ensures
        read_list_wire(d) == list_after_count(d0, n as nat),
{
    reveal(read_list_wire);
}

/// Unmarshals a `list` reply body: the bindings, then the iterator.
#[verifier::spinoff_prover]
#[verifier::rlimit(40)]
pub fn read_bindings(d: &mut Decoder) -> (r: Result<(Vec<Binding>, Ior), Error>)
    ensures
        match read_list_wire(old(d)@) {
            Ok((bw, iw, after)) => r matches Ok((bs, it)) && bindings_from_wire(bs@, bw)
                && crate::ior::ior_from_wire(it@, iw) && final(d)@ == after,
            Err(e) => r matches Err(Error::Cdr(x)) && x == e,
        },
{
    proof {
        reveal(read_list_wire);
    }
    let count = match d.get_u32() {
        Ok(v) => v,
        Err(e) => return Err(Error::Cdr(e)),
    };
    let n = match d.validate_count(count, 8) {
        Ok(n) => n,
        Err(e) => return Err(Error::Cdr(e)),
    };
    let ghost d0 = d@;
    proof {
        lemma_read_list(old(d)@, count, d0);
        reveal(read_binding_items);
        assert(read_binding_items(d0, 0) == Ok::<(Seq<(Seq<(Seq<u8>, Seq<u8>)>, u32)>, DecoderView), CdrError>(
            (Seq::empty(), d0),
        ));
    }
    let ghost mut wires: Seq<(Seq<(Seq<u8>, Seq<u8>)>, u32)> = Seq::empty();
    let mut out: Vec<Binding> = Vec::new();
    let mut i: usize = 0;
    while i < n
        invariant
            i <= n,
            n == count,
            read_list_wire(old(d)@) == list_after_count(d0, n as nat),
            out@.len() == i,
            read_binding_items(d0, i as nat) == Ok::<(Seq<(Seq<(Seq<u8>, Seq<u8>)>, u32)>, DecoderView), CdrError>(
                (wires, d@),
            ),
            bindings_from_wire(out@, wires),
        decreases n - i,
    {
        let ghost before = d@;
        proof {
            lemma_binding_step(d0, i as nat, wires, before);
        }
        let name = match read_name(d) {
            Ok(v) => v,
            Err(e) => {
                proof {
                    let x = match e {
                        Error::Cdr(x) => x,
                        _ => CdrError::CountTooLarge,
                    };
                    lemma_read_bindings_stop(d0, i as nat, n as nat, x);
                }
                return Err(e);
            },
        };
        let ghost w = read_name_wire(before)->Ok_0.0;
        let t = match d.get_u32() {
            Ok(t) => t,
            Err(e) => {
                proof {
                    lemma_read_bindings_stop(d0, i as nat, n as nat, e);
                }
                return Err(Error::Cdr(e));
            },
        };
        let ghost prev = out@;
        let ghost prev_w = wires;
        out.push(Binding { name, is_context: t == 1 });
        proof {
            wires = wires.push((w, t));
            assert(out@ == prev.push(Binding { name, is_context: t == 1 }));
            assert forall|k: int| 0 <= k < out@.len() implies names_from_wire(
                names_view((#[trigger] out@[k]).name@),
                wires[k].0,
            ) && out@[k].is_context == (wires[k].1 == 1) by {
                if k < i {
                    assert(out@[k] == prev[k]);
                    assert(wires[k] == prev_w[k]);
                }
            }
        }
        i = i + 1;
    }
    let iterator = match Ior::read_from(d) {
        Ok(x) => x,
        Err(e) => return Err(e),
    };
    Ok((out, iterator))
}

// ─────────────────────────────────────────────────────────────────────────────
// Laws
// ─────────────────────────────────────────────────────────────────────────────

proof fn lemma_scan_concat(st: NameScan, a: Seq<char>, b: Seq<char>)
    ensures
        scan_from(st, a + b) == scan_from(scan_from(st, a), b),
    decreases b.len(),
{
    if b.len() == 0 {
        assert(a + b =~= a);
    } else {
        lemma_scan_concat(st, a, b.drop_last());
        assert((a + b).drop_last() =~= a + b.drop_last());
        assert((a + b).last() == b.last());
    }
}

proof fn lemma_scan_one(st: NameScan, c: char)
    ensures
        scan_from(st, seq![c]) == scan_step(st, c),
{
    assert(seq![c].drop_last() =~= Seq::<char>::empty());
    assert(scan_from(st, seq![c].drop_last()) == st);
}

/// Reading an escaped run appends exactly the run to the part being read.
proof fn lemma_scan_esc(st: NameScan, x: Seq<char>)
    requires
        !st.escaped,
    ensures
        scan_from(st, esc(x)).done == st.done,
        scan_from(st, esc(x)).in_kind == st.in_kind,
        !scan_from(st, esc(x)).escaped,
        scan_from(st, esc(x)).id == (if st.in_kind {
            st.id
        } else {
            st.id + x
        }),
        scan_from(st, esc(x)).kind == (if st.in_kind {
            st.kind + x
        } else {
            st.kind
        }),
    decreases x.len(),
{
    if x.len() == 0 {
        assert(esc(x) =~= Seq::<char>::empty());
        assert(scan_from(st, esc(x)) == st);
        assert(st.id + x =~= st.id);
        assert(st.kind + x =~= st.kind);
    } else {
        let c = x.last();
        let xs = x.drop_last();
        lemma_scan_esc(st, xs);
        let st1 = scan_from(st, esc(xs));
        let r = if name_special(c) {
            let piece = seq!['\\', c];
            assert(esc(x) == esc(xs) + piece);
            lemma_scan_concat(st, esc(xs), piece);
            assert(seq!['\\'] + seq![c] =~= piece);
            lemma_scan_concat(st1, seq!['\\'], seq![c]);
            lemma_scan_one(st1, '\\');
            let st2 = scan_step(st1, '\\');
            lemma_scan_one(st2, c);
            assert(scan_from(st, esc(x)) == scan_step(st2, c));
            scan_step(st2, c)
        } else {
            let piece = seq![c];
            assert(esc(x) =~= esc(xs) + piece);
            lemma_scan_concat(st, esc(xs), piece);
            lemma_scan_one(st1, c);
            assert(scan_from(st, esc(x)) == scan_step(st1, c));
            scan_step(st1, c)
        };
        assert(r.done == st.done);
        assert(r.in_kind == st.in_kind);
        if st.in_kind {
            assert((st.kind + xs).push(c) =~= st.kind + x);
            assert(r.kind == st.kind + x);
        } else {
            assert((st.id + xs).push(c) =~= st.id + x);
            assert(r.id == st.id + x);
        }
    }
}

proof fn lemma_esc_len(x: Seq<char>)
    ensures
        esc(x).len() >= x.len(),
    decreases x.len(),
{
    if x.len() > 0 {
        lemma_esc_len(x.drop_last());
    }
}

/// Reading one component's text from a fresh component state.
proof fn lemma_scan_component(st: NameScan, n: NameView)
    requires
        !st.escaped,
        !st.in_kind,
        st.id.len() == 0,
        st.kind.len() == 0,
    ensures
        scan_from(st, component_text(n)).done == st.done,
        scan_from(st, component_text(n)).id == n.id,
        scan_from(st, component_text(n)).kind == n.kind,
        !scan_from(st, component_text(n)).escaped,
{
    lemma_scan_esc(st, n.id);
    let st1 = scan_from(st, esc(n.id));
    assert(st.id + n.id =~= n.id);
    assert(st1.kind =~= n.kind || n.kind.len() > 0) by {
        assert(st1.kind == st.kind);
    }
    if n.kind.len() > 0 {
        lemma_scan_concat(st, esc(n.id), seq!['.']);
        lemma_scan_one(st1, '.');
        let st2 = scan_step(st1, '.');
        assert(scan_from(st, esc(n.id) + seq!['.']) == st2);
        lemma_scan_concat(st, esc(n.id) + seq!['.'], esc(n.kind));
        lemma_scan_esc(st2, n.kind);
        assert(st2.kind + n.kind =~= n.kind);
        assert(component_text(n) == esc(n.id) + seq!['.'] + esc(n.kind));
    }
}

proof fn lemma_scan_stringify(ns: Seq<NameView>)
    requires
        ns.len() >= 1,
    ensures
        scan_from(scan_start(), stringify(ns)).done == ns.drop_last(),
        scan_from(scan_start(), stringify(ns)).id == ns.last().id,
        scan_from(scan_start(), stringify(ns)).kind == ns.last().kind,
        !scan_from(scan_start(), stringify(ns)).escaped,
    decreases ns.len(),
{
    if ns.len() == 1 {
        lemma_scan_component(scan_start(), ns[0]);
        assert(ns.drop_last() =~= Seq::<NameView>::empty());
    } else {
        let init = ns.drop_last();
        lemma_scan_stringify(init);
        let st1 = scan_from(scan_start(), stringify(init));
        lemma_scan_concat(scan_start(), stringify(init), seq!['/']);
        lemma_scan_one(st1, '/');
        let st2 = scan_step(st1, '/');
        assert(scan_from(scan_start(), stringify(init) + seq!['/']) == st2);
        assert(st2.done == init.drop_last().push(NameView { id: init.last().id, kind: init.last().kind }));
        assert(init.drop_last().push(init.last()) =~= init);
        assert(st2.done =~= init);
        assert(st2.id.len() == 0);
        assert(st2.kind.len() == 0);
        assert(stringify(ns) == stringify(init) + seq!['/'] + component_text(ns.last()));
        lemma_scan_concat(scan_start(), stringify(init) + seq!['/'], component_text(ns.last()));
        lemma_scan_component(st2, ns.last());
    }
}

/// Reading the stringified form of a name gives back the name — for every
/// name but the single component with empty id and kind, whose text is the
/// empty text, which reads as the empty name.
pub proof fn law_stringified_name_round_trip(ns: Seq<NameView>)
    requires
        !(ns.len() == 1 && ns[0].id.len() == 0 && ns[0].kind.len() == 0),
    ensures
        name_spec(stringify(ns)) == Some(ns),
{
    if ns.len() == 0 {
        assert(stringify(ns) =~= Seq::<char>::empty());
    } else {
        lemma_scan_stringify(ns);
        if ns.len() == 1 {
            lemma_esc_len(ns[0].id);
            assert(stringify(ns).len() > 0);
        } else {
            assert(stringify(ns).len() > 0);
        }
        let st = scan_from(scan_start(), stringify(ns));
        assert(st.done.push(NameView { id: st.id, kind: st.kind }) =~= ns);
    }
}

/// Percent-escaping is undone by percent-decoding, octet for octet.
pub proof fn law_unescape_escape(b: Seq<u8>)
    ensures
        unescape_spec(escape_spec(b)) == Some(b),
    decreases b.len(),
{
    if b.len() == 0 {
        assert(escape_spec(b) =~= Seq::<u8>::empty());
    } else {
        law_unescape_escape(b.drop_first());
        let x = b[0];
        let rest = escape_spec(b.drop_first());
        let e = escape_spec(b);
        assert(e == escape_piece(x) + rest);
        if url_name_safe(x) {
            assert(x != 37);
            assert(e.drop_first() =~= rest);
            assert(seq![x] + b.drop_first() =~= b);
        } else {
            let hi = (x / 16) as u8;
            let lo = (x % 16) as u8;
            assert(hex_value(hex_digit(hi, true)) == Some(hi));
            assert(hex_value(hex_digit(lo, true)) == Some(lo));
            assert(hi * 16 + lo == x);
            assert(e.skip(3) =~= rest);
            assert(e[1] == hex_digit(hi, true));
            assert(e[2] == hex_digit(lo, true));
            assert(seq![x] + b.drop_first() =~= b);
        }
    }
}

/// What `to_url` hands back reads, through the URL parser, as a
/// `corbaname:` URL naming exactly what its name argument names.
pub proof fn law_to_url_reads_back(address: Seq<char>, name: Seq<char>)
    requires
        to_url_spec(address, name) is Ok,
    ensures
        url_spec(to_url_spec(address, name)->Ok_0) matches Ok(UrlView::Corbaname { name: back, .. })
            && Some(back) == (if name.len() == 0 {
            Some(Seq::<NameView>::empty())
        } else {
            name_spec(name)
        }),
{
}

} // verus!
