//! Interoperable Object References: IIOP profiles, their tagged components,
//! and the `IOR:<hex>` stringified form.
//!
//! [`Ior`] is the *dialing* view: reading one keeps `TAG_INTERNET_IOP`
//! profiles and drops every other tag. Anything that must preserve a
//! reference byte for byte works on [`crate::rewriting::RawIor`] instead.
//!
//! Two rules hold throughout. A profile's own fields are decoded strictly —
//! a decode failure is fatal rather than swallowed, because a cursor left
//! mid-string turns string content into a host and port nobody intended. A
//! component we do not understand is kept verbatim (§9.7.2), and a malformed
//! alternate address is skipped rather than fatal.

use vstd::prelude::*;

use crate::cdr::{
    encapsulation_start, open_encapsulation, CdrError, Decoder, DecoderView, Encoder, EncoderView,
    Endian,
};
use crate::giop::{BadIorReason, Error, Version, TAG_ALTERNATE_IIOP_ADDRESS, TAG_INTERNET_IOP};
use crate::text::{
    all_ascii, bytes_of, bytes_starts_with_ignore_case, hex_digit, hex_digit_of, hex_nibble,
    hex_value, lemma_ascii_valid_utf8, push_all, starts_with_ignore_case, string_from_utf8_lossy,
    string_of_utf8, trim, trim_chars,
};
use crate::cdr::{
    extends, holds, lemma_extends_trans, lemma_octets_extend, lemma_read_octets_at,
    lemma_read_str_at, lemma_read_u16_at, lemma_read_u32_at, lemma_read_u8_at, lemma_u32_extends,
    lossy_text_exact,
};

verus! {

/// A component attached to an IIOP profile, kept verbatim.
#[derive(Debug, Clone, PartialEq, Eq)]
pub struct TaggedComponent {
    /// Component identifier.
    pub tag: u32,
    /// Undecoded component body.
    pub data: Vec<u8>,
}

/// A component as values.
pub struct ComponentView {
    pub tag: u32,
    pub data: Seq<u8>,
}

impl View for TaggedComponent {
    type V = ComponentView;

    open spec fn view(&self) -> ComponentView {
        ComponentView { tag: self.tag, data: self.data@ }
    }
}

/// The parts of an IIOP profile needed to place a call.
#[derive(Debug, Clone, PartialEq, Eq)]
pub struct IiopProfile {
    /// IIOP version, which bounds the GIOP version we may speak.
    pub version: Version,
    /// Host to connect to, as advertised by the server.
    pub host: String,
    /// TCP port.
    pub port: u16,
    /// Opaque key identifying the servant behind the endpoint.
    pub object_key: Vec<u8>,
    /// Components, preserved whether or not we understand them.
    pub components: Vec<TaggedComponent>,
}

/// A profile as values.
pub struct ProfileView {
    pub version: Version,
    pub host: Seq<char>,
    pub port: u16,
    pub object_key: Seq<u8>,
    pub components: Seq<ComponentView>,
}

impl View for IiopProfile {
    type V = ProfileView;

    open spec fn view(&self) -> ProfileView {
        ProfileView {
            version: self.version,
            host: self.host@,
            port: self.port,
            object_key: self.object_key@,
            components: self.components@.map_values(|c: TaggedComponent| c@),
        }
    }
}

/// A parsed Interoperable Object Reference — the dialing view.
#[derive(Debug, Clone, PartialEq, Eq)]
pub struct Ior {
    /// Repository ID of the most-derived interface, empty for a nil reference.
    pub type_id: String,
    /// Every IIOP profile found, in order.
    pub profiles: Vec<IiopProfile>,
}

/// A reference as values.
pub struct IorView {
    pub type_id: Seq<char>,
    pub profiles: Seq<ProfileView>,
}

impl View for Ior {
    type V = IorView;

    open spec fn view(&self) -> IorView {
        IorView {
            type_id: self.type_id@,
            profiles: self.profiles@.map_values(|p: IiopProfile| p@),
        }
    }
}

// ─────────────────────────────────────────────────────────────────────────────
// Encoding
// ─────────────────────────────────────────────────────────────────────────────

/// Writes an already-built encapsulation as an octet sequence.
pub open spec fn put_encap(e: EncoderView, inner: EncoderView) -> EncoderView {
    if inner.ok {
        e.put_octet_seq(inner.bytes)
    } else {
        e.poison()
    }
}

/// The component list, written in order.
pub open spec fn put_components(e: EncoderView, cs: Seq<ComponentView>) -> EncoderView
    decreases cs.len(),
{
    if cs.len() == 0 {
        e
    } else {
        put_components(e, cs.drop_last()).put_u32(cs.last().tag).put_octet_seq(cs.last().data)
    }
}

/// A profile's encapsulation: version, host, port and key, then — from
/// IIOP 1.1 on, and only then — the counted component list.
#[verifier::opaque]
pub open spec fn profile_encoding(p: ProfileView, endian: Endian) -> EncoderView {
    let head = encapsulation_start(endian).put_u8(p.version.major).put_u8(p.version.minor).put_str(
        p.host,
    ).put_u16(p.port).put_octet_seq(p.object_key);
    if p.version.minor >= 1 {
        if p.components.len() > u32::MAX {
            head.poison()
        } else {
            put_components(head.put_u32(p.components.len() as u32), p.components)
        }
    } else {
        head
    }
}

/// The profiles of a reference, each tagged `TAG_INTERNET_IOP` and
/// encapsulated in the enclosing stream's byte order.
pub open spec fn put_profiles(e: EncoderView, ps: Seq<ProfileView>) -> EncoderView
    decreases ps.len(),
{
    if ps.len() == 0 {
        e
    } else {
        let before = put_profiles(e, ps.drop_last());
        put_encap(before.put_u32(TAG_INTERNET_IOP), profile_encoding(ps.last(), e.endian))
    }
}

/// A reference marshalled inline: type id, profile count, profiles.
pub open spec fn ior_encoding(e: EncoderView, ior: IorView) -> EncoderView {
    if ior.profiles.len() > u32::MAX {
        e.put_str(ior.type_id).poison()
    } else {
        put_profiles(e.put_str(ior.type_id).put_u32(ior.profiles.len() as u32), ior.profiles)
    }
}

// ─────────────────────────────────────────────────────────────────────────────
// Decoding
// ─────────────────────────────────────────────────────────────────────────────

/// A profile as its octets say it: the host still as octets.
pub struct ProfileWire {
    pub major: u8,
    pub minor: u8,
    pub host: Seq<u8>,
    pub port: u16,
    pub object_key: Seq<u8>,
    pub components: Seq<ComponentView>,
}

/// `n` components, read one after another.
pub open spec fn read_components(d: DecoderView, n: nat) -> Result<
    (Seq<ComponentView>, DecoderView),
    CdrError,
>
    decreases n,
{
    if n == 0 {
        Ok((Seq::empty(), d))
    } else {
        match read_components(d, (n - 1) as nat) {
            Ok((cs, d1)) => match d1.get_u32() {
                Ok((tag, d2)) => match d2.get_octet_seq() {
                    Ok((data, d3)) => Ok((cs.push(ComponentView { tag, data }), d3)),
                    Err(e) => Err(e),
                },
                Err(e) => Err(e),
            },
            Err(e) => Err(e),
        }
    }
}

/// The component list that follows a 1.1+ profile's key, when anything
/// follows it at all.
pub open spec fn read_component_list(d: DecoderView, minor: u8) -> Result<
    Seq<ComponentView>,
    CdrError,
> {
    if minor >= 1 && d.pos < d.bytes.len() {
        match d.get_u32() {
            Ok((n, d1)) => if !d1.count_fits(n as int, 8) {
                Err(CdrError::CountTooLarge)
            } else {
                match read_components(d1, n as nat) {
                    Ok((cs, _)) => Ok(cs),
                    Err(e) => Err(e),
                }
            },
            Err(e) => Err(e),
        }
    } else {
        Ok(Seq::empty())
    }
}

/// What a profile body decodes to.
pub open spec fn parse_profile_wire(body: Seq<u8>) -> Result<ProfileWire, CdrError> {
    match open_encapsulation(body) {
        Err(e) => Err(e),
        Ok(d0) => match d0.get_u8() {
            Err(e) => Err(e),
            Ok((major, d1)) => match d1.get_u8() {
                Err(e) => Err(e),
                Ok((minor, d2)) => match d2.get_string_bytes() {
                    Err(e) => Err(e),
                    Ok((host, d3)) => match d3.get_u16() {
                        Err(e) => Err(e),
                        Ok((port, d4)) => match d4.get_octet_seq() {
                            Err(e) => Err(e),
                            Ok((object_key, d5)) => match read_component_list(d5, minor) {
                                Err(e) => Err(e),
                                Ok(components) => Ok(
                                    ProfileWire { major, minor, host, port, object_key, components },
                                ),
                            },
                        },
                    },
                },
            },
        },
    }
}

/// `p` is what a lossy read of `w` produces.
pub open spec fn profile_from_wire(p: ProfileView, w: ProfileWire) -> bool {
    &&& p.version == (Version { major: w.major, minor: w.minor })
    &&& lossy_text_exact(w.host, p.host)
    &&& p.port == w.port
    &&& p.object_key == w.object_key
    &&& p.components == w.components
}

/// What an alternate-address component body decodes to.
pub open spec fn parse_alternate_wire(data: Seq<u8>) -> Result<(Seq<u8>, u16), CdrError> {
    match open_encapsulation(data) {
        Err(e) => Err(e),
        Ok(d0) => match d0.get_string_bytes() {
            Err(e) => Err(e),
            Ok((host, d1)) => match d1.get_u16() {
                Err(e) => Err(e),
                Ok((port, _)) => Ok((host, port)),
            },
        },
    }
}

/// The alternates a component list names, in component order, skipping
/// any that do not decode.
pub open spec fn alternate_endpoints(cs: Seq<ComponentView>) -> Seq<(Seq<u8>, u16)>
    decreases cs.len(),
{
    if cs.len() == 0 {
        Seq::empty()
    } else {
        let before = alternate_endpoints(cs.drop_last());
        let c = cs.last();
        if c.tag == TAG_ALTERNATE_IIOP_ADDRESS && parse_alternate_wire(c.data) is Ok {
            before.push(parse_alternate_wire(c.data)->Ok_0)
        } else {
            before
        }
    }
}

/// An endpoint list, as exec values, matching `wires` read lossily.
pub open spec fn endpoints_from_wire(es: Seq<(String, u16)>, wires: Seq<(Seq<u8>, u16)>) -> bool {
    &&& es.len() == wires.len()
    &&& forall|i: int|
        0 <= i < es.len() ==> lossy_text_exact(wires[i].0, (#[trigger] es[i]).0@) && es[i].1
            == wires[i].1
}

/// A reference as its octets say it.
pub struct IorWire {
    pub type_id: Seq<u8>,
    pub profiles: Seq<ProfileWire>,
}

/// `n` tagged profiles, keeping the IIOP ones decoded and dropping the rest.
pub open spec fn read_profiles(d: DecoderView, n: nat) -> Result<
    (Seq<ProfileWire>, DecoderView),
    CdrError,
>
    decreases n,
{
    if n == 0 {
        Ok((Seq::empty(), d))
    } else {
        match read_profiles(d, (n - 1) as nat) {
            Ok((ps, d1)) => match d1.get_u32() {
                Ok((tag, d2)) => match d2.get_octet_seq() {
                    Ok((body, d3)) => if tag == TAG_INTERNET_IOP {
                        match parse_profile_wire(body) {
                            Ok(p) => Ok((ps.push(p), d3)),
                            Err(e) => Err(e),
                        }
                    } else {
                        Ok((ps, d3))
                    },
                    Err(e) => Err(e),
                },
                Err(e) => Err(e),
            },
            Err(e) => Err(e),
        }
    }
}

/// A reference marshalled inline, and the decoder past it.
pub open spec fn read_ior_wire(d: DecoderView) -> Result<(IorWire, DecoderView), CdrError> {
    match d.get_string_bytes() {
        Err(e) => Err(e),
        Ok((type_id, d1)) => match d1.get_u32() {
            Err(e) => Err(e),
            Ok((n, d2)) => if !d2.count_fits(n as int, 8) {
                Err(CdrError::CountTooLarge)
            } else {
                match read_profiles(d2, n as nat) {
                    Err(e) => Err(e),
                    Ok((profiles, d3)) => Ok((IorWire { type_id, profiles }, d3)),
                }
            },
        },
    }
}

/// `ior` is what a lossy read of `w` produces.
pub open spec fn ior_from_wire(ior: IorView, w: IorWire) -> bool {
    &&& lossy_text_exact(w.type_id, ior.type_id)
    &&& ior.profiles.len() == w.profiles.len()
    &&& forall|i: int|
        0 <= i < ior.profiles.len() ==> profile_from_wire(
            #[trigger] ior.profiles[i],
            w.profiles[i],
        )
}

// ─────────────────────────────────────────────────────────────────────────────
// The stringified form
// ─────────────────────────────────────────────────────────────────────────────

/// `IOR:` as octets.
pub open spec fn ior_prefix() -> Seq<u8> {
    seq![73u8, 79u8, 82u8, 58u8]
}

/// Whether every octet is a hex digit.
pub open spec fn all_hex(h: Seq<u8>) -> bool {
    forall|i: int| 0 <= i < h.len() ==> hex_value(#[trigger] h[i]) is Some
}

/// The octets a run of hex digit pairs denotes.
pub open spec fn hex_decode(h: Seq<u8>) -> Seq<u8> {
    Seq::new(
        (h.len() / 2) as nat,
        |i: int| (hex_value(h[2 * i])->Some_0 * 16 + hex_value(h[2 * i + 1])->Some_0) as u8,
    )
}

/// The octets behind an `IOR:<hex>` text given as its (trimmed) octets.
pub open spec fn ior_hex_spec(t: Seq<u8>) -> Result<Seq<u8>, BadIorReason> {
    if !starts_with_ignore_case(t, ior_prefix()) {
        Err(BadIorReason::MissingPrefix)
    } else {
        let h = t.subrange(4, t.len() as int);
        if h.len() == 0 || h.len() % 2 != 0 {
            Err(BadIorReason::OddOrEmpty)
        } else if !all_hex(h) {
            Err(BadIorReason::NonHexDigit)
        } else {
            Ok(hex_decode(h))
        }
    }
}

/// Lower-case hex digits for `b`, two per octet.
pub open spec fn hex_encode(b: Seq<u8>) -> Seq<u8>
    decreases b.len(),
{
    if b.len() == 0 {
        Seq::empty()
    } else {
        hex_encode(b.drop_last()).push(hex_digit(b.last() / 16, false)).push(
            hex_digit(b.last() % 16, false),
        )
    }
}

/// The bytes behind an `IOR:<hex>` string, after trimming whitespace: the
/// prefix in any case, then an even, non-empty run of hex digits.
pub fn ior_hex_bytes(s: &str) -> (r: Result<Vec<u8>, Error>)
    ensures
        match ior_hex_spec(bytes_of(trim_chars(s@))) {
            Ok(b) => r matches Ok(v) && v@ == b,
            Err(why) => r matches Err(Error::BadIor(w)) && w == why,
        },
{
    let t = trim(s).as_bytes();
    let prefix: [u8; 4] = [73u8, 79u8, 82u8, 58u8];
    assert(prefix@ =~= ior_prefix());
    if !bytes_starts_with_ignore_case(t, &prefix) {
        return Err(Error::BadIor(BadIorReason::MissingPrefix));
    }
    let h = &t[4..t.len()];
    if h.len() == 0 || h.len() % 2 != 0 {
        return Err(Error::BadIor(BadIorReason::OddOrEmpty));
    }
    let mut out: Vec<u8> = Vec::new();
    let mut i: usize = 0;
    while i < h.len() / 2
        invariant
            ior_hex_spec(bytes_of(trim_chars(s@))) == (if all_hex(h@) {
                Ok::<Seq<u8>, BadIorReason>(hex_decode(h@))
            } else {
                Err(BadIorReason::NonHexDigit)
            }),
            h@.len() % 2 == 0,
            i <= h@.len() / 2,
            out@.len() == i,
            forall|j: int| 0 <= j < 2 * i ==> hex_value(#[trigger] h@[j]) is Some,
            forall|j: int|
                0 <= j < i ==> #[trigger] out@[j] == (hex_value(h@[2 * j])->Some_0 * 16
                    + hex_value(h@[2 * j + 1])->Some_0) as u8,
        decreases h@.len() / 2 - i,
    {
        let hi = match hex_nibble(h[2 * i]) {
            Some(v) => v,
            None => {
                assert(!all_hex(h@)) by {
                    assert(hex_value(h@[2 * i as int]) is None);
                }
                return Err(Error::BadIor(BadIorReason::NonHexDigit));
            },
        };
        let lo = match hex_nibble(h[2 * i + 1]) {
            Some(v) => v,
            None => {
                assert(!all_hex(h@)) by {
                    assert(hex_value(h@[2 * i + 1]) is None);
                }
                return Err(Error::BadIor(BadIorReason::NonHexDigit));
            },
        };
        out.push(hi * 16 + lo);
        i = i + 1;
    }
    assert(out@ =~= hex_decode(h@));
    Ok(out)
}

/// Appends the lower-case hex digits of `b` to `out`.
fn push_hex(out: &mut Vec<u8>, b: &[u8])
    ensures
        final(out)@ == old(out)@ + hex_encode(b@),
{
    let ghost start = out@;
    let mut i: usize = 0;
    while i < b.len()
        invariant
            i <= b@.len(),
            out@ == start + hex_encode(b@.subrange(0, i as int)),
            start == old(out)@,
        decreases b.len() - i,
    {
        let hi = hex_digit_of(b[i] / 16, false);
        let lo = hex_digit_of(b[i] % 16, false);
        out.push(hi);
        out.push(lo);
        proof {
            let s = b@.subrange(0, i + 1);
            assert(s.drop_last() =~= b@.subrange(0, i as int));
        }
        i = i + 1;
    }
    assert(b@.subrange(0, b@.len() as int) =~= b@);
}

pub proof fn lemma_hex_encode_ascii(b: Seq<u8>)
    ensures
        all_ascii(hex_encode(b)),
        hex_encode(b).len() == 2 * b.len(),
    decreases b.len(),
{
    if b.len() > 0 {
        lemma_hex_encode_ascii(b.drop_last());
    }
}

/// The `IOR:<hex>` string for an encapsulation, in lower-case hex.
pub fn hex_ior(bytes: &[u8]) -> (r: String)
    ensures
        bytes_of(r@) == ior_prefix() + hex_encode(bytes@),
{
    let mut out: Vec<u8> = Vec::new();
    out.push(73u8);
    out.push(79u8);
    out.push(82u8);
    out.push(58u8);
    assert(out@ =~= ior_prefix());
    push_hex(&mut out, bytes);
    proof {
        lemma_hex_encode_ascii(bytes@);
        assert(all_ascii(out@));
        lemma_ascii_valid_utf8(out@);
    }
    string_of_utf8(out)
}

// ─────────────────────────────────────────────────────────────────────────────
// Profiles
// ─────────────────────────────────────────────────────────────────────────────

/// Decodes an IIOP profile body.
pub fn parse_iiop_profile(body: &[u8]) -> (r: Result<IiopProfile, Error>)
    ensures
        match parse_profile_wire(body@) {
            Ok(w) => r matches Ok(p) && profile_from_wire(p@, w),
            Err(e) => r matches Err(Error::Cdr(x)) && x == e,
        },
{
    let mut d = match Decoder::encapsulation(body) {
        Ok(d) => d,
        Err(e) => return Err(Error::Cdr(e)),
    };
    let major = match d.get_u8() {
        Ok(v) => v,
        Err(e) => return Err(Error::Cdr(e)),
    };
    let minor = match d.get_u8() {
        Ok(v) => v,
        Err(e) => return Err(Error::Cdr(e)),
    };
    let host_bytes = match d.get_string_bytes() {
        Ok(v) => v,
        Err(e) => return Err(Error::Cdr(e)),
    };
    let host = string_from_utf8_lossy(host_bytes);
    let port = match d.get_u16() {
        Ok(v) => v,
        Err(e) => return Err(Error::Cdr(e)),
    };
    let key = match d.get_octet_seq() {
        Ok(v) => v,
        Err(e) => return Err(Error::Cdr(e)),
    };
    let mut object_key: Vec<u8> = Vec::new();
    push_all(&mut object_key, key);
    let components = match read_component_list_exec(&mut d, minor) {
        Ok(cs) => cs,
        Err(e) => return Err(Error::Cdr(e)),
    };
    Ok(IiopProfile { version: Version { major, minor }, host, port, object_key, components })
}

proof fn lemma_read_components_stop(d: DecoderView, i: nat, n: nat, e: CdrError)
    requires
        read_components(d, i + 1) == Err::<(Seq<ComponentView>, DecoderView), CdrError>(e),
        i + 1 <= n,
    ensures
        read_components(d, n) == Err::<(Seq<ComponentView>, DecoderView), CdrError>(e),
    decreases n,
{
    if n > i + 1 {
        lemma_read_components_stop(d, i, (n - 1) as nat, e);
    }
}

fn read_component_list_exec(d: &mut Decoder, minor: u8) -> (r: Result<
    Vec<TaggedComponent>,
    CdrError,
>)
    ensures
        match read_component_list(old(d)@, minor) {
            Ok(cs) => r matches Ok(v) && v@.map_values(|c: TaggedComponent| c@) == cs,
            Err(e) => r == Err::<Vec<TaggedComponent>, CdrError>(e),
        },
{
    let mut components: Vec<TaggedComponent> = Vec::new();
    if minor >= 1 && !d.is_empty() {
        let count = d.get_u32()?;
        let n = d.validate_count(count, 8)?;
        let ghost d1 = d@;
        assert(components@.map_values(|c: TaggedComponent| c@) =~= Seq::<ComponentView>::empty());
        let mut i: usize = 0;
        while i < n
            invariant
                i <= n,
                n == count,
                d1.count_fits(n as int, 8),
                read_component_list(old(d)@, minor) == (match read_components(d1, n as nat) {
                    Ok((cs, _)) => Ok::<Seq<ComponentView>, CdrError>(cs),
                    Err(e) => Err(e),
                }),
                read_components(d1, i as nat) == Ok::<(Seq<ComponentView>, DecoderView), CdrError>(
                    (components@.map_values(|c: TaggedComponent| c@), d@),
                ),
            decreases n - i,
        {
            let ghost before = components@;
            let tag = match d.get_u32() {
                Ok(t) => t,
                Err(e) => {
                    proof {
                        lemma_read_components_stop(d1, i as nat, n as nat, e);
                    }
                    return Err(e);
                },
            };
            let data = match d.get_octet_seq() {
                Ok(x) => x,
                Err(e) => {
                    proof {
                        lemma_read_components_stop(d1, i as nat, n as nat, e);
                    }
                    return Err(e);
                },
            };
            let mut owned: Vec<u8> = Vec::new();
            push_all(&mut owned, data);
            components.push(TaggedComponent { tag, data: owned });
            i = i + 1;
            assert(components@.map_values(|c: TaggedComponent| c@) =~= before.map_values(
                |c: TaggedComponent| c@,
            ).push(ComponentView { tag, data: data@ }));
        }
        Ok(components)
    } else {
        assert(components@.map_values(|c: TaggedComponent| c@) =~= Seq::<ComponentView>::empty());
        Ok(components)
    }
}

/// Decodes a `TAG_ALTERNATE_IIOP_ADDRESS` body: an encapsulated
/// `string host; unsigned short port;`.
pub fn parse_alternate_address(data: &[u8]) -> (r: Result<(String, u16), Error>)
    ensures
        match parse_alternate_wire(data@) {
            Ok((h, p)) => r matches Ok((host, port)) && lossy_text_exact(h, host@) && port == p,
            Err(e) => r matches Err(Error::Cdr(x)) && x == e,
        },
{
    let mut d = match Decoder::encapsulation(data) {
        Ok(d) => d,
        Err(e) => return Err(Error::Cdr(e)),
    };
    let h = match d.get_string_bytes() {
        Ok(v) => v,
        Err(e) => return Err(Error::Cdr(e)),
    };
    let host = string_from_utf8_lossy(h);
    let port = match d.get_u16() {
        Ok(v) => v,
        Err(e) => return Err(Error::Cdr(e)),
    };
    Ok((host, port))
}

impl IiopProfile {
    /// Every endpoint this profile names, in dial order: its own host and
    /// port first, then each parseable alternate-address component in
    /// component order. A malformed alternate is skipped: a bad hint must
    /// not kill a good address.
    pub fn endpoints(&self) -> (r: Vec<(String, u16)>)
        ensures
            r@.len() >= 1,
            r@[0].0@ == self.host@,
            r@[0].1 == self.port,
            endpoints_from_wire(
                r@.subrange(1, r@.len() as int),
                alternate_endpoints(self@.components),
            ),
    {
        let mut out: Vec<(String, u16)> = Vec::new();
        out.push((self.host.clone(), self.port));
        let mut i: usize = 0;
        while i < self.components.len()
            invariant
                i <= self.components@.len(),
                out@.len() >= 1,
                out@[0].0@ == self.host@,
                out@[0].1 == self.port,
                endpoints_from_wire(
                    out@.subrange(1, out@.len() as int),
                    alternate_endpoints(self@.components.subrange(0, i as int)),
                ),
            decreases self.components.len() - i,
        {
            let c = &self.components[i];
            let ghost prev = out@;
            proof {
                let s = self@.components.subrange(0, i + 1);
                assert(s.drop_last() =~= self@.components.subrange(0, i as int));
                assert(s.last() == c@);
            }
            if c.tag == TAG_ALTERNATE_IIOP_ADDRESS {
                match parse_alternate_address(c.data.as_slice()) {
                    Ok(ep) => {
                        out.push(ep);
                        proof {
                            let ws = alternate_endpoints(self@.components.subrange(0, i + 1));
                            let es = out@.subrange(1, out@.len() as int);
                            assert(es.drop_last() =~= prev.subrange(1, prev.len() as int));
                            assert forall|j: int| 0 <= j < es.len() implies lossy_text_exact(
                                ws[j].0,
                                (#[trigger] es[j]).0@,
                            ) && es[j].1 == ws[j].1 by {
                                if j < es.len() - 1 {
                                    assert(es[j] == prev.subrange(1, prev.len() as int)[j]);
                                }
                            }
                        }
                    },
                    Err(_) => {},
                }
            }
            i = i + 1;
        }
        assert(self@.components.subrange(0, self@.components.len() as int)
            =~= self@.components);
        out
    }

    /// Encodes this profile as the encapsulation an IOR carries. A 1.0
    /// profile carries no trailing data, so the component list is written
    /// only from 1.1 on.
    pub fn encapsulate(&self, endian: Endian) -> (r: Result<Encoder, Error>)
        ensures
            r matches Ok(e) && e@ == profile_encoding(self@, endian),
    {
        proof {
            reveal(profile_encoding);
        }
        let mut e = Encoder::encapsulation(endian);
        e.put_u8(self.version.major);
        e.put_u8(self.version.minor);
        e.put_str(self.host.as_str());
        e.put_u16(self.port);
        e.put_octet_seq(self.object_key.as_slice());
        if self.version.minor >= 1 {
            if self.components.len() > 0xFFFF_FFFFusize {
                e.poison_stream();
                return Ok(e);
            }
            e.put_u32(self.components.len() as u32);
            let ghost start = e@;
            let mut i: usize = 0;
            while i < self.components.len()
                invariant
                    i <= self.components@.len(),
                    e@ == put_components(start, self@.components.subrange(0, i as int)),
                decreases self.components.len() - i,
            {
                let c = &self.components[i];
                e.put_u32(c.tag);
                e.put_octet_seq(c.data.as_slice());
                proof {
                    let s = self@.components.subrange(0, i + 1);
                    assert(s.drop_last() =~= self@.components.subrange(0, i as int));
                }
                i = i + 1;
            }
            assert(self@.components.subrange(0, self@.components.len() as int)
                =~= self@.components);
        }
        Ok(e)
    }
}

// ─────────────────────────────────────────────────────────────────────────────
// References
// ─────────────────────────────────────────────────────────────────────────────

proof fn lemma_read_profiles_stop(d: DecoderView, i: nat, n: nat, e: CdrError)
    requires
        read_profiles(d, i + 1) == Err::<(Seq<ProfileWire>, DecoderView), CdrError>(e),
        i + 1 <= n,
    ensures
        read_profiles(d, n) == Err::<(Seq<ProfileWire>, DecoderView), CdrError>(e),
    decreases n,
{
    if n > i + 1 {
        lemma_read_profiles_stop(d, i, (n - 1) as nat, e);
    }
}

/// The `n` tagged profiles of a reference, decoded.
fn read_profiles_exec(d: &mut Decoder, n: usize) -> (r: Result<
    (Vec<IiopProfile>, Ghost<Seq<ProfileWire>>),
    CdrError,
>)
    ensures
        match read_profiles(old(d)@, n as nat) {
            Ok((ws, after)) => r matches Ok((ps, gw)) && gw@ == ws && final(d)@ == after
                && ps@.len() == ws.len() && forall|j: int|
                0 <= j < ps@.len() ==> profile_from_wire((#[trigger] ps@[j])@, ws[j]),
            Err(e) => r == Err::<(Vec<IiopProfile>, Ghost<Seq<ProfileWire>>), CdrError>(e),
        },
{
    let ghost d0 = d@;
    let mut profiles: Vec<IiopProfile> = Vec::new();
    let ghost mut wires: Seq<ProfileWire> = Seq::empty();
    let mut i: usize = 0;
    while i < n
        invariant
            i <= n,
            d0 == old(d)@,
            read_profiles(d0, i as nat) == Ok::<(Seq<ProfileWire>, DecoderView), CdrError>(
                (wires, d@),
            ),
            profiles@.len() == wires.len(),
            forall|j: int|
                0 <= j < profiles@.len() ==> profile_from_wire(
                    (#[trigger] profiles@[j])@,
                    wires[j],
                ),
        decreases n - i,
    {
        let tag = match d.get_u32() {
            Ok(v) => v,
            Err(e) => {
                proof {
                    lemma_read_profiles_stop(d0, i as nat, n as nat, e);
                }
                return Err(e);
            },
        };
        let body = match d.get_octet_seq() {
            Ok(v) => v,
            Err(e) => {
                proof {
                    lemma_read_profiles_stop(d0, i as nat, n as nat, e);
                }
                return Err(e);
            },
        };
        if tag == TAG_INTERNET_IOP {
            match parse_iiop_profile(body) {
                Ok(p) => {
                    proof {
                        let w = parse_profile_wire(body@)->Ok_0;
                        wires = wires.push(w);
                    }
                    profiles.push(p);
                },
                Err(err) => {
                    let ghost e = parse_profile_wire(body@)->Err_0;
                    proof {
                        lemma_read_profiles_stop(d0, i as nat, n as nat, e);
                    }
                    return match err {
                        Error::Cdr(x) => Err(x),
                        _ => Err(CdrError::Truncated),
                    };
                },
            }
        }
        i = i + 1;
    }
    Ok((profiles, Ghost(wires)))
}

impl Ior {
    /// Parses the `IOR:<hex>` stringified form. The prefix is matched in
    /// any case and surrounding whitespace is ignored.
    pub fn parse(s: &str) -> (r: Result<Ior, Error>)
        ensures
            match ior_hex_spec(bytes_of(trim_chars(s@))) {
                Err(why) => r matches Err(Error::BadIor(w)) && w == why,
                Ok(b) => match open_encapsulation(b) {
                    Err(e) => r matches Err(Error::Cdr(x)) && x == e,
                    Ok(d) => match read_ior_wire(d) {
                        Ok((w, _)) => r matches Ok(ior) && ior_from_wire(ior@, w),
                        Err(e) => r matches Err(Error::Cdr(x)) && x == e,
                    },
                },
            },
    {
        let bytes = ior_hex_bytes(s)?;
        Ior::from_encapsulation(bytes.as_slice())
    }

    /// Parses the CDR encapsulation a stringified IOR wraps.
    pub fn from_encapsulation(bytes: &[u8]) -> (r: Result<Ior, Error>)
        ensures
            match open_encapsulation(bytes@) {
                Err(e) => r matches Err(Error::Cdr(x)) && x == e,
                Ok(d) => match read_ior_wire(d) {
                    Ok((w, _)) => r matches Ok(ior) && ior_from_wire(ior@, w),
                    Err(e) => r matches Err(Error::Cdr(x)) && x == e,
                },
            },
    {
        let mut d = match Decoder::encapsulation(bytes) {
            Ok(d) => d,
            Err(e) => return Err(Error::Cdr(e)),
        };
        Ior::read_from(&mut d)
    }

    /// Reads a reference marshalled inline in an existing stream (§9.3.6):
    /// how a `LOCATION_FORWARD` body and every `Object` parameter arrive.
    pub fn read_from(d: &mut Decoder) -> (r: Result<Ior, Error>)
        ensures
            match read_ior_wire(old(d)@) {
                Ok((w, after)) => r matches Ok(ior) && ior_from_wire(ior@, w) && final(d)@ == after,
                Err(e) => r matches Err(Error::Cdr(x)) && x == e,
            },
    {
        let tb = match d.get_string_bytes() {
            Ok(b) => b,
            Err(e) => return Err(Error::Cdr(e)),
        };
        let type_id = string_from_utf8_lossy(tb);
        let count = match d.get_u32() {
            Ok(v) => v,
            Err(e) => return Err(Error::Cdr(e)),
        };
        let n = match d.validate_count(count, 8) {
            Ok(n) => n,
            Err(e) => return Err(Error::Cdr(e)),
        };
        let ghost d2 = d@;
        let (profiles, Ghost(wires)) = match read_profiles_exec(d, n) {
            Ok(x) => x,
            Err(e) => return Err(Error::Cdr(e)),
        };
        let ior = Ior { type_id, profiles };
        proof {
            assert forall|j: int| 0 <= j < ior@.profiles.len() implies profile_from_wire(
                #[trigger] ior@.profiles[j],
                wires[j],
            ) by {
                assert(ior@.profiles[j] == ior.profiles@[j]@);
            }
        }
        Ok(ior)
    }

    /// Whether this is the nil reference: no type and no profiles.
    pub fn is_nil(&self) -> (r: bool)
        ensures
            r == (self@.type_id.len() == 0 && self@.profiles.len() == 0),
    {
        self.type_id.as_str().is_empty() && self.profiles.len() == 0
    }

    /// Marshals this reference inline into an existing stream (§9.3.6),
    /// each profile encapsulated in that stream's byte order.
    pub fn write_to(&self, e: &mut Encoder) -> (r: Result<(), Error>)
        ensures
            r is Ok,
            final(e)@ == ior_encoding(old(e)@, self@),
    {
        e.put_str(self.type_id.as_str());
        if self.profiles.len() > 0xFFFF_FFFFusize {
            e.poison_stream();
            return Ok(());
        }
        e.put_u32(self.profiles.len() as u32);
        let ghost start = e@;
        let endian = e.endian();
        let mut i: usize = 0;
        while i < self.profiles.len()
            invariant
                i <= self.profiles@.len(),
                e@ == put_profiles(start, self@.profiles.subrange(0, i as int)),
                start.endian == old(e)@.endian,
                endian == start.endian,
            decreases self.profiles.len() - i,
        {
            let p = &self.profiles[i];
            e.put_u32(TAG_INTERNET_IOP);
            let inner = p.encapsulate(endian)?;
            e.put_encapsulation(inner);
            proof {
                let s = self@.profiles.subrange(0, i + 1);
                assert(s.drop_last() =~= self@.profiles.subrange(0, i as int));
                assert(s.last() == p@);
            }
            i = i + 1;
        }
        assert(self@.profiles.subrange(0, self@.profiles.len() as int) =~= self@.profiles);
        Ok(())
    }

    /// The `IOR:<hex>` stringified form, emitted little-endian.
    pub fn to_stringified(&self) -> (r: Result<String, Error>)
        ensures
            ior_encoding(encapsulation_start(Endian::Little), self@).ok ==> (r matches Ok(s)
                && bytes_of(s@) == ior_prefix() + hex_encode(
                ior_encoding(encapsulation_start(Endian::Little), self@).bytes,
            )),
            !ior_encoding(encapsulation_start(Endian::Little), self@).ok ==> r matches Err(
                Error::Cdr(CdrError::TooLong),
            ),
    {
        let mut e = Encoder::encapsulation(Endian::Little);
        self.write_to(&mut e)?;
        match e.finish() {
            Ok(bytes) => Ok(hex_ior(bytes.as_slice())),
            Err(x) => Err(Error::Cdr(x)),
        }
    }

    /// The first IIOP profile, which is the one dialed first.
    pub fn primary(&self) -> (r: Result<&IiopProfile, Error>)
        ensures
            self@.profiles.len() > 0 ==> (r matches Ok(p) && p@ == self@.profiles[0]),
            self@.profiles.len() == 0 ==> r matches Err(Error::NoIiopProfile),
    {
        if self.profiles.len() > 0 {
            Ok(&self.profiles[0])
        } else {
            Err(Error::NoIiopProfile)
        }
    }
}


impl TaggedComponent {
    /// A copy with the same tag and octets.
    pub fn duplicate(&self) -> (r: TaggedComponent)
        ensures
            r@ == self@,
    {
        let mut data: Vec<u8> = Vec::new();
        push_all(&mut data, self.data.as_slice());
        assert(data@ =~= self.data@);
        TaggedComponent { tag: self.tag, data }
    }
}

impl IiopProfile {
    /// Whether two profiles are the same value.
    pub fn same_as(&self, other: &IiopProfile) -> (r: bool)
        ensures
            r == (self@ == other@),
    {
        if self.version != other.version || self.port != other.port {
            return false;
        }
        let a = crate::chars::chars_of(self.host.as_str());
        let b = crate::chars::chars_of(other.host.as_str());
        if !crate::chars::slices_eq(a.as_slice(), b.as_slice()) {
            return false;
        }
        if !crate::text::bytes_eq(self.object_key.as_slice(), other.object_key.as_slice()) {
            return false;
        }
        if self.components.len() != other.components.len() {
            assert(self@.components.len() != other@.components.len());
            return false;
        }
        let mut i: usize = 0;
        while i < self.components.len()
            invariant
                i <= self.components@.len(),
                self.components@.len() == other.components@.len(),
                forall|k: int| 0 <= k < i ==> self@.components[k] == other@.components[k],
            decreases self.components.len() - i,
        {
            let c = &self.components[i];
            let d = &other.components[i];
            if c.tag != d.tag || !crate::text::bytes_eq(c.data.as_slice(), d.data.as_slice()) {
                assert(self@.components[i as int] != other@.components[i as int]);
                return false;
            }
            i = i + 1;
        }
        assert(self@.components =~= other@.components);
        true
    }

    /// A copy with the same fields.
    pub fn duplicate(&self) -> (r: IiopProfile)
        ensures
            r@ == self@,
    {
        let mut key: Vec<u8> = Vec::new();
        push_all(&mut key, self.object_key.as_slice());
        assert(key@ =~= self.object_key@);
        let mut cs: Vec<TaggedComponent> = Vec::new();
        let mut i: usize = 0;
        while i < self.components.len()
            invariant
                i <= self.components@.len(),
                cs@.map_values(|c: TaggedComponent| c@) == self@.components.take(i as int),
            decreases self.components.len() - i,
        {
            let ghost before = cs@.map_values(|c: TaggedComponent| c@);
            let c = self.components[i].duplicate();
            cs.push(c);
            assert(cs@.map_values(|c: TaggedComponent| c@) =~= before.push(c@));
            assert(self@.components.take(i + 1) =~= self@.components.take(i as int).push(c@));
            i = i + 1;
        }
        assert(self@.components.take(self@.components.len() as int) =~= self@.components);
        IiopProfile {
            version: self.version,
            host: self.host.clone(),
            port: self.port,
            object_key: key,
            components: cs,
        }
    }
}

impl Ior {
    /// Whether two references are the same value: type id, and every
    /// profile field for field.
    pub fn same_as(&self, other: &Ior) -> (r: bool)
        ensures
            r == (self@ == other@),
    {
        let a = crate::chars::chars_of(self.type_id.as_str());
        let b = crate::chars::chars_of(other.type_id.as_str());
        if !crate::chars::slices_eq(a.as_slice(), b.as_slice()) {
            return false;
        }
        if self.profiles.len() != other.profiles.len() {
            assert(self@.profiles.len() != other@.profiles.len());
            return false;
        }
        let mut i: usize = 0;
        while i < self.profiles.len()
            invariant
                i <= self.profiles@.len(),
                self.profiles@.len() == other.profiles@.len(),
                self@.type_id == other@.type_id,
                forall|k: int| 0 <= k < i ==> self@.profiles[k] == other@.profiles[k],
            decreases self.profiles.len() - i,
        {
            if !self.profiles[i].same_as(&other.profiles[i]) {
                assert(self@.profiles[i as int] != other@.profiles[i as int]);
                return false;
            }
            i = i + 1;
        }
        assert(self@.profiles =~= other@.profiles);
        true
    }

    /// A copy with the same type id and profiles.
    pub fn duplicate(&self) -> (r: Ior)
        ensures
            r@ == self@,
    {
        let mut ps: Vec<IiopProfile> = Vec::new();
        let mut i: usize = 0;
        while i < self.profiles.len()
            invariant
                i <= self.profiles@.len(),
                ps@.map_values(|p: IiopProfile| p@) == self@.profiles.take(i as int),
            decreases self.profiles.len() - i,
        {
            let ghost before = ps@.map_values(|p: IiopProfile| p@);
            let p = self.profiles[i].duplicate();
            ps.push(p);
            assert(ps@.map_values(|p: IiopProfile| p@) =~= before.push(p@));
            assert(self@.profiles.take(i + 1) =~= self@.profiles.take(i as int).push(p@));
            i = i + 1;
        }
        assert(self@.profiles.take(self@.profiles.len() as int) =~= self@.profiles);
        Ior { type_id: self.type_id.clone(), profiles: ps }
    }
}


/// The profile a lossy read of `w` produces.
pub open spec fn profile_of_wire(w: ProfileWire) -> ProfileView {
    ProfileView {
        version: Version { major: w.major, minor: w.minor },
        host: crate::text::lossy_text(w.host),
        port: w.port,
        object_key: w.object_key,
        components: w.components,
    }
}

/// The reference a lossy read of `w` produces.
pub open spec fn ior_of_wire(w: IorWire) -> IorView {
    IorView {
        type_id: crate::text::lossy_text(w.type_id),
        profiles: w.profiles.map_values(|p: ProfileWire| profile_of_wire(p)),
    }
}

/// A read that satisfies `ior_from_wire` produced exactly `ior_of_wire`.
pub proof fn lemma_ior_of_wire(v: IorView, w: IorWire)
    requires
        ior_from_wire(v, w),
    ensures
        v == ior_of_wire(w),
{
    assert forall|i: int| 0 <= i < v.profiles.len() implies #[trigger] v.profiles[i]
        == ior_of_wire(w).profiles[i] by {
        assert(profile_from_wire(v.profiles[i], w.profiles[i]));
    }
    assert(v.profiles =~= ior_of_wire(w).profiles);
}

/// What [`Ior::parse`] makes of a text.
pub open spec fn ior_text_spec(t: Seq<char>) -> Result<IorView, Error> {
    match ior_hex_spec(bytes_of(trim_chars(t))) {
        Err(why) => Err(Error::BadIor(why)),
        Ok(b) => match open_encapsulation(b) {
            Err(e) => Err(Error::Cdr(e)),
            Ok(d) => match read_ior_wire(d) {
                Ok((w, _)) => Ok(ior_of_wire(w)),
                Err(e) => Err(Error::Cdr(e)),
            },
        },
    }
}

/// Whether an exec result is the one `ior_text_spec` describes.
pub open spec fn ior_result_is(r: Result<Ior, Error>, s: Result<IorView, Error>) -> bool {
    match s {
        Ok(v) => r matches Ok(x) && x@ == v,
        Err(Error::BadIor(why)) => r matches Err(Error::BadIor(w)) && w == why,
        Err(Error::Cdr(c)) => r matches Err(Error::Cdr(x)) && x == c,
        Err(_) => false,
    }
}

/// [`Ior::parse`], stated as a function of the text.
pub fn parse_ior_text(s: &str) -> (r: Result<Ior, Error>)
    ensures
        ior_result_is(r, ior_text_spec(s@)),
{
    let r = Ior::parse(s);
    proof {
        if r is Ok {
            let x = r->Ok_0;
            let b = ior_hex_spec(bytes_of(trim_chars(s@)))->Ok_0;
            let d = open_encapsulation(b)->Ok_0;
            let w = read_ior_wire(d)->Ok_0.0;
            lemma_ior_of_wire(x@, w);
        }
    }
    r
}


// ─────────────────────────────────────────────────────────────────────────────
// Reading back what was written
// ─────────────────────────────────────────────────────────────────────────────

/// A profile whose encoding carries all of it: from IIOP 1.1 on, or with no
/// components (a 1.0 profile has nowhere to put them).
pub open spec fn carries_all(p: ProfileView) -> bool {
    p.version.minor >= 1 || p.components.len() == 0
}

/// What reading back `p`'s encoding finds: its host as UTF-8 octets, the
/// rest as it was.
pub open spec fn wire_of(p: ProfileView) -> ProfileWire {
    ProfileWire {
        major: p.version.major,
        minor: p.version.minor,
        host: crate::cdr::utf8(p.host),
        port: p.port,
        object_key: p.object_key,
        components: p.components,
    }
}

proof fn lemma_components_extend(e: EncoderView, cs: Seq<ComponentView>)
    ensures
        extends(e, put_components(e, cs)),
        put_components(e, cs).ok ==> put_components(e, cs).bytes.len() >= e.bytes.len() + 8
            * cs.len(),
    decreases cs.len(),
{
    if cs.len() == 0 {
        assert(e.bytes.subrange(0, e.bytes.len() as int) =~= e.bytes);
    } else {
        let m = put_components(e, cs.drop_last());
        let t = m.put_u32(cs.last().tag);
        lemma_components_extend(e, cs.drop_last());
        lemma_u32_extends(m, cs.last().tag);
        lemma_octets_extend(t, cs.last().data);
        lemma_extends_trans(m, t, put_components(e, cs));
        lemma_extends_trans(e, m, put_components(e, cs));
    }
}

proof fn lemma_components_read_back(e: EncoderView, cs: Seq<ComponentView>, d: DecoderView)
    requires
        holds(put_components(e, cs), d),
        d.pos == e.bytes.len(),
    ensures
        read_components(d, cs.len()) == Ok::<(Seq<ComponentView>, DecoderView), CdrError>(
            (cs, d.at(put_components(e, cs).bytes.len() as int)),
        ),
    decreases cs.len(),
{
    if cs.len() == 0 {
        assert(d.at(e.bytes.len() as int) =~= d);
        assert(cs =~= Seq::<ComponentView>::empty());
    } else {
        let dl = cs.drop_last();
        let c = cs.last();
        let m = put_components(e, dl);
        let t = m.put_u32(c.tag);
        let f = put_components(e, cs);
        lemma_components_extend(e, dl);
        crate::cdr::lemma_extends_refl(f);
        lemma_read_octets_at(t, c.data, f, d);
        lemma_read_u32_at(m, c.tag, f, d);
        lemma_extends_trans(e, m, f);
        assert(holds(m, d)) by {
            crate::cdr::lemma_reads_back_at(e, m, f, d);
        }
        lemma_components_read_back(e, dl, d);
        assert(dl.push(ComponentView { tag: c.tag, data: c.data }) =~= cs);
    }
}

/// A profile's encapsulation reads back as the profile.
pub proof fn lemma_profile_read_back(p: ProfileView, endian: Endian)
    requires
        profile_encoding(p, endian).ok,
        carries_all(p),
    ensures
        parse_profile_wire(profile_encoding(p, endian).bytes) == Ok::<ProfileWire, CdrError>(
            wire_of(p),
        ),
{
    if p.version.minor >= 1 {
        lemma_profile_read_back_with_components(p, endian);
    } else {
        lemma_profile_read_back_bare(p, endian);
    }
}

pub open spec fn profile_head(p: ProfileView, endian: Endian) -> EncoderView {
    encapsulation_start(endian).put_u8(p.version.major).put_u8(p.version.minor).put_str(
        p.host,
    ).put_u16(p.port).put_octet_seq(p.object_key)
}

proof fn lemma_open_profile(p: ProfileView, endian: Endian, f: EncoderView)
    requires
        extends(profile_head(p, endian), f),
        f.ok,
        f.origin == 0,
        f.endian == endian,
    ensures
        open_encapsulation(f.bytes) == Ok::<DecoderView, CdrError>(
            DecoderView { bytes: f.bytes, pos: 1, endian },
        ),
        holds(f, DecoderView { bytes: f.bytes, pos: 1, endian }),
{
    let d0 = DecoderView { bytes: f.bytes, pos: 1, endian };
    assert(f.bytes.subrange(0, f.bytes.len() as int) =~= f.bytes);
    crate::cdr::lemma_extends_refl(f);
    head_read_back(p, endian, f, d0);
    let e0 = encapsulation_start(endian);
    assert(f.bytes.subrange(0, 1) == e0.bytes);
    assert(f.bytes[0] == e0.bytes[0]);
}

#[verifier::spinoff_prover]
proof fn lemma_profile_read_back_bare(p: ProfileView, endian: Endian)
    requires
        profile_encoding(p, endian).ok,
        p.version.minor == 0,
        p.components.len() == 0,
    ensures
        parse_profile_wire(profile_encoding(p, endian).bytes) == Ok::<ProfileWire, CdrError>(
            wire_of(p),
        ),
{
    let f = profile_head(p, endian);
    assert(profile_encoding(p, endian) == f) by {
        reveal(profile_encoding);
    }
    crate::cdr::lemma_extends_refl(f);
    lemma_open_profile(p, endian, f);
    let d0 = DecoderView { bytes: f.bytes, pos: 1, endian };
    head_read_back(p, endian, f, d0);
    assert(p.components =~= Seq::<ComponentView>::empty());
}

#[verifier::spinoff_prover]
proof fn lemma_component_list_read_back(head: EncoderView, cs: Seq<ComponentView>, minor: u8, d0: DecoderView)
    requires
        minor >= 1,
        cs.len() <= u32::MAX,
        holds(put_components(head.put_u32(cs.len() as u32), cs), d0),
    ensures
        read_component_list(d0.at(head.bytes.len() as int), minor) == Ok::<
            Seq<ComponentView>,
            CdrError,
        >(cs),
{
    let n = cs.len() as u32;
    let c = head.put_u32(n);
    let f = put_components(c, cs);
    lemma_components_extend(c, cs);
    lemma_read_u32_at(head, n, f, d0);
    let d5 = d0.at(head.bytes.len() as int);
    let d6 = d0.at(c.bytes.len() as int);
    assert(d5.pos < d5.bytes.len());
    assert(d5.get_u32() == Ok::<(u32, DecoderView), CdrError>((n, d6)));
    assert(d6.count_fits(n as int, 8));
    lemma_components_read_back(c, cs, d6);
    assert(n as nat == cs.len());
}

#[verifier::spinoff_prover]
proof fn lemma_profile_read_back_with_components(p: ProfileView, endian: Endian)
    requires
        profile_encoding(p, endian).ok,
        p.version.minor >= 1,
    ensures
        parse_profile_wire(profile_encoding(p, endian).bytes) == Ok::<ProfileWire, CdrError>(
            wire_of(p),
        ),
{
    let head = profile_head(p, endian);
    assert(p.components.len() <= u32::MAX) by {
        reveal(profile_encoding);
    }
    let n = p.components.len() as u32;
    let c = head.put_u32(n);
    let f = put_components(c, p.components);
    assert(profile_encoding(p, endian) == f) by {
        reveal(profile_encoding);
    }
    lemma_components_extend(c, p.components);
    lemma_u32_extends(head, n);
    lemma_extends_trans(head, c, f);
    lemma_open_profile(p, endian, f);
    let d0 = DecoderView { bytes: f.bytes, pos: 1, endian };
    head_read_back(p, endian, f, d0);
    lemma_component_list_read_back(head, p.components, p.version.minor, d0);
}

/// The fixed fields of a profile's encapsulation read back.
proof fn head_read_back(p: ProfileView, endian: Endian, f: EncoderView, d0: DecoderView)
    requires
        extends(profile_head(p, endian), f),
        holds(f, d0),
        d0.pos == 1,
    ensures
        ({
            let e0 = encapsulation_start(endian);
            let e1 = e0.put_u8(p.version.major);
            let e2 = e1.put_u8(p.version.minor);
            let e3 = e2.put_str(p.host);
            let e4 = e3.put_u16(p.port);
            let head = e4.put_octet_seq(p.object_key);
            &&& extends(e0, f)
            &&& d0.get_u8() == Ok::<(u8, DecoderView), CdrError>(
                (p.version.major, d0.at(e1.bytes.len() as int)),
            )
            &&& d0.at(e1.bytes.len() as int).get_u8() == Ok::<(u8, DecoderView), CdrError>(
                (p.version.minor, d0.at(e2.bytes.len() as int)),
            )
            &&& d0.at(e2.bytes.len() as int).get_string_bytes() == Ok::<
                (Seq<u8>, DecoderView),
                CdrError,
            >((crate::cdr::utf8(p.host), d0.at(e3.bytes.len() as int)))
            &&& d0.at(e3.bytes.len() as int).get_u16() == Ok::<(u16, DecoderView), CdrError>(
                (p.port, d0.at(e4.bytes.len() as int)),
            )
            &&& d0.at(e4.bytes.len() as int).get_octet_seq() == Ok::<
                (Seq<u8>, DecoderView),
                CdrError,
            >((p.object_key, d0.at(head.bytes.len() as int)))
        }),
{
    let e0 = encapsulation_start(endian);
    let e1 = e0.put_u8(p.version.major);
    let e2 = e1.put_u8(p.version.minor);
    let e3 = e2.put_str(p.host);
    let e4 = e3.put_u16(p.port);
    lemma_read_octets_at(e4, p.object_key, f, d0);
    lemma_read_u16_at(e3, p.port, f, d0);
    lemma_read_str_at(e2, p.host, f, d0);
    lemma_read_u8_at(e1, p.version.minor, f, d0);
    lemma_read_u8_at(e0, p.version.major, f, d0);
    assert(d0.at(e0.bytes.len() as int) =~= d0);
}


proof fn lemma_profiles_extend(e: EncoderView, ps: Seq<ProfileView>)
    ensures
        extends(e, put_profiles(e, ps)),
        put_profiles(e, ps).ok ==> put_profiles(e, ps).bytes.len() >= e.bytes.len() + 8 * ps.len(),
    decreases ps.len(),
{
    if ps.len() == 0 {
        crate::cdr::lemma_extends_refl(e);
    } else {
        let m = put_profiles(e, ps.drop_last());
        let t = m.put_u32(TAG_INTERNET_IOP);
        let inner = profile_encoding(ps.last(), e.endian);
        lemma_profiles_extend(e, ps.drop_last());
        lemma_u32_extends(m, TAG_INTERNET_IOP);
        lemma_octets_extend(t, inner.bytes);
        lemma_extends_trans(m, t, put_profiles(e, ps));
        lemma_extends_trans(e, m, put_profiles(e, ps));
    }
}

/// One tagged profile written after `m` reads back there.
#[verifier::spinoff_prover]
proof fn lemma_profile_step(m: EncoderView, p: ProfileView, endian: Endian, f: EncoderView, d: DecoderView)
    requires
        f == put_encap(m.put_u32(TAG_INTERNET_IOP), profile_encoding(p, endian)),
        holds(f, d),
        carries_all(p),
    ensures
        extends(m, f),
        f.bytes.len() >= m.bytes.len() + 8,
        d.at(m.bytes.len() as int).get_u32() == Ok::<(u32, DecoderView), CdrError>(
            (TAG_INTERNET_IOP, d.at(m.put_u32(TAG_INTERNET_IOP).bytes.len() as int)),
        ),
        d.at(m.put_u32(TAG_INTERNET_IOP).bytes.len() as int).get_octet_seq() == Ok::<
            (Seq<u8>, DecoderView),
            CdrError,
        >((profile_encoding(p, endian).bytes, d.at(f.bytes.len() as int))),
        parse_profile_wire(profile_encoding(p, endian).bytes) == Ok::<ProfileWire, CdrError>(
            wire_of(p),
        ),
{
    let t = m.put_u32(TAG_INTERNET_IOP);
    let inner = profile_encoding(p, endian);
    assert(inner.ok);
    assert(f == t.put_octet_seq(inner.bytes));
    crate::cdr::lemma_extends_refl(f);
    lemma_read_octets_at(t, inner.bytes, f, d);
    lemma_read_u32_at(m, TAG_INTERNET_IOP, f, d);
    lemma_profile_read_back(p, endian);
}

#[verifier::spinoff_prover]
#[verifier::rlimit(40)]
proof fn lemma_profiles_read_back(e: EncoderView, ps: Seq<ProfileView>, d: DecoderView)
    requires
        holds(put_profiles(e, ps), d),
        d.pos == e.bytes.len(),
        forall|i: int| 0 <= i < ps.len() ==> carries_all(#[trigger] ps[i]),
    ensures
        read_profiles(d, ps.len()) == Ok::<(Seq<ProfileWire>, DecoderView), CdrError>(
            (ps.map_values(|p: ProfileView| wire_of(p)), d.at(put_profiles(e, ps).bytes.len() as int)),
        ),
    decreases ps.len(),
{
    if ps.len() == 0 {
        assert(d.at(e.bytes.len() as int) =~= d);
        assert(ps.map_values(|p: ProfileView| wire_of(p)) =~= Seq::<ProfileWire>::empty());
    } else {
        let dl = ps.drop_last();
        let last = ps.last();
        let m = put_profiles(e, dl);
        let f = put_profiles(e, ps);
        assert(carries_all(ps[ps.len() - 1]));
        lemma_profile_step(m, last, e.endian, f, d);
        lemma_profiles_extend(e, dl);
        lemma_extends_trans(e, m, f);
        assert(holds(m, d)) by {
            crate::cdr::lemma_reads_back_at(e, m, f, d);
        }
        assert forall|i: int| 0 <= i < dl.len() implies carries_all(#[trigger] dl[i]) by {
            assert(dl[i] == ps[i]);
        }
        lemma_profiles_read_back(e, dl, d);
        assert(dl.map_values(|p: ProfileView| wire_of(p)).push(wire_of(last)) =~= ps.map_values(
            |p: ProfileView| wire_of(p),
        ));
    }
}

/// A reference marshalled inline reads back as its wire form.
#[verifier::spinoff_prover]
pub proof fn lemma_ior_read_back(e: EncoderView, ior: IorView, d: DecoderView)
    requires
        holds(ior_encoding(e, ior), d),
        d.pos == e.bytes.len(),
        forall|i: int| 0 <= i < ior.profiles.len() ==> carries_all(#[trigger] ior.profiles[i]),
    ensures
        read_ior_wire(d) == Ok::<(IorWire, DecoderView), CdrError>(
            (
                IorWire {
                    type_id: crate::cdr::utf8(ior.type_id),
                    profiles: ior.profiles.map_values(|p: ProfileView| wire_of(p)),
                },
                d.at(ior_encoding(e, ior).bytes.len() as int),
            ),
        ),
{
    let f = ior_encoding(e, ior);
    assert(ior.profiles.len() <= u32::MAX);
    let n = ior.profiles.len() as u32;
    let a = e.put_str(ior.type_id);
    let c = a.put_u32(n);
    assert(f == put_profiles(c, ior.profiles));
    lemma_profiles_extend(c, ior.profiles);
    lemma_read_u32_at(a, n, f, d);
    lemma_read_str_at(e, ior.type_id, f, d);
    assert(d.at(e.bytes.len() as int) =~= d);
    let d2 = d.at(c.bytes.len() as int);
    assert(d2.count_fits(n as int, 8));
    assert(holds(f, d2));
    lemma_profiles_read_back(c, ior.profiles, d2);
    assert(n as nat == ior.profiles.len());
}

/// Reading a marshalled reference gives back the reference, whenever its
/// encoding carries all of it: a 1.0 profile has no room for components.
pub proof fn law_ior_marshal_round_trip(e: EncoderView, ior: IorView, d: DecoderView)
    requires
        holds(ior_encoding(e, ior), d),
        d.pos == e.bytes.len(),
        forall|i: int| 0 <= i < ior.profiles.len() ==> carries_all(#[trigger] ior.profiles[i]),
    ensures
        read_ior_wire(d) is Ok,
        ior_of_wire(read_ior_wire(d)->Ok_0.0) == ior,
{
    lemma_ior_read_back(e, ior, d);
    let w = read_ior_wire(d)->Ok_0.0;
    vstd::utf8::encode_utf8_valid_utf8(ior.type_id);
    vstd::utf8::encode_utf8_decode_utf8(ior.type_id);
    assert forall|i: int| 0 <= i < ior.profiles.len() implies #[trigger] ior_of_wire(w).profiles[i]
        == ior.profiles[i] by {
        let p = ior.profiles[i];
        vstd::utf8::encode_utf8_valid_utf8(p.host);
        vstd::utf8::encode_utf8_decode_utf8(p.host);
        assert(w.profiles[i] == wire_of(p));
        assert(profile_of_wire(wire_of(p)).version == p.version);
    }
    assert(ior_of_wire(w).profiles =~= ior.profiles);
}


/// Where each octet's two digits sit in its hex text.
proof fn lemma_hex_encode_index(b: Seq<u8>)
    ensures
        hex_encode(b).len() == 2 * b.len(),
        forall|i: int|
            0 <= i < b.len() ==> hex_encode(b)[2 * i] == hex_digit(#[trigger] b[i] / 16, false)
                && hex_encode(b)[2 * i + 1] == hex_digit(b[i] % 16, false),
    decreases b.len(),
{
    if b.len() > 0 {
        let dl = b.drop_last();
        lemma_hex_encode_index(dl);
        assert forall|i: int| 0 <= i < b.len() implies hex_encode(b)[2 * i] == hex_digit(
            #[trigger] b[i] / 16,
            false,
        ) && hex_encode(b)[2 * i + 1] == hex_digit(b[i] % 16, false) by {
            if i < b.len() - 1 {
                assert(b[i] == dl[i]);
            }
        }
    }
}

/// Hex text decodes back to the octets it was made of.
pub proof fn lemma_hex_round_trip(b: Seq<u8>)
    ensures
        all_hex(hex_encode(b)),
        hex_encode(b).len() == 2 * b.len(),
        hex_decode(hex_encode(b)) == b,
        forall|i: int|
            0 <= i < hex_encode(b).len() ==> (48 <= #[trigger] hex_encode(b)[i] <= 57 || 97
                <= hex_encode(b)[i] <= 102),
{
    lemma_hex_encode_index(b);
    let h = hex_encode(b);
    assert forall|i: int| 0 <= i < h.len() implies (48 <= #[trigger] h[i] <= 57 || 97 <= h[i]
        <= 102) && hex_value(h[i]) is Some by {
        let j = i / 2;
        assert(0 <= j < b.len());
        let x = b[j];
        assert(x / 16 < 16 && x % 16 < 16);
        if i % 2 == 0 {
            assert(i == 2 * j);
        } else {
            assert(i == 2 * j + 1);
        }
    }
    assert forall|i: int| 0 <= i < b.len() implies #[trigger] hex_decode(h)[i] == b[i] by {
        let x = b[i];
        assert(h[2 * i] == hex_digit(x / 16, false));
        assert(h[2 * i + 1] == hex_digit(x % 16, false));
        assert(x == (x / 16) * 16 + x % 16);
    }
    assert(hex_decode(h) =~= b);
}

/// The text whose octets are `IOR:` and hex digits is those characters,
/// with nothing to trim.
pub(crate) proof fn lemma_ior_text_chars(b: Seq<u8>, s: Seq<char>)
    requires
        b.len() >= 1,
        bytes_of(s) == ior_prefix() + hex_encode(b),
    ensures
        trim_chars(s) == s,
        s.len() >= 6,
        s.take(4) == seq!['I', 'O', 'R', ':'],
        !crate::text::is_whitespace(s.last()),
{
    let t = ior_prefix() + hex_encode(b);
    lemma_hex_round_trip(b);
    assert(all_ascii(t)) by {
        assert forall|i: int| 0 <= i < t.len() implies t[i] < 128 by {
            if i >= 4 {
                assert(t[i] == hex_encode(b)[i - 4]);
            }
        }
    }
    vstd::utf8::encode_utf8_decode_utf8(s);
    crate::chars::lemma_ascii_decode(t);
    assert(s == crate::chars::ascii_chars(t));
    assert(t.len() == 4 + 2 * b.len());
    assert(s[0] == t[0] as char);
    assert(s.last() == t.last() as char);
    assert(t.last() == hex_encode(b)[2 * b.len() - 1]);
    assert(!crate::text::is_whitespace(s[0]));
    assert(!crate::text::is_whitespace(s.last()));
    assert(s.take(4) =~= seq!['I', 'O', 'R', ':']);
}

/// The hex reader finds the octets the hex was made of.
pub(crate) proof fn lemma_ior_hex_bytes(b: Seq<u8>)
    requires
        b.len() >= 1,
    ensures
        ior_hex_spec(ior_prefix() + hex_encode(b)) == Ok::<Seq<u8>, BadIorReason>(b),
{
    let t = ior_prefix() + hex_encode(b);
    lemma_hex_round_trip(b);
    assert(t.subrange(0, 4) =~= ior_prefix());
    assert(t.subrange(4, t.len() as int) =~= hex_encode(b));
}

/// The stringified form of a reference reads back as the reference,
/// whenever its encoding carries all of it.
pub proof fn law_ior_text_round_trip(ior: IorView, s: Seq<char>)
    requires
        ior_encoding(encapsulation_start(Endian::Little), ior).ok,
        forall|i: int| 0 <= i < ior.profiles.len() ==> carries_all(#[trigger] ior.profiles[i]),
        bytes_of(s) == ior_prefix() + hex_encode(
            ior_encoding(encapsulation_start(Endian::Little), ior).bytes,
        ),
    ensures
        trim_chars(s) == s,
        ior_text_spec(s) == Ok::<IorView, Error>(ior),
        s.len() >= 4,
        s.take(4) == seq!['I', 'O', 'R', ':'],
{
    let e0 = encapsulation_start(Endian::Little);
    let f = ior_encoding(e0, ior);
    let b = f.bytes;
    lemma_ior_extends(e0, ior);
    assert(b.len() >= 1);
    lemma_ior_text_chars(b, s);
    lemma_ior_hex_bytes(b);
    assert(b.subrange(0, 1) == e0.bytes);
    assert(b[0] == b.subrange(0, 1)[0]);
    assert(e0.bytes[0] == crate::cdr::flag_of(Endian::Little));
    assert(b[0] == 1u8);
    let d0 = DecoderView { bytes: b, pos: 1, endian: Endian::Little };
    assert(open_encapsulation(b) == Ok::<DecoderView, CdrError>(d0));
    assert(holds(f, d0)) by {
        assert(b.subrange(0, b.len() as int) =~= b);
    }
    law_ior_marshal_round_trip(e0, ior, d0);
}

/// Writing a reference only appends.
pub proof fn lemma_ior_extends(e: EncoderView, ior: IorView)
    ensures
        extends(e, ior_encoding(e, ior)),
{
    let a = e.put_str(ior.type_id);
    crate::cdr::lemma_str_extends(e, ior.type_id);
    if ior.profiles.len() <= u32::MAX {
        let c = a.put_u32(ior.profiles.len() as u32);
        lemma_u32_extends(a, ior.profiles.len() as u32);
        lemma_profiles_extend(c, ior.profiles);
        lemma_extends_trans(a, c, ior_encoding(e, ior));
        lemma_extends_trans(e, a, ior_encoding(e, ior));
    }
}

proof fn lemma_ascii_scalar(c: char)
    requires
        (c as u32) < 128,
    ensures
        vstd::utf8::encode_scalar(c as u32) == seq![(c as u32) as u8],
{
    let v: u32 = c as u32;
    assert(v & 0x7F == v) by (bit_vector)
        requires
            v < 128,
    ;
}

/// Four characters that read as `IOR:` in any case encode as four ASCII
/// octets that read as the prefix in any case.
proof fn lemma_prefix_chars(p: Seq<char>)
    requires
        p.len() == 4,
        crate::chars::eq_ci(p, seq!['I', 'O', 'R', ':']),
    ensures
        bytes_of(p).len() == 4,
        crate::text::eq_ignore_case(bytes_of(p), ior_prefix()),
        (p[0] as u32) == 73 || (p[0] as u32) == 105,
        p == seq!['I', 'O', 'R', ':'] ==> bytes_of(p) == ior_prefix(),
{
    let t = seq!['I', 'O', 'R', ':'];
    assert forall|i: int| 0 <= i < 4 implies (p[i] as u32) < 128 && (#[trigger] p[i] as u32 == t[i] as u32
        || (p[i] as u32) + 32 == (t[i] as u32) + 32 && 65 <= (t[i] as u32) <= 90 || (p[i] as u32) == (t[i] as u32)
        + 32) by {
        assert(crate::chars::fold_case(p[i]) == crate::chars::fold_case(t[i]));
    }
    lemma_ascii_scalar(p[0]);
    lemma_ascii_scalar(p[1]);
    lemma_ascii_scalar(p[2]);
    lemma_ascii_scalar(p[3]);
    reveal_with_fuel(vstd::utf8::encode_utf8, 5);
    assert(p.drop_first().drop_first().drop_first().drop_first() =~= Seq::<char>::empty());
    let q = bytes_of(p);
    assert(q =~= seq![(p[0] as u32) as u8, (p[1] as u32) as u8, (p[2] as u32) as u8, (p[3] as u32) as u8]);
    assert forall|i: int| 0 <= i < 4 implies crate::text::lower(#[trigger] q[i]) == crate::text::lower(
        ior_prefix()[i],
    ) by {
        assert(crate::chars::fold_case(p[i]) == crate::chars::fold_case(t[i]));
    }
}

/// Whitespace around a text that neither starts nor ends with it is what
/// trimming takes away.
pub proof fn lemma_trim_around(lead: Seq<char>, core: Seq<char>, trail: Seq<char>)
    requires
        core.len() > 0,
        !crate::text::is_whitespace(core[0]),
        !crate::text::is_whitespace(core.last()),
        forall|i: int| 0 <= i < lead.len() ==> crate::text::is_whitespace(#[trigger] lead[i]),
        forall|i: int| 0 <= i < trail.len() ==> crate::text::is_whitespace(#[trigger] trail[i]),
    ensures
        trim_chars(lead + core + trail) == core,
    decreases lead.len() + trail.len(),
{
    let u = lead + core + trail;
    if lead.len() > 0 {
        assert(u[0] == lead[0]);
        assert(u.drop_first() =~= lead.drop_first() + core + trail);
        assert forall|i: int| 0 <= i < lead.drop_first().len() implies crate::text::is_whitespace(
            #[trigger] lead.drop_first()[i],
        ) by {
            assert(lead.drop_first()[i] == lead[i + 1]);
        }
        lemma_trim_around(lead.drop_first(), core, trail);
    } else if trail.len() > 0 {
        assert(u[0] == core[0]);
        assert(u.last() == trail.last());
        assert(u.drop_last() =~= lead + core + trail.drop_last());
        assert forall|i: int| 0 <= i < trail.drop_last().len() implies crate::text::is_whitespace(
            #[trigger] trail.drop_last()[i],
        ) by {
            assert(trail.drop_last()[i] == trail[i]);
        }
        lemma_trim_around(lead, core, trail.drop_last());
    } else {
        assert(u =~= core);
    }
}

/// The octets of the stringified form with its prefix in another case still
/// hold the same hex digits after a prefix that reads as `IOR:`.
#[verifier::spinoff_prover]
proof fn lemma_loose_hex(b: Seq<u8>, s: Seq<char>, p: Seq<char>)
    requires
        b.len() >= 1,
        bytes_of(s) == ior_prefix() + hex_encode(b),
        s.len() >= 4,
        s.take(4) == seq!['I', 'O', 'R', ':'],
        p.len() == 4,
        crate::chars::eq_ci(p, seq!['I', 'O', 'R', ':']),
    ensures
        ior_hex_spec(bytes_of(p + s.skip(4))) == Ok::<Seq<u8>, BadIorReason>(b),
{
    lemma_hex_round_trip(b);
    let rest = s.skip(4);
    lemma_prefix_chars(p);
    lemma_prefix_chars(s.take(4));
    assert(s =~= s.take(4) + rest);
    crate::chars::lemma_encode_concat(s.take(4), rest);
    crate::chars::lemma_encode_concat(p, rest);
    assert(bytes_of(rest) =~= hex_encode(b)) by {
        assert(bytes_of(s).subrange(4, bytes_of(s).len() as int) =~= bytes_of(rest));
        assert((ior_prefix() + hex_encode(b)).subrange(4, bytes_of(s).len() as int) =~= hex_encode(b));
    }
    let t = bytes_of(p + rest);
    assert(t =~= bytes_of(p) + hex_encode(b));
    assert(t.subrange(0, 4) =~= bytes_of(p));
    assert(starts_with_ignore_case(t, ior_prefix()));
    assert(t.subrange(4, t.len() as int) =~= hex_encode(b));
}

/// The stringified form of a reference still reads back as the reference
/// with whitespace around it and its `IOR:` prefix in any case.
#[verifier::spinoff_prover]
pub proof fn law_ior_text_reads_loosely(
    ior: IorView,
    s: Seq<char>,
    p: Seq<char>,
    lead: Seq<char>,
    trail: Seq<char>,
)
    requires
        ior_encoding(encapsulation_start(Endian::Little), ior).ok,
        forall|i: int| 0 <= i < ior.profiles.len() ==> carries_all(#[trigger] ior.profiles[i]),
        bytes_of(s) == ior_prefix() + hex_encode(
            ior_encoding(encapsulation_start(Endian::Little), ior).bytes,
        ),
        p.len() == 4,
        crate::chars::eq_ci(p, seq!['I', 'O', 'R', ':']),
        forall|i: int| 0 <= i < lead.len() ==> crate::text::is_whitespace(#[trigger] lead[i]),
        forall|i: int| 0 <= i < trail.len() ==> crate::text::is_whitespace(#[trigger] trail[i]),
    ensures
        trim_chars(lead + (p + s.skip(4)) + trail) == p + s.skip(4),
        trim_chars(p + s.skip(4)) == p + s.skip(4),
        (p + s.skip(4)).take(4) == p,
        ior_text_spec(lead + (p + s.skip(4)) + trail) == Ok::<IorView, Error>(ior),
        ior_text_spec(p + s.skip(4)) == Ok::<IorView, Error>(ior),
{
    let e0 = encapsulation_start(Endian::Little);
    let b = ior_encoding(e0, ior).bytes;
    lemma_ior_extends(e0, ior);
    law_ior_text_round_trip(ior, s);
    lemma_ior_text_chars(b, s);
    lemma_ior_hex_bytes(b);
    let v = p + s.skip(4);
    lemma_prefix_chars(p);
    assert(v[0] == p[0]);
    assert(v.last() == s.last());
    lemma_trim_around(lead, v, trail);
    lemma_trim_around(Seq::<char>::empty(), v, Seq::<char>::empty());
    assert(Seq::<char>::empty() + v + Seq::<char>::empty() =~= v);
    assert(v.take(4) =~= p);
    lemma_loose_hex(b, s, p);
    assert(ior_hex_spec(bytes_of(trim_chars(s))) == Ok::<Seq<u8>, BadIorReason>(b));
}

} // verus!
