//! Code sets (§7.10.2): the component a server publishes in its profiles
//! (§7.10.2.4), which transmission code sets it speaks for `char` and
//! `wchar` — a profile without one declares no `wchar` support, and a
//! conformant client then refuses to marshal a `wstring` to it — and the
//! `char` code set a client agrees with a profile (§7.10.2.6), which is
//! per connection and so part of a pooled connection's key.

use vstd::prelude::*;

use crate::cdr::{encapsulation_start, open_encapsulation, CdrError, Decoder, DecoderView, Encoder, Endian};
use crate::giop::Error;
use crate::message::{ContextView, ServiceContext};
use crate::ior::{ComponentView, IiopProfile, ProfileView, TaggedComponent};

verus! {

/// `IOP::TAG_CODE_SETS`: the tag of a `CodeSetComponentInfo`.
pub const TAG_CODE_SETS: u32 = 1;

/// OSF registry id of UTF-8, the native `char` code set served here.
pub const UTF_8: u32 = 0x0501_0001;

/// OSF registry id of UTF-16, the native `wchar` code set served here.
pub const UTF_16: u32 = 0x0001_0109;

/// OSF registry id of ISO-8859-1, §7.10.2.5's `char` default and the one
/// code set this client converts to besides its native UTF-8.
pub const ISO_8859_1: u32 = 0x0001_0001;

/// `IOP::CodeSets`: the service context that carries a connection's
/// agreed code sets on its first request.
pub const SERVICE_ID_CODE_SETS: u32 = 1;

/// The big-endian octets of `v`.
pub open spec fn be_octets(v: u32) -> Seq<u8> {
    seq![(v / 0x100_0000) as u8, ((v / 0x1_0000) % 0x100) as u8, ((v / 0x100) % 0x100) as u8, (v % 0x100) as u8]
}

/// The body of the component: a big-endian encapsulation of
/// `CodeSetComponentInfo` with UTF-8 native for `char`, UTF-16 native for
/// `wchar`, and no conversion code sets for either.
pub open spec fn server_code_sets() -> Seq<u8> {
    seq![0u8, 0u8, 0u8, 0u8] + be_octets(UTF_8) + be_octets(0) + be_octets(UTF_16) + be_octets(0)
}

/// The component itself.
pub open spec fn server_component_spec() -> ComponentView {
    ComponentView { tag: TAG_CODE_SETS, data: server_code_sets() }
}

/// The code-set component this crate's servers publish.
pub fn server_component() -> (r: TaggedComponent)
    ensures
        r@ == server_component_spec(),
{
    let data: Vec<u8> = vec![
        0u8, 0u8, 0u8, 0u8,
        0x05u8, 0x01u8, 0x00u8, 0x01u8,
        0u8, 0u8, 0u8, 0u8,
        0x00u8, 0x01u8, 0x01u8, 0x09u8,
        0u8, 0u8, 0u8, 0u8,
    ];
    assert(data@ =~= server_code_sets());
    TaggedComponent { tag: TAG_CODE_SETS, data }
}

// ─────────────────────────────────────────────────────────────────────────────
// Negotiation (§7.10.2.6)
// ─────────────────────────────────────────────────────────────────────────────

/// `n` code set ids, each an `unsigned long`.
pub open spec fn read_ids(d: DecoderView, n: nat) -> Result<(Seq<u32>, DecoderView), CdrError>
    decreases n,
{
    if n == 0 {
        Ok((Seq::empty(), d))
    } else {
        match read_ids(d, (n - 1) as nat) {
            Err(e) => Err(e),
            Ok((ids, d1)) => match d1.get_u32() {
                Err(e) => Err(e),
                Ok((v, d2)) => Ok((ids.push(v), d2)),
            },
        }
    }
}

/// One `CodeSetComponent`: the native code set, then the conversion code
/// sets as a sequence.
pub open spec fn read_code_set_component(d: DecoderView) -> Result<((u32, Seq<u32>), DecoderView), CdrError> {
    match d.get_u32() {
        Err(e) => Err(e),
        Ok((native, d1)) => match d1.get_u32() {
            Err(e) => Err(e),
            Ok((n, d2)) => if !d2.count_fits(n as int, 4) {
                Err(CdrError::CountTooLarge)
            } else {
                match read_ids(d2, n as nat) {
                    Err(e) => Err(e),
                    Ok((conv, d3)) => Ok(((native, conv), d3)),
                }
            },
        },
    }
}

/// The `char` half of a `TAG_CODE_SETS` body — an encapsulated
/// `CodeSetComponentInfo`, whose `wchar` half must read too — or `None`
/// when the body does not read.
pub open spec fn char_code_sets(data: Seq<u8>) -> Option<(u32, Seq<u32>)> {
    match open_encapsulation(data) {
        Err(_) => None,
        Ok(d) => match read_code_set_component(d) {
            Err(_) => None,
            Ok((for_char, d1)) => match read_code_set_component(d1) {
                Err(_) => None,
                Ok(_) => Some(for_char),
            },
        },
    }
}

/// §7.10.2.6 for `char`, with this client's component — native UTF-8,
/// converting to ISO-8859-1 — against a server's: the native code sets if
/// they match; else the client's native one if the server converts to it;
/// else the server's native one if the client converts to it; else a
/// conversion code set both name; else nothing in common (`None`).
pub open spec fn negotiate_char(native: u32, conversions: Seq<u32>) -> Option<u32> {
    if native == UTF_8 {
        Some(UTF_8)
    } else if conversions.contains(UTF_8) {
        Some(UTF_8)
    } else if native == ISO_8859_1 {
        Some(ISO_8859_1)
    } else if conversions.contains(ISO_8859_1) {
        Some(ISO_8859_1)
    } else {
        None
    }
}

/// What negotiation produced for `char` against one profile.
#[derive(Debug, Clone, Copy, PartialEq, Eq, Structural)]
pub enum CharCodeset {
    /// The profile publishes no readable `TAG_CODE_SETS`; §7.10.2.5's
    /// default (ISO-8859-1) stands and no context is sent.
    Unspecified,
    /// A code set both sides accept.
    Agreed(u32),
    /// The profile publishes a component and nothing in it is acceptable
    /// to both sides.
    Incompatible,
}

/// The outcome for a profile's components: each readable `TAG_CODE_SETS`
/// component decides in turn, so the last one stands; one that does not
/// read is passed over.
pub open spec fn char_codeset_of(cs: Seq<ComponentView>) -> CharCodeset
    decreases cs.len(),
{
    if cs.len() == 0 {
        CharCodeset::Unspecified
    } else if cs.last().tag == TAG_CODE_SETS && char_code_sets(cs.last().data) is Some {
        let (native, conv) = char_code_sets(cs.last().data)->Some_0;
        match negotiate_char(native, conv) {
            Some(id) => CharCodeset::Agreed(id),
            None => CharCodeset::Incompatible,
        }
    } else {
        char_codeset_of(cs.drop_last())
    }
}

/// The code set agreed with a profile, `None` when nothing was.
pub open spec fn agreed_char_codeset(p: ProfileView) -> Option<u32> {
    match char_codeset_of(p.components) {
        CharCodeset::Agreed(id) => Some(id),
        _ => None,
    }
}

proof fn lemma_read_ids_stop(d: DecoderView, i: nat, n: nat, e: CdrError)
    requires
        read_ids(d, i + 1) == Err::<(Seq<u32>, DecoderView), CdrError>(e),
        i + 1 <= n,
    ensures
        read_ids(d, n) == Err::<(Seq<u32>, DecoderView), CdrError>(e),
    decreases n,
{
    if n > i + 1 {
        lemma_read_ids_stop(d, i, (n - 1) as nat, e);
    }
}

fn read_component(d: &mut Decoder) -> (r: Option<(u32, Vec<u32>)>)
    ensures
        match read_code_set_component(old(d)@) {
            Ok(((native, conv), after)) => r matches Some((x, v)) && x == native && v@ == conv
                && final(d)@ == after,
            Err(_) => r is None,
        },
{
    let native = match d.get_u32() {
        Ok(v) => v,
        Err(_) => return None,
    };
    let count = match d.get_u32() {
        Ok(v) => v,
        Err(_) => return None,
    };
    let n = match d.validate_count(count, 4) {
        Ok(n) => n,
        Err(_) => return None,
    };
    let ghost d0 = d@;
    let mut conv: Vec<u32> = Vec::new();
    let mut i: usize = 0;
    while i < n
        invariant
            i <= n,
            n == count,
            d0.count_fits(n as int, 4),
            read_code_set_component(old(d)@) == match read_ids(d0, n as nat) {
                Err(e) => Err(e),
                Ok((c, d3)) => Ok(((native, c), d3)),
            },
            read_ids(d0, i as nat) == Ok::<(Seq<u32>, DecoderView), CdrError>((conv@, d@)),
        decreases n - i,
    {
        let v = match d.get_u32() {
            Ok(v) => v,
            Err(e) => {
                proof {
                    lemma_read_ids_stop(d0, i as nat, n as nat, e);
                }
                return None;
            },
        };
        conv.push(v);
        i = i + 1;
    }
    Some((native, conv))
}

/// Reads the `char` half of a `TAG_CODE_SETS` body.
pub fn parse_char_code_sets(data: &[u8]) -> (r: Option<(u32, Vec<u32>)>)
    ensures
        match char_code_sets(data@) {
            Some((native, conv)) => r matches Some((x, v)) && x == native && v@ == conv,
            None => r is None,
        },
{
    let mut d = match Decoder::encapsulation(data) {
        Ok(d) => d,
        Err(_) => return None,
    };
    let for_char = match read_component(&mut d) {
        Some(c) => c,
        None => return None,
    };
    match read_component(&mut d) {
        Some(_) => Some(for_char),
        None => None,
    }
}

fn contains_id(v: &Vec<u32>, id: u32) -> (r: bool)
    ensures
        r == v@.contains(id),
{
    let mut i: usize = 0;
    while i < v.len()
        invariant
            i <= v@.len(),
            forall|j: int| 0 <= j < i ==> v@[j] != id,
        decreases v.len() - i,
    {
        if v[i] == id {
            assert(v@[i as int] == id);
            return true;
        }
        i = i + 1;
    }
    false
}

/// §7.10.2.6 for `char` against a server's native and conversion code sets.
pub fn negotiate(native: u32, conversions: &Vec<u32>) -> (r: Option<u32>)
    ensures
        r == negotiate_char(native, conversions@),
{
    if native == UTF_8 {
        Some(UTF_8)
    } else if contains_id(conversions, UTF_8) {
        Some(UTF_8)
    } else if native == ISO_8859_1 {
        Some(ISO_8859_1)
    } else if contains_id(conversions, ISO_8859_1) {
        Some(ISO_8859_1)
    } else {
        None
    }
}

/// The `char` code set a connection to `p` would negotiate.
pub fn negotiated_char_codeset(p: &IiopProfile) -> (r: CharCodeset)
    ensures
        r == char_codeset_of(p@.components),
{
    let ghost cs = p@.components;
    let mut out = CharCodeset::Unspecified;
    let mut i: usize = 0;
    assert(cs.take(0) =~= Seq::<ComponentView>::empty());
    while i < p.components.len()
        invariant
            i <= cs.len(),
            cs == p@.components,
            out == char_codeset_of(cs.take(i as int)),
        decreases p.components.len() - i,
    {
        let c = &p.components[i];
        proof {
            assert(cs[i as int] == c@);
            assert(cs.take(i + 1).drop_last() =~= cs.take(i as int));
            assert(cs.take(i + 1).last() == c@);
        }
        if c.tag == TAG_CODE_SETS {
            match parse_char_code_sets(c.data.as_slice()) {
                Some((native, conv)) => {
                    out = match negotiate(native, &conv) {
                        Some(id) => CharCodeset::Agreed(id),
                        None => CharCodeset::Incompatible,
                    };
                },
                None => {},
            }
        }
        i = i + 1;
    }
    assert(cs.take(cs.len() as int) =~= cs);
    out
}

/// The code set agreed with `p`, `None` when nothing was.
pub fn agreed_codeset(p: &IiopProfile) -> (r: Option<u32>)
    ensures
        r == agreed_char_codeset(p@),
{
    match negotiated_char_codeset(p) {
        CharCodeset::Agreed(id) => Some(id),
        _ => None,
    }
}

// ─────────────────────────────────────────────────────────────────────────────
// What a connection does with the agreement
// ─────────────────────────────────────────────────────────────────────────────

/// Whether a request may go out under `cs`: with nothing agreed §7.10.2.5's
/// default stands; nothing in common refuses; an agreed UTF-8 is what this
/// crate's writers emit; any other agreement goes out only when the caller
/// has undertaken to convert.
pub open spec fn may_send_spec(cs: CharCodeset, caller_converts: bool) -> Result<(), Error> {
    match cs {
        CharCodeset::Unspecified => Ok(()),
        CharCodeset::Incompatible => Err(Error::CodesetIncompatible),
        CharCodeset::Agreed(id) => if id == UTF_8 || caller_converts {
            Ok(())
        } else {
            Err(Error::CodesetNotApplied { negotiated: id })
        },
    }
}

/// Checks a request against the agreement before anything is written.
pub fn may_send(cs: CharCodeset, caller_converts: bool) -> (r: Result<(), Error>)
    ensures
        r == may_send_spec(cs, caller_converts),
{
    match cs {
        CharCodeset::Unspecified => Ok(()),
        CharCodeset::Incompatible => Err(Error::CodesetIncompatible),
        CharCodeset::Agreed(id) => {
            if id == UTF_8 || caller_converts {
                Ok(())
            } else {
                Err(Error::CodesetNotApplied { negotiated: id })
            }
        },
    }
}

/// The body of a `CodeSets` context: an encapsulated `CodeSetContext`, the
/// agreed `char` code set and UTF-16 for `wchar`.
pub open spec fn context_body(char_data: u32, endian: Endian) -> Seq<u8> {
    encapsulation_start(endian).put_u32(char_data).put_u32(UTF_16).bytes
}

/// The contexts the first request on a connection carries: the `CodeSets`
/// context when it is this request's turn to announce an agreement, and
/// nothing otherwise — nothing agreed, or announced already.
pub open spec fn first_request_contexts(my_turn: bool, cs: CharCodeset, endian: Endian) -> Seq<ContextView> {
    match cs {
        CharCodeset::Agreed(id) => if my_turn {
            seq![ContextView { id: SERVICE_ID_CODE_SETS, data: context_body(id, endian) }]
        } else {
            Seq::empty()
        },
        _ => Seq::empty(),
    }
}

/// The service contexts a request carries for the code sets.
pub fn request_contexts(my_turn: bool, cs: CharCodeset, endian: Endian) -> (r: Vec<ServiceContext>)
    ensures
        r@.map_values(|c: ServiceContext| c@) == first_request_contexts(my_turn, cs, endian),
{
    let mut out: Vec<ServiceContext> = Vec::new();
    match cs {
        CharCodeset::Agreed(id) => {
            if my_turn {
                let mut e = Encoder::encapsulation(endian);
                e.put_u32(id);
                e.put_u32(UTF_16);
                let mut data: Vec<u8> = Vec::new();
                crate::text::push_all(&mut data, e.as_bytes());
                let c = ServiceContext { id: SERVICE_ID_CODE_SETS, data };
                let ghost cv = c@;
                out.push(c);
                assert(out@.map_values(|c: ServiceContext| c@) =~= seq![cv]);
            }
        },
        _ => {},
    }
    if out.len() == 0 {
        assert(out@.map_values(|c: ServiceContext| c@) =~= Seq::<ContextView>::empty());
    }
    out
}

/// The `char` code set strings travel in: the one agreed, else
/// §7.10.2.5's ISO-8859-1.
pub open spec fn transmission_spec(cs: CharCodeset) -> u32 {
    match cs {
        CharCodeset::Agreed(id) => id,
        _ => ISO_8859_1,
    }
}

/// The `char` code set strings travel in on a connection under `cs`.
pub fn transmission_code_set(cs: CharCodeset) -> (r: u32)
    ensures
        r == transmission_spec(cs),
{
    match cs {
        CharCodeset::Agreed(id) => id,
        _ => ISO_8859_1,
    }
}

/// The code set a caller that undertakes to convert converts to: the one
/// agreed, §7.10.2.5's ISO-8859-1 when nothing was, and none when nothing
/// is acceptable to both sides.
pub open spec fn conversion_spec(cs: CharCodeset) -> Result<u32, Error> {
    match cs {
        CharCodeset::Incompatible => Err(Error::CodesetIncompatible),
        _ => Ok(transmission_spec(cs)),
    }
}

/// The code set a caller that takes over `char` conversion converts to.
pub fn conversion_target(cs: CharCodeset) -> (r: Result<u32, Error>)
    ensures
        r == conversion_spec(cs),
{
    match cs {
        CharCodeset::Incompatible => Err(Error::CodesetIncompatible),
        _ => Ok(transmission_code_set(cs)),
    }
}

} // verus!
