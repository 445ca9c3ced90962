//! GIOP messages: encoding requests, locate requests and cancellations;
//! decoding replies and locate replies; splitting a long message into
//! fragments and reassembling one that arrived in pieces.
//!
//! **Alignment origin.** A GIOP message aligns from the first octet of its
//! 12-octet header, so the header is built into the same stream as the body.
//! Header layouts differ by version — 1.0 and 1.1 put `service_context`
//! first and carry a boolean `response_expected`; 1.2 puts it last and
//! addresses the target through a `TargetAddress` union — and sending the
//! wrong shape produces a misparse at the peer, not an error.

use vstd::prelude::*;

use crate::cdr::{
    empty_encoder, flag_of, pad, u32_bytes, u32_of, CdrError, Decoder, DecoderView, Encoder,
    EncoderView, Endian,
};
use crate::giop::{
    forward_target, msg_type_octet, reply_status_of, Error, Forward, MsgType, ReplyStatus,
    Version, HEADER_LEN, MAGIC,
};
use crate::ior::{read_ior_wire, Ior, ior_from_wire};
use crate::text::bytes_of;

verus! {

/// A service context attached to a request or reply.
#[derive(Debug, Clone, PartialEq, Eq)]
pub struct ServiceContext {
    /// `IOP::ServiceId`.
    pub id: u32,
    /// Encapsulated body.
    pub data: Vec<u8>,
}

/// A service context as values.
pub struct ContextView {
    pub id: u32,
    pub data: Seq<u8>,
}

impl View for ServiceContext {
    type V = ContextView;

    open spec fn view(&self) -> ContextView {
        ContextView { id: self.id, data: self.data@ }
    }
}

/// The service-context list: its count, then each id and body.
pub open spec fn put_contexts(e: EncoderView, cs: Seq<ContextView>) -> EncoderView {
    if cs.len() > u32::MAX {
        e.poison()
    } else {
        put_context_items(e.put_u32(cs.len() as u32), cs)
    }
}

pub open spec fn put_context_items(e: EncoderView, cs: Seq<ContextView>) -> EncoderView
    decreases cs.len(),
{
    if cs.len() == 0 {
        e
    } else {
        put_context_items(e, cs.drop_last()).put_u32(cs.last().id).put_octet_seq(cs.last().data)
    }
}

fn write_contexts(e: &mut Encoder, contexts: &[ServiceContext])
    ensures
        final(e)@ == put_contexts(old(e)@, contexts_view(contexts@)),
{
    let ghost cs = contexts_view(contexts@);
    if contexts.len() > 0xFFFF_FFFFusize {
        e.poison_stream();
        return ;
    }
    e.put_u32(contexts.len() as u32);
    let ghost start = e@;
    let mut i: usize = 0;
    while i < contexts.len()
        invariant
            i <= contexts@.len(),
            cs == contexts_view(contexts@),
            e@ == put_context_items(start, cs.subrange(0, i as int)),
        decreases contexts.len() - i,
    {
        e.put_u32(contexts[i].id);
        e.put_octet_seq(contexts[i].data.as_slice());
        proof {
            let s = cs.subrange(0, i + 1);
            assert(s.drop_last() =~= cs.subrange(0, i as int));
        }
        i = i + 1;
    }
    assert(cs.subrange(0, cs.len() as int) =~= cs);
}

/// The first eight header octets: magic, version, flags, type.
pub open spec fn put_preamble(e: EncoderView, version: Version, endian: Endian, t: MsgType) -> EncoderView {
    e.put_raw(seq![71u8, 73u8, 79u8, 80u8]).put_u8(version.major).put_u8(version.minor).put_u8(
        flag_of(endian),
    ).put_u8(msg_type_octet(t))
}

fn write_preamble(e: &mut Encoder, version: Version, endian: Endian, t: MsgType)
    ensures
        final(e)@ == put_preamble(old(e)@, version, endian, t),
{
    let magic = MAGIC;
    assert(magic@ =~= seq![71u8, 73u8, 79u8, 80u8]);
    e.put_bytes(&magic);
    e.put_u8(version.major);
    e.put_u8(version.minor);
    e.put_u8(endian.as_flag());
    e.put_u8(t.octet());
}

/// A request's header up to (not including) any body padding.
#[verifier::opaque]
pub open spec fn request_header(
    version: Version,
    endian: Endian,
    request_id: u32,
    object_key: Seq<u8>,
    operation: Seq<u8>,
    expect_reply: bool,
    contexts: Seq<ContextView>,
) -> EncoderView {
    let start = put_preamble(empty_encoder(endian, 0), version, endian, MsgType::Request).put_raw(
        seq![0u8, 0u8, 0u8, 0u8],
    );
    if version.minor >= 2 {
        put_contexts(
            start.put_u32(request_id).put_u8(if expect_reply { 3u8 } else { 0u8 }).put_raw(
                seq![0u8, 0u8, 0u8],
            ).put_u16(0).put_octet_seq(object_key).put_str_bytes(operation),
            contexts,
        )
    } else {
        let c = put_contexts(start, contexts).put_u32(request_id).put_bool(expect_reply);
        let r = if version.minor >= 1 {
            c.put_raw(seq![0u8, 0u8, 0u8])
        } else {
            c
        };
        r.put_octet_seq(object_key).put_str_bytes(operation).put_octet_seq(Seq::empty())
    }
}

/// The whole request: the header, the body (padded to 8 in 1.2 only when
/// there is a body — §9.4.2.1), and `message_size` patched in.
pub open spec fn request_message(header: EncoderView, version: Version, body: Seq<u8>) -> EncoderView {
    let with_body = if body.len() == 0 {
        header
    } else if version.minor >= 2 {
        header.align(8).put_raw(body)
    } else {
        header.put_raw(body)
    };
    with_body.patch_u32(8, (with_body.bytes.len() - 12) as u32)
}

/// The contexts as values.
pub open spec fn contexts_view(cs: Seq<ServiceContext>) -> Seq<ContextView> {
    cs.map_values(|c: ServiceContext| c@)
}

fn build_request_header(
    version: Version,
    endian: Endian,
    request_id: u32,
    object_key: &[u8],
    operation: &str,
    expect_reply: bool,
    contexts: &[ServiceContext],
) -> (e: Encoder)
    ensures
        e@ == request_header(
            version,
            endian,
            request_id,
            object_key@,
            bytes_of(operation@),
            expect_reply,
            contexts_view(contexts@),
        ),
{
    reveal(request_header);
    let mut e = Encoder::new(endian);
    write_preamble(&mut e, version, endian, MsgType::Request);
    let zeros4: [u8; 4] = [0u8, 0u8, 0u8, 0u8];
    assert(zeros4@ =~= seq![0u8, 0u8, 0u8, 0u8]);
    e.put_bytes(&zeros4);
    let zeros3: [u8; 3] = [0u8, 0u8, 0u8];
    assert(zeros3@ =~= seq![0u8, 0u8, 0u8]);
    if version.minor >= 2 {
        e.put_u32(request_id);
        e.put_u8(if expect_reply { 3u8 } else { 0u8 });
        e.put_bytes(&zeros3);
        e.put_u16(0);
        e.put_octet_seq(object_key);
        e.put_str(operation);
        write_contexts(&mut e, contexts);
    } else {
        write_contexts(&mut e, contexts);
        e.put_u32(request_id);
        e.put_bool(expect_reply);
        if version.minor >= 1 {
            e.put_bytes(&zeros3);
        }
        e.put_octet_seq(object_key);
        e.put_str(operation);
        let empty: [u8; 0] = [];
        assert(empty@ =~= Seq::<u8>::empty());
        e.put_octet_seq(&empty);
    }
    e
}

/// A header too long to frame a request under: refused before the body is
/// written.
pub open spec fn header_refused(header: EncoderView) -> bool {
    !header.ok || header.bytes.len() > 0xFFFF_FFF0
}

/// Where the body starts: right after the header, aligned to 8 from 1.2 on
/// (§9.4.2.1), so the body's alignment is that of where it lands.
pub open spec fn request_body_start(header: EncoderView, version: Version) -> int {
    let hl = header.bytes.len() as int;
    if version.minor >= 2 && hl % 8 != 0 {
        hl + (8 - hl % 8)
    } else {
        hl
    }
}

/// The request the body the writer left in `body` makes, or `None` when the
/// body or the whole message does not fit.
pub open spec fn request_bytes(header: EncoderView, version: Version, body: EncoderView) -> Option<Seq<u8>> {
    let with_body = if body.bytes.len() == 0 {
        header
    } else if version.minor >= 2 {
        header.align(8).put_raw(body.bytes)
    } else {
        header.put_raw(body.bytes)
    };
    if body.ok && with_body.ok && with_body.bytes.len() >= 12 && with_body.bytes.len() - 12
        <= 0xFFFF_FFFF && request_message(header, version, body.bytes).ok {
        Some(request_message(header, version, body.bytes).bytes)
    } else {
        None
    }
}

/// Encodes a GIOP `Request` for `version`, with service contexts, whose
/// body is written by `write_body` into a stream that continues the header
/// so the body aligns where it will land.
///
/// The body is the caller's; the contract pins everything around it: the
/// version-conditional header, the padding rule and `message_size`.
pub fn encode_request_with_contexts<F: FnOnce(&mut Encoder)>(
    version: Version,
    endian: Endian,
    request_id: u32,
    object_key: &[u8],
    operation: &str,
    expect_reply: bool,
    contexts: &[ServiceContext],
    write_body: F,
) -> (r: Result<Vec<u8>, Error>)
    requires
        forall|e: &mut Encoder| call_requires(write_body, (e,)),
    ensures
        (version.major != 1 || version.minor > 2) ==> (r matches Err(Error::UnsupportedVersion(v))
            && v == version),
        version.major == 1 && version.minor <= 2 ==> ({
            let h = request_header(
                version,
                endian,
                request_id,
                object_key@,
                bytes_of(operation@),
                expect_reply,
                contexts_view(contexts@),
            );
            if header_refused(h) {
                r matches Err(Error::Cdr(CdrError::TooLong))
            } else {
                exists|body: &mut Encoder|
                    #![auto]
                    call_ensures(write_body, (body,), ()) && (*body)@ == crate::cdr::empty_encoder(
                        endian,
                        request_body_start(h, version),
                    ) && match request_bytes(h, version, (*final(body))@) {
                        Some(b) => r matches Ok(v) && v@ == b,
                        None => r matches Err(Error::Cdr(CdrError::TooLong)),
                    }
            }
        }),
{
    if version.major != 1 || version.minor > 2 {
        return Err(Error::UnsupportedVersion(version));
    }
    let mut e = build_request_header(
        version,
        endian,
        request_id,
        object_key,
        operation,
        expect_reply,
        contexts,
    );
    let ghost h = e@;
    if !e.is_ok() {
        return Err(Error::Cdr(CdrError::TooLong));
    }
    let hl = e.len();
    if hl > 0xFFFF_FFF0usize {
        return Err(Error::Cdr(CdrError::TooLong));
    }
    let start = if version.minor >= 2 {
        if hl % 8 == 0 {
            hl
        } else {
            hl + (8 - hl % 8)
        }
    } else {
        hl
    };
    let mut body = Encoder::continuing_at(endian, start);
    write_body(&mut body);
    let body_bytes = match body.finish() {
        Ok(b) => b,
        Err(x) => return Err(Error::Cdr(x)),
    };
    if body_bytes.len() > 0 {
        if version.minor >= 2 {
            e.align_to(8);
        }
        e.put_bytes(body_bytes.as_slice());
    }
    let ghost wb = e@;
    assert(wb == (if body_bytes@.len() == 0 {
        h
    } else if version.minor >= 2 {
        h.align(8).put_raw(body_bytes@)
    } else {
        h.put_raw(body_bytes@)
    }));
    if !e.is_ok() {
        return Err(Error::Cdr(CdrError::TooLong));
    }
    let n = e.len();
    if n < 12 || n - 12 > 0xFFFF_FFFFusize {
        return Err(Error::Cdr(CdrError::TooLong));
    }
    e.patch_u32(8, (n - 12) as u32);
    assert(e@ == request_message(h, version, body_bytes@));
    match e.finish() {
        Ok(bytes) => Ok(bytes),
        Err(x) => Err(Error::Cdr(x)),
    }
}

/// [`encode_request_with_contexts`] with no service contexts.
pub fn encode_request<F: FnOnce(&mut Encoder)>(
    version: Version,
    endian: Endian,
    request_id: u32,
    object_key: &[u8],
    operation: &str,
    expect_reply: bool,
    write_body: F,
) -> (r: Result<Vec<u8>, Error>)
    requires
        forall|e: &mut Encoder| call_requires(write_body, (e,)),
    ensures
        (version.major != 1 || version.minor > 2) ==> (r matches Err(Error::UnsupportedVersion(v))
            && v == version),
        version.major == 1 && version.minor <= 2 ==> ({
            let h = request_header(
                version,
                endian,
                request_id,
                object_key@,
                bytes_of(operation@),
                expect_reply,
                Seq::empty(),
            );
            if header_refused(h) {
                r matches Err(Error::Cdr(CdrError::TooLong))
            } else {
                exists|body: &mut Encoder|
                    #![auto]
                    call_ensures(write_body, (body,), ()) && (*body)@ == crate::cdr::empty_encoder(
                        endian,
                        request_body_start(h, version),
                    ) && match request_bytes(h, version, (*final(body))@) {
                        Some(b) => r matches Ok(v) && v@ == b,
                        None => r matches Err(Error::Cdr(CdrError::TooLong)),
                    }
            }
        }),
{
    let none: Vec<ServiceContext> = Vec::new();
    assert(contexts_view(none@) =~= Seq::<ContextView>::empty());
    encode_request_with_contexts(
        version,
        endian,
        request_id,
        object_key,
        operation,
        expect_reply,
        none.as_slice(),
        write_body,
    )
}


/// A `LocateRequest`: header, request id, then the object key — wrapped in
/// a `KeyAddr` `TargetAddress` (discriminant 0) from 1.2 on.
pub open spec fn locate_request(version: Version, endian: Endian, request_id: u32, key: Seq<u8>) -> EncoderView {
    let h = put_preamble(empty_encoder(endian, 0), version, endian, MsgType::LocateRequest).put_u32(
        0,
    ).put_u32(request_id);
    let t = if version.minor >= 2 {
        h.put_u16(0)
    } else {
        h
    };
    let w = t.put_octet_seq(key);
    w.patch_u32(8, (w.bytes.len() - 12) as u32)
}

/// Encodes a `LocateRequest` for `version`.
pub fn encode_locate_request(version: Version, endian: Endian, request_id: u32, object_key: &[u8]) -> (r: Result<Vec<u8>, Error>)
    ensures
        locate_request(version, endian, request_id, object_key@).ok ==> (r matches Ok(v)
            && v@ == locate_request(version, endian, request_id, object_key@).bytes),
        !locate_request(version, endian, request_id, object_key@).ok ==> r matches Err(
            Error::Cdr(CdrError::TooLong),
        ),
{
    let mut e = Encoder::new(endian);
    write_preamble(&mut e, version, endian, MsgType::LocateRequest);
    e.put_u32(0);
    e.put_u32(request_id);
    if version.minor >= 2 {
        e.put_u16(0);
    }
    e.put_octet_seq(object_key);
    let n = e.len();
    if n < 12 {
        return Err(Error::Cdr(CdrError::TooLong));
    }
    if n - 12 > 0xFFFF_FFFFusize {
        return Err(Error::Cdr(CdrError::TooLong));
    }
    e.patch_u32(8, (n - 12) as u32);
    match e.finish() {
        Ok(v) => Ok(v),
        Err(x) => Err(Error::Cdr(x)),
    }
}

/// A `CancelRequest` (§9.4.4): the header and the abandoned request id, in
/// the same layout in every version.
pub open spec fn cancel_request(version: Version, endian: Endian, request_id: u32) -> EncoderView {
    let w = put_preamble(empty_encoder(endian, 0), version, endian, MsgType::CancelRequest).put_u32(
        0,
    ).put_u32(request_id);
    w.patch_u32(8, (w.bytes.len() - 12) as u32)
}

/// Encodes a `CancelRequest` for `version`.
pub fn encode_cancel_request(version: Version, endian: Endian, request_id: u32) -> (r: Result<Vec<u8>, Error>)
    ensures
        r matches Ok(v) && v@ == cancel_request(version, endian, request_id).bytes,
        v_len_is_16(r),
{
    let mut e = Encoder::new(endian);
    write_preamble(&mut e, version, endian, MsgType::CancelRequest);
    e.put_u32(0);
    e.put_u32(request_id);
    assert(e@.ok && e@.bytes.len() == 16);
    e.patch_u32(8, 4);
    match e.finish() {
        Ok(v) => Ok(v),
        Err(x) => Err(Error::Cdr(x)),
    }
}

/// A cancellation is always sixteen octets.
pub open spec fn v_len_is_16(r: Result<Vec<u8>, Error>) -> bool {
    r matches Ok(v) && v@.len() == 16
}

/// A framed but undecoded GIOP message.
#[derive(Debug, Clone)]
pub struct RawMessage {
    /// Message type from the header.
    pub msg_type: MsgType,
    /// Version from the header.
    pub version: Version,
    /// Byte order from the header.
    pub endian: Endian,
    /// Whether the more-fragments bit was set. Always false after reassembly.
    pub more_fragments: bool,
    /// How many wire messages this logical message was reassembled from.
    pub fragments: usize,
    /// Header and body together.
    pub bytes: Vec<u8>,
}

/// What a `LocateReply` said about the object.
#[derive(Debug, Clone, PartialEq, Eq)]
pub enum LocateResult {
    /// The target does not know the object at all.
    Unknown,
    /// The object is there; invoking will work.
    Here,
    /// The object lives elsewhere; the reply carried its new address.
    Forward(Box<Ior>),
}

/// The decoder of a framed message, positioned past its 12-octet header.
pub open spec fn past_header(bytes: Seq<u8>, endian: Endian) -> Result<DecoderView, CdrError> {
    if bytes.len() >= 12 {
        Ok(DecoderView { bytes, pos: 12, endian })
    } else {
        Err(CdrError::SeekPastEnd)
    }
}

/// How a `LocateReply` body reads: request id, status, then per status.
pub enum LocateWire {
    Unknown,
    Here,
    Forward(crate::ior::IorWire),
    System(Seq<char>, u32, u32),
    BadStatus(u32),
}

pub open spec fn read_locate_reply(d: DecoderView) -> Result<(u32, LocateWire), CdrError> {
    match d.get_u32() {
        Err(e) => Err(e),
        Ok((id, d1)) => match d1.get_u32() {
            Err(e) => Err(e),
            Ok((status, d2)) => if status == 0 {
                Ok((id, LocateWire::Unknown))
            } else if status == 1 {
                Ok((id, LocateWire::Here))
            } else if status == 2 || status == 3 {
                match read_ior_wire(d2) {
                    Ok((w, _)) => Ok((id, LocateWire::Forward(w))),
                    Err(e) => Err(e),
                }
            } else if status == 4 {
                match d2.get_string() {
                    Err(e) => Err(e),
                    Ok((sid, d3)) => match d3.get_u32() {
                        Err(e) => Err(e),
                        Ok((minor, d4)) => match d4.get_u32() {
                            Err(e) => Err(e),
                            Ok((completed, _)) => Ok((id, LocateWire::System(sid, minor, completed))),
                        },
                    },
                }
            } else {
                Ok((id, LocateWire::BadStatus(status)))
            },
        },
    }
}

/// Decodes a `LocateReply`. Its body follows the header with **no**
/// 8-octet alignment, even in 1.2 — unlike a `Reply`. `OBJECT_FORWARD` and
/// `OBJECT_FORWARD_PERM` both carry the new reference; `LOC_SYSTEM_EXCEPTION`
/// surfaces as the exception it carries.
pub fn decode_locate_reply(msg: RawMessage) -> (r: Result<(u32, LocateResult), Error>)
    ensures
        msg.msg_type != MsgType::LocateReply ==> (r matches Err(Error::UnexpectedMessage(t))
            && t == msg.msg_type),
        msg.msg_type == MsgType::LocateReply ==> match past_header(msg.bytes@, msg.endian) {
            Err(e) => r matches Err(Error::Cdr(x)) && x == e,
            Ok(d) => match read_locate_reply(d) {
                Err(e) => r matches Err(Error::Cdr(x)) && x == e,
                Ok((id, LocateWire::Unknown)) => r matches Ok((i, LocateResult::Unknown)) && i == id,
                Ok((id, LocateWire::Here)) => r matches Ok((i, LocateResult::Here)) && i == id,
                Ok((id, LocateWire::Forward(w))) => r matches Ok((i, LocateResult::Forward(b)))
                    && i == id && ior_from_wire((*b)@, w),
                Ok((_, LocateWire::System(sid, minor, completed))) => r matches Err(
                    Error::SystemException { id: s, minor: m, completed: c },
                ) && s@ == sid && m == minor && c == completed,
                Ok((_, LocateWire::BadStatus(st))) => r matches Err(Error::BadReplyStatus(v))
                    && v == st,
            },
        },
{
    if msg.msg_type != MsgType::LocateReply {
        return Err(Error::UnexpectedMessage(msg.msg_type));
    }
    let mut d = Decoder::new(msg.bytes.as_slice(), msg.endian);
    if let Err(e) = d.seek_to(HEADER_LEN) {
        return Err(Error::Cdr(e));
    }
    let request_id = match d.get_u32() {
        Ok(v) => v,
        Err(e) => return Err(Error::Cdr(e)),
    };
    let status = match d.get_u32() {
        Ok(v) => v,
        Err(e) => return Err(Error::Cdr(e)),
    };
    if status == 0 {
        Ok((request_id, LocateResult::Unknown))
    } else if status == 1 {
        Ok((request_id, LocateResult::Here))
    } else if status == 2 || status == 3 {
        let ior = Ior::read_from(&mut d)?;
        Ok((request_id, LocateResult::Forward(Box::new(ior))))
    } else if status == 4 {
        let id = match d.get_string() {
            Ok(v) => v,
            Err(e) => return Err(Error::Cdr(e)),
        };
        let minor = match d.get_u32() {
            Ok(v) => v,
            Err(e) => return Err(Error::Cdr(e)),
        };
        let completed = match d.get_u32() {
            Ok(v) => v,
            Err(e) => return Err(Error::Cdr(e)),
        };
        Err(Error::SystemException { id, minor, completed })
    } else {
        Err(Error::BadReplyStatus(status))
    }
}

/// `n` service contexts skipped.
pub open spec fn skip_contexts_n(d: DecoderView, n: nat) -> Result<DecoderView, CdrError>
    decreases n,
{
    if n == 0 {
        Ok(d)
    } else {
        match skip_contexts_n(d, (n - 1) as nat) {
            Ok(d1) => match d1.get_u32() {
                Ok((_, d2)) => match d2.get_octet_seq() {
                    Ok((_, d3)) => Ok(d3),
                    Err(e) => Err(e),
                },
                Err(e) => Err(e),
            },
            Err(e) => Err(e),
        }
    }
}

/// A whole service-context list skipped, its count checked first.
pub open spec fn skip_contexts(d: DecoderView) -> Result<DecoderView, CdrError> {
    match d.get_u32() {
        Err(e) => Err(e),
        Ok((n, d1)) => if !d1.count_fits(n as int, 8) {
            Err(CdrError::CountTooLarge)
        } else {
            skip_contexts_n(d1, n as nat)
        },
    }
}

proof fn lemma_skip_contexts_stop(d: DecoderView, i: nat, n: nat, e: CdrError)
    requires
        skip_contexts_n(d, i + 1) == Err::<DecoderView, CdrError>(e),
        i + 1 <= n,
    ensures
        skip_contexts_n(d, n) == Err::<DecoderView, CdrError>(e),
    decreases n,
{
    if n > i + 1 {
        lemma_skip_contexts_stop(d, i, (n - 1) as nat, e);
    }
}

fn skip_service_contexts(d: &mut Decoder) -> (r: Result<(), CdrError>)
    ensures
        match skip_contexts(old(d)@) {
            Ok(after) => r is Ok && final(d)@ == after,
            Err(e) => r == Err::<(), CdrError>(e),
        },
{
    let count = d.get_u32()?;
    let n = d.validate_count(count, 8)?;
    let ghost d1 = d@;
    let mut i: usize = 0;
    while i < n
        invariant
            i <= n,
            n == count,
            d1.count_fits(n as int, 8),
            skip_contexts(old(d)@) == skip_contexts_n(d1, n as nat),
            skip_contexts_n(d1, i as nat) == Ok::<DecoderView, CdrError>(d@),
        decreases n - i,
    {
        if let Err(e) = d.get_u32() {
            proof {
                lemma_skip_contexts_stop(d1, i as nat, n as nat, e);
            }
            return Err(e);
        }
        if let Err(e) = d.get_octet_seq() {
            proof {
                lemma_skip_contexts_stop(d1, i as nat, n as nat, e);
            }
            return Err(e);
        }
        i = i + 1;
    }
    Ok(())
}

/// A decoded GIOP `Reply`, with its body left as raw CDR for the caller.
#[derive(Debug, Clone)]
pub struct Reply {
    /// Correlates with the request that produced it.
    pub request_id: u32,
    /// Outcome reported by the target.
    pub status: ReplyStatus,
    /// Byte order the reply was encoded in.
    pub endian: Endian,
    /// Version the reply was encoded with.
    pub version: Version,
    /// Whole message, retained so body offsets stay meaningful.
    raw: Vec<u8>,
    /// Offset in `raw` where the reply body begins.
    body_at: usize,
}

/// A reply as values.
pub struct ReplyView {
    pub request_id: u32,
    pub status: ReplyStatus,
    pub endian: Endian,
    pub version: Version,
    pub raw: Seq<u8>,
    pub body_at: int,
}

impl View for Reply {
    type V = ReplyView;

    closed spec fn view(&self) -> ReplyView {
        ReplyView {
            request_id: self.request_id,
            status: self.status,
            endian: self.endian,
            version: self.version,
            raw: self.raw@,
            body_at: self.body_at as int,
        }
    }
}

impl Reply {
    /// The id of the request this reply answers.
    pub fn request_id(&self) -> (r: u32)
        ensures
            r == self@.request_id,
    {
        self.request_id
    }

    /// A decoder positioned at the start of the reply body. Fallible on
    /// purpose: a seek that fails must not leave the decoder at offset 0
    /// handing out the GIOP magic as payload.
    pub fn body(&self) -> (r: Result<Decoder<'_>, Error>)
        ensures
            self@.body_at <= self@.raw.len() ==> (r matches Ok(d) && d@ == (DecoderView {
                bytes: self@.raw,
                pos: self@.body_at,
                endian: self@.endian,
            })),
            self@.body_at > self@.raw.len() ==> r matches Err(
                Error::Cdr(CdrError::SeekPastEnd),
            ),
    {
        let mut d = Decoder::new(self.raw.as_slice(), self.endian);
        match d.seek_to(self.body_at) {
            Ok(()) => Ok(d),
            Err(e) => Err(Error::Cdr(e)),
        }
    }

    /// The undecoded message, for diagnostics.
    pub fn raw(&self) -> (r: &[u8])
        ensures
            r@ == self@.raw,
    {
        self.raw.as_slice()
    }
}

/// The decoder of a reply's body, or why there is none.
pub open spec fn reply_body(r: ReplyView) -> Result<DecoderView, CdrError> {
    if r.body_at <= r.raw.len() {
        Ok(DecoderView { bytes: r.raw, pos: r.body_at, endian: r.endian })
    } else {
        Err(CdrError::SeekPastEnd)
    }
}

/// An exception's repository id, or `<unreadable>` when it does not
/// decode (the position then stays put).
pub open spec fn exception_id(d: DecoderView) -> (Seq<char>, DecoderView) {
    match d.get_string() {
        Ok((s, d1)) => (s, d1),
        Err(_) => ("<unreadable>"@, d),
    }
}

/// A `u32`, or zero when it does not decode (the position then stays put).
pub open spec fn u32_or_zero(d: DecoderView) -> (u32, DecoderView) {
    match d.get_u32() {
        Ok((v, d1)) => (v, d1),
        Err(_) => (0, d),
    }
}

/// What a reply means for the call that asked.
#[derive(Debug)]
pub enum Outcome {
    /// The target answered; the body holds the result.
    Done(Reply),
    /// The target moved.
    Forwarded(Forward),
}

/// Whether `r` is what a reply with view `reply` calls for.
pub open spec fn interpreted(reply: ReplyView, r: Result<Outcome, Error>) -> bool {
    match reply.status {
        ReplyStatus::NoException => r matches Ok(Outcome::Done(x)) && x@ == reply,
        ReplyStatus::NeedsAddressingMode => r matches Err(Error::UnexpectedMessage(t)) && t
            == MsgType::Reply,
        _ => match reply_body(reply) {
            Err(e) => r matches Err(Error::Cdr(x)) && x == e,
            Ok(d) => match reply.status {
                ReplyStatus::SystemException => r matches Err(
                    Error::SystemException { id, minor, completed },
                ) && id@ == exception_id(d).0 && minor == u32_or_zero(exception_id(d).1).0
                    && completed == u32_or_zero(u32_or_zero(exception_id(d).1).1).0,
                ReplyStatus::UserException => r matches Err(Error::UserException { id, reply: x })
                    && id@ == exception_id(d).0 && x@ == reply,
                _ => match read_ior_wire(d) {
                    Ok((w, _)) => r matches Ok(Outcome::Forwarded(f)) && ior_from_wire(
                        forward_target(f)@,
                        w,
                    ) && (f is Permanent) == (reply.status is LocationForwardPerm),
                    Err(e) => r matches Err(Error::Cdr(x)) && x == e,
                },
            },
        },
    }
}

/// Turns a decoded reply into what its status calls for: the reply itself,
/// the redirect its body carries, or the exception it reports. A system
/// exception's fields and a user exception's id degrade to `<unreadable>`
/// and zero rather than hide the exception behind a decoding error; a user
/// exception keeps the reply so its members can be read.
#[verifier::spinoff_prover]
#[verifier::rlimit(40)]
pub fn interpret_reply(reply: Reply) -> (r: Result<Outcome, Error>)
    ensures
        interpreted(reply@, r),
{
    let status = reply.status;
    match status {
        ReplyStatus::NoException => {
            return Ok(Outcome::Done(reply));
        },
        ReplyStatus::NeedsAddressingMode => {
            // Answering needs the profile and reference addressing
            // dispositions, which are not implemented; failing is correct,
            // reading the body as a return value is not.
            return Err(Error::UnexpectedMessage(MsgType::Reply));
        },
        _ => {},
    }
    let mut b = match reply.body() {
        Ok(b) => b,
        Err(e) => {
            return Err(e);
        },
    };
    match status {
        ReplyStatus::SystemException => {
            let id = match b.get_string() {
                Ok(s) => s,
                Err(_) => "<unreadable>".to_owned(),
            };
            let minor = match b.get_u32() {
                Ok(v) => v,
                Err(_) => 0,
            };
            let completed = match b.get_u32() {
                Ok(v) => v,
                Err(_) => 0,
            };
            Err(Error::SystemException { id, minor, completed })
        },
        ReplyStatus::UserException => {
            let id = match b.get_string() {
                Ok(s) => s,
                Err(_) => "<unreadable>".to_owned(),
            };
            Err(Error::UserException { id, reply: Box::new(reply) })
        },
        _ => {
            let ior = match Ior::read_from(&mut b) {
                Ok(i) => i,
                Err(e) => {
                    return Err(e);
                },
            };
            if status == ReplyStatus::LocationForwardPerm {
                Ok(Outcome::Forwarded(Forward::Permanent(ior)))
            } else {
                Ok(Outcome::Forwarded(Forward::Temporary(ior)))
            }
        },
    }
}

/// The fields of a reply header, read in the version's order: 1.0 and 1.1
/// put the service contexts first, 1.2 puts them last.
pub open spec fn read_reply_header(d: DecoderView, version: Version) -> Result<
    (u32, u32, DecoderView),
    CdrError,
> {
    if version.minor >= 2 {
        match d.get_u32() {
            Err(e) => Err(e),
            Ok((id, d1)) => match d1.get_u32() {
                Err(e) => Err(e),
                Ok((st, d2)) => match skip_contexts(d2) {
                    Err(e) => Err(e),
                    Ok(d3) => Ok((id, st, d3)),
                },
            },
        }
    } else {
        match skip_contexts(d) {
            Err(e) => Err(e),
            Ok(d1) => match d1.get_u32() {
                Err(e) => Err(e),
                Ok((id, d2)) => match d2.get_u32() {
                    Err(e) => Err(e),
                    Ok((st, d3)) => Ok((id, st, d3)),
                },
            },
        }
    }
}

/// Where the body of a reply starts: 8-aligned in 1.2, but only when a body
/// follows (§9.4.3.1) — aligning an empty one could run past the end.
pub open spec fn reply_body_at(d: DecoderView, version: Version) -> Result<int, CdrError> {
    if version.minor >= 2 && d.pos < d.bytes.len() {
        match d.align(8) {
            Ok(a) => Ok(a.pos),
            Err(e) => Err(e),
        }
    } else {
        Ok(d.pos)
    }
}

/// Decodes a `Reply` that framing already delimited.
pub fn decode_reply(msg: RawMessage) -> (r: Result<Reply, Error>)
    ensures
        match past_header(msg.bytes@, msg.endian) {
            Err(e) => r matches Err(Error::Cdr(x)) && x == e,
            Ok(d) => match read_reply_header(d, msg.version) {
                Err(e) => r matches Err(Error::Cdr(x)) && x == e,
                Ok((id, st, d3)) => match reply_status_of(st, msg.version) {
                    None => r matches Err(Error::BadReplyStatus(v)) && v == st,
                    Some(status) => match reply_body_at(d3, msg.version) {
                        Err(e) => r matches Err(Error::Cdr(x)) && x == e,
                        Ok(at) => r matches Ok(rep) && rep@ == (ReplyView {
                            request_id: id,
                            status,
                            endian: msg.endian,
                            version: msg.version,
                            raw: msg.bytes@,
                            body_at: at,
                        }),
                    },
                },
            },
        },
{
    let RawMessage { version, endian, bytes: raw, .. } = msg;
    let mut d = Decoder::new(raw.as_slice(), endian);
    if let Err(e) = d.seek_to(HEADER_LEN) {
        return Err(Error::Cdr(e));
    }
    let request_id;
    let status_raw;
    if version.minor >= 2 {
        request_id = match d.get_u32() {
            Ok(v) => v,
            Err(e) => return Err(Error::Cdr(e)),
        };
        status_raw = match d.get_u32() {
            Ok(v) => v,
            Err(e) => return Err(Error::Cdr(e)),
        };
        if let Err(e) = skip_service_contexts(&mut d) {
            return Err(Error::Cdr(e));
        }
    } else {
        if let Err(e) = skip_service_contexts(&mut d) {
            return Err(Error::Cdr(e));
        }
        request_id = match d.get_u32() {
            Ok(v) => v,
            Err(e) => return Err(Error::Cdr(e)),
        };
        status_raw = match d.get_u32() {
            Ok(v) => v,
            Err(e) => return Err(Error::Cdr(e)),
        };
    }
    let status = match ReplyStatus::from_u32(status_raw, version) {
        Some(s) => s,
        None => return Err(Error::BadReplyStatus(status_raw)),
    };
    if version.minor >= 2 && !d.is_empty() {
        if let Err(e) = d.align_to(8) {
            return Err(Error::Cdr(e));
        }
    }
    let body_at = d.offset();
    Ok(Reply { request_id, status, endian, version, raw, body_at })
}

/// The request id of a message a fragment continues: in 1.2 it is the first
/// field after the header of all four fragmentable types.
pub open spec fn logical_request_id_spec(bytes: Seq<u8>, endian: Endian, t: MsgType) -> Result<u32, Error> {
    if bytes.len() < 12 {
        Err(Error::Cdr(CdrError::SeekPastEnd))
    } else if !crate::giop::fragmentable(t) {
        Err(Error::UnexpectedMessage(t))
    } else {
        match (DecoderView { bytes, pos: 12, endian }).get_u32() {
            Ok((id, _)) => Ok(id),
            Err(e) => Err(Error::Cdr(e)),
        }
    }
}

pub fn logical_request_id(bytes: &[u8], endian: Endian, version: Version, msg_type: MsgType) -> (r: Result<u32, Error>)
    ensures
        match logical_request_id_spec(bytes@, endian, msg_type) {
            Ok(id) => r matches Ok(v) && v == id,
            Err(Error::Cdr(e)) => r matches Err(Error::Cdr(x)) && x == e,
            Err(Error::UnexpectedMessage(t)) => r matches Err(Error::UnexpectedMessage(x)) && x == t,
            Err(_) => false,
        },
{
    let mut d = Decoder::new(bytes, endian);
    if let Err(e) = d.seek_to(HEADER_LEN) {
        return Err(Error::Cdr(e));
    }
    if !msg_type.is_fragmentable() {
        return Err(Error::UnexpectedMessage(msg_type));
    }
    match d.get_u32() {
        Ok(v) => Ok(v),
        Err(e) => Err(Error::Cdr(e)),
    }
}

/// Octets 8..12 rewritten to `size` in byte order `endian`.
pub open spec fn with_size(msg: Seq<u8>, endian: Endian, size: u32) -> Seq<u8> {
    msg.subrange(0, 8) + u32_bytes(size, endian) + msg.subrange(12, msg.len() as int)
}

/// Writes `size` into the `message_size` field.
pub fn patch_size(msg: &mut Vec<u8>, endian: Endian, size: u32)
    requires
        old(msg)@.len() >= 12,
    ensures
        final(msg)@ == with_size(old(msg)@, endian, size),
{
    let b = crate::cdr::u32_to_bytes(size, endian);
    msg.set(8, b[0]);
    msg.set(9, b[1]);
    msg.set(10, b[2]);
    msg.set(11, b[3]);
    assert(msg@ =~= with_size(old(msg)@, endian, size));
}


/// What the 12-octet header of one wire message says.
#[derive(Debug, Clone, Copy, PartialEq, Eq)]
pub struct FrameHeader {
    /// Message type.
    pub msg_type: MsgType,
    /// GIOP version.
    pub version: Version,
    /// Byte order of the message.
    pub endian: Endian,
    /// Whether more fragments follow (1.1 and later).
    pub more_fragments: bool,
    /// Body size the peer declared.
    pub size: usize,
}

/// The declared body size in header octets 8..12.
pub open spec fn header_size(h: Seq<u8>, endian: Endian) -> u32 {
    u32_of(h.subrange(8, 12), endian)
}

/// How a header is judged, in the order the checks are made: magic, then
/// version, then the flags octet (1.0 defines it as a boolean; from 1.1 its
/// top six bits must be zero), then the type, then the size ceiling.
pub open spec fn parse_header_spec(h: Seq<u8>, max_size: usize) -> Result<FrameHeader, Error> {
    let version = Version { major: h[4], minor: h[5] };
    let flags = h[6];
    let endian = if flags % 2 == 1 {
        Endian::Little
    } else {
        Endian::Big
    };
    if h.subrange(0, 4) != seq![71u8, 73u8, 79u8, 80u8] {
        Err(Error::NotGiop([h[0], h[1], h[2], h[3]]))
    } else if version.major != 1 || version.minor > 2 {
        Err(Error::UnsupportedVersion(version))
    } else if version.minor >= 1 && flags >= 4 {
        Err(Error::Cdr(CdrError::ReservedFlagBits))
    } else if version.minor == 0 && flags > 1 {
        Err(Error::Cdr(CdrError::BadByteOrderOctet))
    } else if crate::giop::msg_type_of(h[7]) is None {
        Err(Error::UnknownMessageType(h[7]))
    } else if header_size(h, endian) > max_size {
        Err(Error::MessageTooLarge { declared: header_size(h, endian) as usize, limit: max_size })
    } else {
        Ok(
            FrameHeader {
                msg_type: crate::giop::msg_type_of(h[7])->Some_0,
                version,
                endian,
                more_fragments: version.minor >= 1 && (flags / 2) % 2 == 1,
                size: header_size(h, endian) as usize,
            },
        )
    }
}

/// Judges one wire message's header before anything is allocated for its
/// body: a size above `max_size` is refused here.
pub fn parse_header(h: &[u8], max_size: usize) -> (r: Result<FrameHeader, Error>)
    requires
        h@.len() == 12,
    ensures
        match parse_header_spec(h@, max_size) {
            Ok(fh) => r matches Ok(x) && x == fh,
            Err(Error::NotGiop(m)) => r matches Err(Error::NotGiop(x)) && x == m,
            Err(Error::UnsupportedVersion(v)) => r matches Err(Error::UnsupportedVersion(x)) && x
                == v,
            Err(Error::Cdr(c)) => r matches Err(Error::Cdr(x)) && x == c,
            Err(Error::UnknownMessageType(t)) => r matches Err(Error::UnknownMessageType(x)) && x
                == t,
            Err(Error::MessageTooLarge { declared, limit }) => r matches Err(
                Error::MessageTooLarge { declared: d, limit: l },
            ) && d == declared && l == limit,
            Err(_) => false,
        },
{
    let magic = MAGIC;
    let head = &h[0..4];
    assert(magic@ =~= seq![71u8, 73u8, 79u8, 80u8]);
    if !crate::text::bytes_eq(head, &magic) {
        return Err(Error::NotGiop([h[0], h[1], h[2], h[3]]));
    }
    let version = Version { major: h[4], minor: h[5] };
    if version.major != 1 || version.minor > 2 {
        return Err(Error::UnsupportedVersion(version));
    }
    let flags = h[6];
    let endian = if flags % 2 == 1 {
        Endian::Little
    } else {
        Endian::Big
    };
    if version.minor >= 1 && flags >= 4 {
        return Err(Error::Cdr(CdrError::ReservedFlagBits));
    }
    if version.minor == 0 && flags > 1 {
        return Err(Error::Cdr(CdrError::BadByteOrderOctet));
    }
    let msg_type = match MsgType::from_octet(h[7]) {
        Some(t) => t,
        None => return Err(Error::UnknownMessageType(h[7])),
    };
    let size32 = crate::cdr::u32_from_bytes(h[8], h[9], h[10], h[11], endian);
    assert(h@.subrange(8, 12) =~= seq![h@[8], h@[9], h@[10], h@[11]]);
    let size = size32 as usize;
    if size > max_size {
        return Err(Error::MessageTooLarge { declared: size, limit: max_size });
    }
    let more_fragments = version.minor >= 1 && (flags / 2) % 2 == 1;
    Ok(FrameHeader { msg_type, version, endian, more_fragments, size })
}

/// The flags octet with the more-fragments bit cleared.
pub open spec fn clear_more(b: u8) -> u8 {
    if (b / 2) % 2 == 1 {
        (b - 2) as u8
    } else {
        b
    }
}

/// The flags octet with the more-fragments bit set.
pub open spec fn set_more(b: u8) -> u8 {
    if (b / 2) % 2 == 1 {
        b
    } else {
        (b + 2) as u8
    }
}

/// A reassembled message describes itself: the more-fragments bit is gone
/// and `message_size` covers everything.
pub open spec fn finished_bytes(bytes: Seq<u8>, endian: Endian) -> Seq<u8> {
    with_size(bytes.update(6, clear_more(bytes[6])), endian, (bytes.len() - 12) as u32)
}

/// A message being put back together from its fragments.
#[derive(Debug)]
pub struct Reassembly {
    msg_type: MsgType,
    version: Version,
    endian: Endian,
    bytes: Vec<u8>,
    count: usize,
    max_size: usize,
    request_id: u32,
}

/// What has been gathered so far.
pub struct ReassemblyView {
    pub msg_type: MsgType,
    pub version: Version,
    pub endian: Endian,
    pub bytes: Seq<u8>,
    pub count: int,
    pub max_size: int,
    pub request_id: u32,
}

impl View for Reassembly {
    type V = ReassemblyView;

    closed spec fn view(&self) -> ReassemblyView {
        ReassemblyView {
            msg_type: self.msg_type,
            version: self.version,
            endian: self.endian,
            bytes: self.bytes@,
            count: self.count as int,
            max_size: self.max_size as int,
            request_id: self.request_id,
        }
    }
}

/// Where reading one logical message stands after a wire message.
#[derive(Debug)]
pub enum Step {
    /// The logical message is complete.
    Done(RawMessage),
    /// More fragments are needed; feed the next wire message.
    More(Reassembly),
}

/// Invariant of a reassembly under way.
pub open spec fn reassembly_wf(r: ReassemblyView) -> bool {
    &&& r.bytes.len() >= 16
    &&& r.version.minor >= 2
    &&& 1 <= r.count <= crate::giop::MAX_FRAGMENTS
    &&& r.bytes.len() <= r.max_size + 12
    &&& r.max_size + 12 <= usize::MAX
    &&& logical_request_id_spec(r.bytes, r.endian, r.msg_type) == Ok::<u32, Error>(r.request_id)
}

proof fn lemma_request_id_prefix(a: Seq<u8>, b: Seq<u8>, endian: Endian, t: MsgType)
    requires
        a.len() >= 16,
        b.len() >= 16,
        a.subrange(0, 16) == b.subrange(0, 16),
    ensures
        logical_request_id_spec(a, endian, t) == logical_request_id_spec(b, endian, t),
{
    assert(a.subrange(12, 16) =~= a.subrange(0, 16).subrange(12, 16));
    assert(b.subrange(12, 16) =~= b.subrange(0, 16).subrange(12, 16));
}

impl Reassembly {
    /// The first wire message of a logical one: a complete message, or the
    /// start of a reassembly. A `Fragment` cannot come first; a fragmented
    /// 1.0 or 1.1 message cannot be reassembled (1.1 restarts alignment per
    /// fragment and carries no request id to correlate them).
    pub fn begin(first: RawMessage, max_size: usize) -> (r: Result<Step, Error>)
        requires
            first.bytes@.len() <= max_size + 12,
            max_size + 12 <= usize::MAX,
        ensures
            first.msg_type == MsgType::Fragment ==> (r matches Err(Error::UnexpectedMessage(t))
                && t == MsgType::Fragment),
            first.msg_type != MsgType::Fragment && !first.more_fragments ==> (r matches Ok(
                Step::Done(m),
            ) && m.bytes@ == first.bytes@ && m.msg_type == first.msg_type && m.version
                == first.version && m.endian == first.endian && m.more_fragments == first.more_fragments
                && m.fragments == first.fragments),
            first.msg_type != MsgType::Fragment && first.more_fragments && first.version.minor < 2
                ==> r matches Err(Error::FragmentUnsupported),
            first.msg_type != MsgType::Fragment && first.more_fragments && first.version.minor >= 2
                ==> match logical_request_id_spec(first.bytes@, first.endian, first.msg_type) {
                Ok(id) => r matches Ok(Step::More(s)) && s@ == (ReassemblyView {
                    msg_type: first.msg_type,
                    version: first.version,
                    endian: first.endian,
                    bytes: first.bytes@,
                    count: 1,
                    max_size: max_size as int,
                    request_id: id,
                }) && reassembly_wf(s@),
                Err(Error::Cdr(e)) => r matches Err(Error::Cdr(x)) && x == e,
                Err(Error::UnexpectedMessage(t)) => r matches Err(Error::UnexpectedMessage(x)) && x
                    == t,
                Err(_) => false,
            },
    {
        if first.msg_type == MsgType::Fragment {
            return Err(Error::UnexpectedMessage(MsgType::Fragment));
        }
        if !first.more_fragments {
            return Ok(Step::Done(first));
        }
        if first.version.minor < 2 {
            return Err(Error::FragmentUnsupported);
        }
        let request_id = logical_request_id(
            first.bytes.as_slice(),
            first.endian,
            first.version,
            first.msg_type,
        )?;
        let RawMessage { msg_type, version, endian, bytes, .. } = first;
        proof {
            assert((DecoderView { bytes: bytes@, pos: 12, endian }).get_u32() is Ok);
        }
        Ok(Step::More(Reassembly { msg_type, version, endian, bytes, count: 1, max_size, request_id }))
    }

    /// Takes the next wire message of a fragmented one.
    ///
    /// A well-framed `CloseConnection` or `MessageError` here is an orderly
    /// interruption and says so, naming the half-received request; any other
    /// non-fragment is an interleaved message. A fragment whose version or
    /// byte order differs from the message it continues is refused (§9.4.9),
    /// as is one naming another request id.
    pub fn feed(self, next: RawMessage) -> (r: Result<Step, Error>)
        requires
            reassembly_wf(self@),
        ensures
            next.msg_type == MsgType::CloseConnection || next.msg_type == MsgType::MessageError
                ==> (r matches Err(Error::InterruptedMidReassembly { control, partial, request_id, received })
                && control == next.msg_type && partial == self@.msg_type && request_id
                == self@.request_id && received == self@.count),
            next.msg_type != MsgType::Fragment && next.msg_type != MsgType::CloseConnection
                && next.msg_type != MsgType::MessageError ==> (r matches Err(
                Error::UnexpectedMessage(t),
            ) && t == next.msg_type),
            next.msg_type == MsgType::Fragment && (next.version != self@.version || next.endian
                != self@.endian) ==> (r matches Err(Error::UnexpectedMessage(t)) && t
                == MsgType::Fragment),
            next.msg_type == MsgType::Fragment && next.version == self@.version && next.endian
                == self@.endian ==> match past_header(next.bytes@, next.endian) {
                Err(e) => r matches Err(Error::Cdr(x)) && x == e,
                Ok(d) => match d.get_u32() {
                    Err(e) => r matches Err(Error::Cdr(x)) && x == e,
                    Ok((fid, _)) => if fid != self@.request_id {
                        r matches Err(Error::Desynchronized)
                    } else {
                        let joined = self@.bytes + next.bytes@.subrange(16, next.bytes@.len() as int);
                        if joined.len() > self@.max_size {
                            r matches Err(Error::MessageTooLarge { declared, limit }) && declared
                                == (if joined.len() <= usize::MAX {
                                joined.len()
                            } else {
                                usize::MAX as nat
                            }) && limit == self@.max_size
                        } else if !next.more_fragments {
                            r matches Ok(Step::Done(m)) && m.bytes@ == finished_bytes(
                                joined,
                                self@.endian,
                            ) && m.msg_type == self@.msg_type && m.version == self@.version
                                && m.endian == self@.endian && !m.more_fragments && m.fragments
                                == self@.count + 1
                        } else if self@.count + 1 > crate::giop::MAX_FRAGMENTS {
                            r matches Err(Error::MessageTooLarge { declared, limit }) && declared
                                == self@.count + 1 && limit == crate::giop::MAX_FRAGMENTS
                        } else {
                            r matches Ok(Step::More(s)) && s@ == (ReassemblyView {
                                bytes: joined,
                                count: self@.count + 1,
                                ..self@
                            }) && reassembly_wf(s@)
                        }
                    },
                },
            },
    {
        if next.msg_type != MsgType::Fragment {
            return Err(
                match next.msg_type {
                    MsgType::CloseConnection | MsgType::MessageError => {
                        Error::InterruptedMidReassembly {
                            control: next.msg_type,
                            partial: self.msg_type,
                            request_id: self.request_id,
                            received: self.count,
                        }
                    },
                    other => Error::UnexpectedMessage(other),
                },
            );
        }
        if next.version != self.version || next.endian != self.endian {
            return Err(Error::UnexpectedMessage(MsgType::Fragment));
        }
        let mut d = Decoder::new(next.bytes.as_slice(), next.endian);
        if let Err(e) = d.seek_to(HEADER_LEN) {
            return Err(Error::Cdr(e));
        }
        let frag_id = match d.get_u32() {
            Ok(v) => v,
            Err(e) => return Err(Error::Cdr(e)),
        };
        if frag_id != self.request_id {
            return Err(Error::Desynchronized);
        }
        let payload = &next.bytes.as_slice()[16..next.bytes.len()];
        if payload.len() > self.max_size || self.bytes.len() > self.max_size - payload.len() {
            let declared = if self.bytes.len() <= usize::MAX - payload.len() {
                self.bytes.len() + payload.len()
            } else {
                usize::MAX
            };
            return Err(Error::MessageTooLarge { declared, limit: self.max_size });
        }
        let Reassembly { msg_type, version, endian, mut bytes, count, max_size, request_id } = self;
        let ghost before = bytes@;
        crate::text::push_all(&mut bytes, payload);
        if !next.more_fragments {
            let size = #[verifier::truncate] ((bytes.len() - 12) as u32);
            let flag = bytes[6];
            let cleared = if (flag / 2) % 2 == 1 {
                flag - 2
            } else {
                flag
            };
            bytes.set(6, cleared);
            patch_size(&mut bytes, endian, size);
            return Ok(
                Step::Done(
                    RawMessage {
                        msg_type,
                        version,
                        endian,
                        more_fragments: false,
                        fragments: count + 1,
                        bytes,
                    },
                ),
            );
        }
        if count + 1 > crate::giop::MAX_FRAGMENTS {
            return Err(
                Error::MessageTooLarge { declared: count + 1, limit: crate::giop::MAX_FRAGMENTS },
            );
        }
        proof {
            assert(bytes@.subrange(0, 16) =~= before.subrange(0, 16));
            lemma_request_id_prefix(before, bytes@, endian, msg_type);
        }
        Ok(Step::More(Reassembly { msg_type, version, endian, bytes, count: count + 1, max_size, request_id }))
    }
}


// ─────────────────────────────────────────────────────────────────────────────
// Fragmentation
// ─────────────────────────────────────────────────────────────────────────────

/// Payload a fragment carries before the 8-alignment adjustment.
pub open spec fn frag_take(threshold: int) -> int {
    if threshold - 16 > 8 {
        threshold - 16
    } else {
        8
    }
}

/// Payload of every non-final fragment: `16 + payload` is a multiple of 8,
/// so the next piece resumes on the alignment the whole stream had.
pub open spec fn frag_full(threshold: int) -> int {
    frag_take(threshold) - (16 + frag_take(threshold)) % 8
}

/// The continuation payloads: full-size chunks while more than `take`
/// remains, then whatever is left.
pub open spec fn split_chunks(rest: Seq<u8>, take: int, full: int) -> Seq<Seq<u8>>
    decreases rest.len(),
{
    if rest.len() <= take || full <= 0 || full > rest.len() {
        seq![rest]
    } else {
        seq![rest.subrange(0, full)] + split_chunks(rest.subrange(full, rest.len() as int), take, full)
    }
}

/// One `Fragment` wire message: header (more-fragments bit set unless it is
/// the last), `message_size`, the request id it continues, the payload.
pub open spec fn fragment_piece(version: Version, endian: Endian, more: bool, id: u32, chunk: Seq<u8>) -> Seq<u8> {
    seq![71u8, 73u8, 79u8, 80u8, version.major, version.minor, (flag_of(endian) + if more {
        2u8
    } else {
        0u8
    }) as u8, 7u8] + u32_bytes((4 + chunk.len()) as u32, endian) + u32_bytes(id, endian) + chunk
}

/// The fragments for a list of payloads: all but the last say more follow.
pub open spec fn fragment_pieces(chunks: Seq<Seq<u8>>, version: Version, endian: Endian, id: u32) -> Seq<Seq<u8>> {
    Seq::new(
        chunks.len(),
        |i: int| fragment_piece(version, endian, i + 1 < chunks.len(), id, chunks[i]),
    )
}

/// Where the leading piece ends: at least a header and eight octets, and a
/// multiple of 8.
pub open spec fn frag_cut(threshold: int) -> int {
    let c = if threshold > 20 {
        threshold
    } else {
        20
    };
    c - c % 8
}

/// The leading piece: the message's own header, more-fragments bit set, size cut.
pub open spec fn fragment_head(msg: Seq<u8>, cut: int, endian: Endian) -> Seq<u8> {
    with_size(msg.subrange(0, cut).update(6, set_more(msg[6])), endian, (cut - 12) as u32)
}

/// How a message splits under `threshold` (§9.4.9). Only 1.2 `Request`,
/// `Reply`, `LocateRequest` and `LocateReply` messages longer than the
/// threshold are split; everything else travels whole.
pub open spec fn fragment_spec(msg: Seq<u8>, threshold: int) -> Result<Seq<Seq<u8>>, Error> {
    if msg.len() <= threshold || msg.len() <= 12 {
        Ok(seq![msg])
    } else if msg[5] < 2 {
        Ok(seq![msg])
    } else {
        let endian = if msg[6] % 2 == 1 {
            Endian::Little
        } else {
            Endian::Big
        };
        match crate::giop::msg_type_of(msg[7]) {
            None => Err(Error::UnknownMessageType(msg[7])),
            Some(t) => if !crate::giop::fragmentable(t) {
                Ok(seq![msg])
            } else {
                match logical_request_id_spec(msg, endian, t) {
                    Err(e) => Err(e),
                    Ok(id) => {
                        let cut = frag_cut(threshold);
                        if cut >= msg.len() {
                            Ok(seq![msg])
                        } else {
                            Ok(
                                seq![fragment_head(msg, cut, endian)] + fragment_pieces(
                                    split_chunks(
                                        msg.subrange(cut, msg.len() as int),
                                        frag_take(threshold),
                                        frag_full(threshold),
                                    ),
                                    Version { major: msg[4], minor: msg[5] },
                                    endian,
                                    id,
                                ),
                            )
                        }
                    },
                }
            },
        }
    }
}

/// The octets of a list of messages.
pub open spec fn pieces_view(v: Seq<Vec<u8>>) -> Seq<Seq<u8>> {
    v.map_values(|x: Vec<u8>| x@)
}

fn build_fragment(version: Version, endian: Endian, more: bool, id: u32, chunk: &[u8]) -> (r: Vec<u8>)
    ensures
        r@ == fragment_piece(version, endian, more, id, chunk@),
{
    let mut frag: Vec<u8> = Vec::new();
    frag.push(71u8);
    frag.push(73u8);
    frag.push(79u8);
    frag.push(80u8);
    frag.push(version.major);
    frag.push(version.minor);
    frag.push(endian.as_flag() + if more { 2u8 } else { 0u8 });
    frag.push(7u8);
    frag.push(0u8);
    frag.push(0u8);
    frag.push(0u8);
    frag.push(0u8);
    let idb = crate::cdr::u32_to_bytes(id, endian);
    crate::text::push_all(&mut frag, &idb);
    crate::text::push_all(&mut frag, chunk);
    let size = frag.len() - 12;
    patch_size(&mut frag, endian, #[verifier::truncate] (size as u32));
    assert(frag@ =~= fragment_piece(version, endian, more, id, chunk@));
    frag
}

proof fn lemma_split_step(rest: Seq<u8>, take: int, full: int)
    requires
        0 < full <= take,
        rest.len() > take,
    ensures
        split_chunks(rest, take, full) == seq![rest.subrange(0, full)] + split_chunks(
            rest.subrange(full, rest.len() as int),
            take,
            full,
        ),
{
}

/// Splits an encoded message into a leading message plus `Fragment`
/// continuations when it exceeds `threshold`, keeping every non-final piece
/// a multiple of 8 long so the next resumes on the stream's alignment.
/// Returns the message alone when no split applies.
pub fn fragment_message(msg: Vec<u8>, threshold: usize) -> (r: Result<Vec<Vec<u8>>, Error>)
    ensures
        match fragment_spec(msg@, threshold as int) {
            Ok(ps) => r matches Ok(v) && pieces_view(v@) == ps,
            Err(Error::UnknownMessageType(t)) => r matches Err(Error::UnknownMessageType(x)) && x
                == t,
            Err(Error::Cdr(c)) => r matches Err(Error::Cdr(x)) && x == c,
            Err(_) => false,
        },
{
    let mut whole: Vec<Vec<u8>> = Vec::new();
    let len = msg.len();
    if len <= threshold || len <= 12 {
        whole.push(msg);
        assert(pieces_view(whole@) =~= seq![msg@]);
        return Ok(whole);
    }
    let version = Version { major: msg[4], minor: msg[5] };
    if version.minor < 2 {
        whole.push(msg);
        assert(pieces_view(whole@) =~= seq![msg@]);
        return Ok(whole);
    }
    let endian = if msg[6] % 2 == 1 {
        Endian::Little
    } else {
        Endian::Big
    };
    let msg_type = match MsgType::from_octet(msg[7]) {
        Some(t) => t,
        None => return Err(Error::UnknownMessageType(msg[7])),
    };
    if !msg_type.is_fragmentable() {
        whole.push(msg);
        assert(pieces_view(whole@) =~= seq![msg@]);
        return Ok(whole);
    }
    let request_id = logical_request_id(msg.as_slice(), endian, version, msg_type)?;
    let c = if threshold > 20 {
        threshold
    } else {
        20
    };
    let cut = c - c % 8;
    if cut >= len {
        whole.push(msg);
        assert(pieces_view(whole@) =~= seq![msg@]);
        return Ok(whole);
    }
    let mut out: Vec<Vec<u8>> = Vec::new();
    let mut head: Vec<u8> = Vec::new();
    crate::text::push_all(&mut head, &msg.as_slice()[0..cut]);
    let f = head[6];
    head.set(6, if (f / 2) % 2 == 1 { f } else { f + 2 });
    patch_size(&mut head, endian, #[verifier::truncate] ((cut - 12) as u32));
    assert(head@ =~= fragment_head(msg@, cut as int, endian));
    out.push(head);
    let take: usize = if threshold >= 16 && threshold - 16 > 8 {
        threshold - 16
    } else {
        8
    };
    let full = take - (16 + take) % 8;
    assert(take as int == frag_take(threshold as int));
    assert(full as int == frag_full(threshold as int));
    let ghost all_chunks = split_chunks(msg@.subrange(cut as int, len as int), take as int, full as int);
    let ghost mut emitted: Seq<Seq<u8>> = Seq::empty();
    let mut pos = cut;
    while pos < len
        invariant
            cut <= pos <= len,
            len == msg@.len(),
            0 < full <= take,
            len <= usize::MAX,
            all_chunks == split_chunks(msg@.subrange(cut as int, len as int), take as int, full as int),
            pos < len ==> all_chunks == emitted + split_chunks(
                msg@.subrange(pos as int, len as int),
                take as int,
                full as int,
            ),
            pos < len ==> pieces_view(out@) == seq![fragment_head(msg@, cut as int, endian)]
                + emitted.map_values(|c: Seq<u8>| fragment_piece(version, endian, true, request_id, c)),
            pos == len ==> pieces_view(out@) == seq![fragment_head(msg@, cut as int, endian)]
                + fragment_pieces(all_chunks, version, endian, request_id),
        decreases len - pos,
    {
        let ghost rest = msg@.subrange(pos as int, len as int);
        let ghost before = out@;
        if take < len - pos {
            proof {
                lemma_split_step(rest, take as int, full as int);
                assert(rest.subrange(full as int, rest.len() as int) =~= msg@.subrange(
                    pos + full,
                    len as int,
                ));
            }
            let chunk = &msg.as_slice()[pos..pos + full];
            let piece = build_fragment(version, endian, true, request_id, chunk);
            out.push(piece);
            proof {
                assert(chunk@ =~= rest.subrange(0, full as int));
                emitted = emitted.push(chunk@);
                assert(pieces_view(out@) =~= pieces_view(before).push(
                    fragment_piece(version, endian, true, request_id, chunk@),
                ));
                assert(emitted.map_values(|c: Seq<u8>| fragment_piece(version, endian, true, request_id, c))
                    =~= emitted.drop_last().map_values(
                    |c: Seq<u8>| fragment_piece(version, endian, true, request_id, c),
                ).push(fragment_piece(version, endian, true, request_id, chunk@)));
                assert(emitted.drop_last() =~= emitted.drop_last());
            }
            pos = pos + full;
            proof {
                assert(all_chunks =~= emitted + split_chunks(
                    msg@.subrange(pos as int, len as int),
                    take as int,
                    full as int,
                ));
            }
        } else {
            let chunk = &msg.as_slice()[pos..len];
            let piece = build_fragment(version, endian, false, request_id, chunk);
            out.push(piece);
            proof {
                assert(chunk@ =~= rest);
                assert(split_chunks(rest, take as int, full as int) == seq![rest]);
                assert(all_chunks =~= emitted.push(rest));
                assert(fragment_pieces(all_chunks, version, endian, request_id) =~= emitted.map_values(
                    |c: Seq<u8>| fragment_piece(version, endian, true, request_id, c),
                ).push(fragment_piece(version, endian, false, request_id, rest)));
                assert(pieces_view(out@) =~= pieces_view(before).push(
                    fragment_piece(version, endian, false, request_id, rest),
                ));
            }
            pos = len;
        }
    }
    Ok(out)
}

// ─────────────────────────────────────────────────────────────────────────────
// Fragments read back
// ─────────────────────────────────────────────────────────────────────────────

/// What a reader joins from pieces read in order: the leading piece whole,
/// then each continuation past its header and the request id it names.
pub open spec fn rejoined(pieces: Seq<Seq<u8>>) -> Seq<u8>
    decreases pieces.len(),
{
    if pieces.len() <= 1 {
        if pieces.len() == 0 {
            Seq::empty()
        } else {
            pieces[0]
        }
    } else {
        rejoined(pieces.drop_last()) + pieces.last().subrange(16, pieces.last().len() as int)
    }
}

/// The byte order a message's flags octet names.
pub open spec fn endian_of_flags(b: u8) -> Endian {
    if b % 2 == 1 {
        Endian::Little
    } else {
        Endian::Big
    }
}

proof fn lemma_bytes_of_word(x0: u8, x1: u8, x2: u8, x3: u8)
    ensures
        ({
            let v = x0 as int * 0x100_0000 + x1 as int * 0x1_0000 + x2 as int * 256 + x3 as int;
            &&& 0 <= v < 0x1_0000_0000
            &&& v / 0x100_0000 == x0
            &&& (v / 0x1_0000) % 256 == x1
            &&& (v / 256) % 256 == x2
            &&& v % 256 == x3
        }),
{
    let v = x0 as int * 0x100_0000 + x1 as int * 0x1_0000 + x2 as int * 256 + x3 as int;
    assert(v / 0x100_0000 == x0) by (nonlinear_arith)
        requires
            v == x0 as int * 0x100_0000 + x1 as int * 0x1_0000 + x2 as int * 256 + x3 as int,
            0 <= x0 < 256,
            0 <= x1 < 256,
            0 <= x2 < 256,
            0 <= x3 < 256,
    ;
    assert(v / 0x1_0000 == x0 as int * 256 + x1) by (nonlinear_arith)
        requires
            v == x0 as int * 0x100_0000 + x1 as int * 0x1_0000 + x2 as int * 256 + x3 as int,
            0 <= x0 < 256,
            0 <= x1 < 256,
            0 <= x2 < 256,
            0 <= x3 < 256,
    ;
    assert(v / 256 == x0 as int * 0x1_0000 + x1 as int * 256 + x2) by (nonlinear_arith)
        requires
            v == x0 as int * 0x100_0000 + x1 as int * 0x1_0000 + x2 as int * 256 + x3 as int,
            0 <= x0 < 256,
            0 <= x1 < 256,
            0 <= x2 < 256,
            0 <= x3 < 256,
    ;
}

proof fn lemma_u32_bytes_of(b: Seq<u8>, e: Endian)
    requires
        b.len() == 4,
    ensures
        u32_bytes(u32_of(b, e), e) == b,
{
    match e {
        Endian::Big => lemma_bytes_of_word(b[0], b[1], b[2], b[3]),
        Endian::Little => lemma_bytes_of_word(b[3], b[2], b[1], b[0]),
    }
    assert(u32_bytes(u32_of(b, e), e) =~= b);
}

proof fn lemma_split_flatten(rest: Seq<u8>, take: int, full: int)
    ensures
        split_chunks(rest, take, full).flatten() == rest,
    decreases rest.len(),
{
    if rest.len() <= take || full <= 0 || full > rest.len() {
        seq![rest].lemma_flatten_one_element();
    } else {
        let tail = split_chunks(rest.subrange(full, rest.len() as int), take, full);
        lemma_split_flatten(rest.subrange(full, rest.len() as int), take, full);
        let all = seq![rest.subrange(0, full)] + tail;
        assert(all.first() == rest.subrange(0, full));
        assert(all.drop_first() =~= tail);
        assert(rest.subrange(0, full) + rest.subrange(full, rest.len() as int) =~= rest);
    }
}

proof fn lemma_rejoined(h: Seq<u8>, ps: Seq<Seq<u8>>, chunks: Seq<Seq<u8>>)
    requires
        ps.len() == chunks.len(),
        forall|i: int|
            0 <= i < ps.len() ==> (#[trigger] ps[i]).len() >= 16 && ps[i].subrange(16, ps[i].len() as int)
                == chunks[i],
    ensures
        rejoined(seq![h] + ps) == h + chunks.flatten_alt(),
    decreases ps.len(),
{
    if ps.len() == 0 {
        assert(seq![h] + ps =~= seq![h]);
        assert(h + chunks.flatten_alt() =~= h);
    } else {
        let all = seq![h] + ps;
        assert(all.drop_last() =~= seq![h] + ps.drop_last());
        assert(all.last() == ps.last());
        lemma_rejoined(h, ps.drop_last(), chunks.drop_last());
        assert(ps[ps.len() - 1] == ps.last());
        assert(h + chunks.drop_last().flatten_alt() + chunks.last() =~= h + chunks.flatten_alt());
    }
}

/// How a message that splits is laid out: its head up to `cut`, then one
/// continuation per chunk of the rest, each naming the request id the
/// message's header carries.
proof fn lemma_split_layout(msg: Seq<u8>, threshold: int) -> (r: (int, Seq<Seq<u8>>, u32))
    requires
        msg.len() >= 12,
        fragment_spec(msg, threshold) is Ok,
        fragment_spec(msg, threshold)->Ok_0.len() > 1,
    ensures
        16 <= r.0 < msg.len(),
        r.1 == split_chunks(msg.subrange(r.0, msg.len() as int), frag_take(threshold), frag_full(threshold)),
        r.2 == u32_of(msg.subrange(12, 16), endian_of_flags(msg[6])),
        fragment_spec(msg, threshold)->Ok_0 == seq![fragment_head(msg, r.0, endian_of_flags(msg[6]))]
            + fragment_pieces(r.1, Version { major: msg[4], minor: msg[5] }, endian_of_flags(msg[6]), r.2),
{
    let e = endian_of_flags(msg[6]);
    let cut = frag_cut(threshold);
    let t = crate::giop::msg_type_of(msg[7])->Some_0;
    let id = logical_request_id_spec(msg, e, t)->Ok_0;
    assert(msg.subrange(12, 16) =~= (DecoderView { bytes: msg, pos: 12, endian: e }).take(4)->Ok_0.0);
    (cut, split_chunks(msg.subrange(cut, msg.len() as int), frag_take(threshold), frag_full(threshold)), id)
}

/// The head joined with the rest, the bit cleared and the size written, is
/// the message.
proof fn lemma_head_rejoins(msg: Seq<u8>, cut: int, e: Endian)
    requires
        16 <= cut < msg.len(),
        msg[6] <= 1,
        header_size(msg, e) == msg.len() - 12,
        msg.len() - 12 <= u32::MAX,
    ensures
        fragment_head(msg, cut, e).len() == cut,
        (fragment_head(msg, cut, e) + msg.subrange(cut, msg.len() as int))[6] == msg[6] + 2,
        fragment_head(msg, cut, e).subrange(12, 16) == msg.subrange(12, 16),
        finished_bytes(fragment_head(msg, cut, e) + msg.subrange(cut, msg.len() as int), e) == msg,
{
    crate::cdr::lemma_u32_round_trip((cut - 12) as u32, e);
    crate::cdr::lemma_u32_round_trip((msg.len() - 12) as u32, e);
    lemma_u32_bytes_of(msg.subrange(8, 12), e);
    let head = fragment_head(msg, cut, e);
    assert(head.subrange(12, 16) =~= msg.subrange(12, 16));
    let joined = head + msg.subrange(cut, msg.len() as int);
    assert(joined[6] == msg[6] + 2);
    assert(finished_bytes(joined, e) =~= msg);
}

/// A continuation's header, the request id it names, and its payload.
proof fn lemma_continuation(v: Version, e: Endian, more: bool, id: u32, chunk: Seq<u8>)
    requires
        4 + chunk.len() <= u32::MAX,
    ensures
        ({
            let p = fragment_piece(v, e, more, id, chunk);
            &&& p.len() >= 16
            &&& p.len() == 16 + chunk.len()
            &&& p.subrange(0, 4) == seq![71u8, 73u8, 79u8, 80u8]
            &&& p[4] == v.major && p[5] == v.minor
            &&& p.subrange(16, p.len() as int) == chunk
            &&& p.subrange(12, 16) == u32_bytes(id, e)
            &&& p[7] == 7
            &&& p[6] == (flag_of(e) + if more {
                2u8
            } else {
                0u8
            }) as u8
            &&& header_size(p, e) == p.len() - 12
        }),
{
    crate::cdr::lemma_u32_round_trip((4 + chunk.len()) as u32, e);
    crate::cdr::lemma_u32_round_trip(id, e);
    let p = fragment_piece(v, e, more, id, chunk);
    assert(p.subrange(0, 4) =~= seq![71u8, 73u8, 79u8, 80u8]);
    assert(p.subrange(16, p.len() as int) =~= chunk);
    assert(p.subrange(12, 16) =~= u32_bytes(id, e));
    assert(p.subrange(8, 12) =~= u32_bytes((4 + chunk.len()) as u32, e));
}

/// The octets of each wire message.
pub open spec fn frames_bytes(fs: Seq<RawMessage>) -> Seq<Seq<u8>> {
    fs.map_values(|m: RawMessage| m.bytes@)
}

/// The message a run of wire messages makes: a lone one is itself; a
/// fragmented one is its pieces joined, the more-fragments bit cleared and
/// the size written.
pub open spec fn joined_message(ps: Seq<Seq<u8>>, e: Endian) -> Seq<u8> {
    if ps.len() == 1 {
        ps[0]
    } else {
        finished_bytes(rejoined(ps), e)
    }
}

/// Wire messages that make one logical message: a first one that is not a
/// fragment, saying more follow exactly when more do; for a fragmented one,
/// a 1.2 message of a type that fragments, then fragments in its version
/// and byte order naming its request id, each saying more follow exactly
/// when more do; within the fragment count, and joined within `max_size`.
pub open spec fn one_logical_message(fs: Seq<RawMessage>, max_size: usize) -> bool {
    let ps = frames_bytes(fs);
    &&& 1 <= fs.len() <= crate::giop::MAX_FRAGMENTS
    &&& fs[0].msg_type != MsgType::Fragment
    &&& fs[0].fragments == 1
    &&& ps[0].len() <= max_size + 12
    &&& fs[0].more_fragments == (fs.len() > 1)
    &&& fs.len() > 1 ==> {
        &&& fs[0].version.minor >= 2
        &&& crate::giop::fragmentable(fs[0].msg_type)
        &&& ps[0].len() >= 16
        &&& rejoined(ps).len() <= max_size
        &&& forall|i: int|
            1 <= i < fs.len() ==> {
                &&& (#[trigger] fs[i]).msg_type == MsgType::Fragment
                &&& fs[i].version == fs[0].version
                &&& fs[i].endian == fs[0].endian
                &&& ps[i].len() >= 16
                &&& ps[i].subrange(12, 16) == ps[0].subrange(12, 16)
                &&& fs[i].more_fragments == (i + 1 < fs.len())
            }
    }
}

proof fn lemma_rejoined_step(ps: Seq<Seq<u8>>, k: int)
    requires
        1 <= k < ps.len(),
    ensures
        rejoined(ps.take(k + 1)) == rejoined(ps.take(k)) + ps[k].subrange(16, ps[k].len() as int),
{
    assert(ps.take(k + 1).drop_last() =~= ps.take(k));
    assert(ps.take(k + 1).last() == ps[k]);
}

proof fn lemma_rejoined_grows(ps: Seq<Seq<u8>>, k: int)
    requires
        1 <= k <= ps.len(),
    ensures
        rejoined(ps.take(k)).len() <= rejoined(ps).len(),
    decreases ps.len() - k,
{
    if k == ps.len() {
        assert(ps.take(k) =~= ps);
    } else {
        lemma_rejoined_step(ps, k);
        lemma_rejoined_grows(ps, k + 1);
    }
}

/// Reads one logical message out of wire messages taken in order, as a
/// reader takes them off a connection: the first one begins it, and each
/// further one is fed until it is complete. Answers the message and how
/// many wire messages it took. Runs out with `Truncated` when the wire
/// messages end before the message does.
pub fn reassemble_frames(frames: Vec<RawMessage>, max_size: usize) -> (r: Result<(RawMessage, usize), Error>)
    requires
        max_size + 12 <= usize::MAX,
    ensures
        r matches Ok((_, n)) ==> 1 <= n <= frames@.len(),
        frames@.len() == 0 ==> r matches Err(Error::Cdr(CdrError::Truncated)),
        one_logical_message(frames@, max_size) ==> (r matches Ok((m, n)) && n == frames@.len()
            && m.bytes@ == joined_message(frames_bytes(frames@), frames@[0].endian) && m.msg_type
            == frames@[0].msg_type && m.version == frames@[0].version && m.endian == frames@[0].endian
            && !m.more_fragments && m.fragments == frames@.len()),
{
    let ghost all = frames@;
    let ghost ps = frames_bytes(all);
    assert(all.len() == frames.len());
    let mut rest = frames;
    if rest.len() == 0 {
        return Err(Error::Cdr(CdrError::Truncated));
    }
    let first = rest.remove(0);
    assert(first == all[0]);
    assert(first.bytes@ == ps[0]);
    if first.bytes.len() > max_size + 12 {
        return Err(Error::MessageTooLarge { declared: first.bytes.len(), limit: max_size });
    }
    proof {
        if one_logical_message(all, max_size) && all.len() > 1 {
            assert(ps[0].subrange(12, 16) =~= (DecoderView { bytes: ps[0], pos: 12, endian: first.endian }).take(4)->Ok_0.0);
        }
    }
    let mut state = match Reassembly::begin(first, max_size) {
        Ok(Step::Done(m)) => {
            return Ok((m, 1));
        },
        Ok(Step::More(s)) => s,
        Err(e) => {
            return Err(e);
        },
    };
    let mut used: usize = 1;
    proof {
        if one_logical_message(all, max_size) {
            assert(ps.take(1) =~= seq![ps[0]]);
        }
    }
    while rest.len() > 0
        invariant
            reassembly_wf(state@),
            state@.max_size == max_size,
            1 <= used <= all.len(),
            rest@ == all.skip(used as int),
            all == frames@,
            all.len() <= usize::MAX,
            ps == frames_bytes(all),
            one_logical_message(all, max_size) ==> {
                &&& used < all.len()
                &&& state@.bytes == rejoined(ps.take(used as int))
                &&& state@.count == used
                &&& state@.request_id == crate::cdr::u32_of(ps[0].subrange(12, 16), all[0].endian)
                &&& state@.msg_type == all[0].msg_type
                &&& state@.version == all[0].version
                &&& state@.endian == all[0].endian
            },
        decreases rest.len(),
    {
        assert(used < all.len());
        let next = rest.remove(0);
        let ghost k = used as int;
        assert(next == all[k]);
        proof {
            if one_logical_message(all, max_size) {
                assert(next.bytes@ == ps[k]);
                assert(ps[k].subrange(12, 16) =~= (DecoderView { bytes: ps[k], pos: 12, endian: next.endian }).take(4)->Ok_0.0);
                lemma_rejoined_step(ps, k);
                lemma_rejoined_grows(ps, k + 1);
                if k + 1 == all.len() {
                    assert(ps.take(k + 1) =~= ps);
                }
            }
        }
        match state.feed(next) {
            Ok(Step::Done(m)) => {
                return Ok((m, used + 1));
            },
            Ok(Step::More(s)) => {
                state = s;
                used = used + 1;
                assert(rest@ =~= all.skip(used as int));
            },
            Err(e) => {
                return Err(e);
            },
        }
    }
    Err(Error::Cdr(CdrError::Truncated))
}

/// Splitting a message and reading its pieces back in order reproduces it
/// octet for octet. A message that stays whole is its own one piece; a
/// split one is a leading piece saying more follow, then continuations
/// that each name the request the leading piece carries and say whether
/// more follow, and what a reader joins from them, once it has cleared the
/// more-fragments bit and written the joined size, is the message. The
/// message must describe itself: no more-fragments or reserved bit set,
/// and its size field its own length past the header.
pub proof fn law_fragments_reassemble(msg: Seq<u8>, threshold: int)
    requires
        12 <= msg.len() <= u32::MAX,
        msg[6] <= 1,
        header_size(msg, endian_of_flags(msg[6])) == msg.len() - 12,
        fragment_spec(msg, threshold) is Ok,
    ensures
        ({
            let ps = fragment_spec(msg, threshold)->Ok_0;
            let e = endian_of_flags(msg[6]);
            &&& ps.len() >= 1
            &&& ps.len() == 1 ==> ps[0] == msg
            &&& ps.len() > 1 ==> {
                &&& ps[0][6] == msg[6] + 2
                &&& finished_bytes(rejoined(ps), e) == msg
                &&& forall|i: int|
                    1 <= i < ps.len() ==> (#[trigger] ps[i]).subrange(12, 16) == ps[0].subrange(12, 16)
                        && ps[i][7] == 7 && ps[i][6] == flag_of(e) + (if i + 1 < ps.len() {
                        2u8
                    } else {
                        0u8
                    }) && header_size(ps[i], e) == ps[i].len() - 12
            }
        }),
{
    let ps = fragment_spec(msg, threshold)->Ok_0;
    let e = endian_of_flags(msg[6]);
    if ps.len() > 1 {
        let (cut, chunks, id) = lemma_split_layout(msg, threshold);
        let v = Version { major: msg[4], minor: msg[5] };
        let cont = fragment_pieces(chunks, v, e, id);
        let head = fragment_head(msg, cut, e);
        let rest = msg.subrange(cut, msg.len() as int);
        lemma_split_flatten(rest, frag_take(threshold), frag_full(threshold));
        chunks.lemma_flatten_and_flatten_alt_are_equivalent();
        assert forall|k: int| 0 <= k < chunks.len() implies 4 + (#[trigger] chunks[k]).len() <= u32::MAX by {
            chunks.lemma_flatten_length_ge_single_element_length(k);
        }
        assert forall|i: int| 0 <= i < cont.len() implies (#[trigger] cont[i]).len() >= 16
            && cont[i].subrange(16, cont[i].len() as int) == chunks[i] by {
            lemma_continuation(v, e, i + 1 < chunks.len(), id, chunks[i]);
        }
        lemma_rejoined(head, cont, chunks);
        lemma_head_rejoins(msg, cut, e);
        lemma_u32_bytes_of(msg.subrange(12, 16), e);
        assert(ps[0] == head);
        assert forall|i: int| 1 <= i < ps.len() implies (#[trigger] ps[i]).subrange(12, 16)
            == ps[0].subrange(12, 16) && ps[i][7] == 7 && ps[i][6] == flag_of(e) + (if i + 1
            < ps.len() {
            2u8
        } else {
            0u8
        }) && header_size(ps[i], e) == ps[i].len() - 12 by {
            assert(ps[i] == cont[i - 1]);
            lemma_continuation(v, e, i < chunks.len(), id, chunks[i - 1]);
        }
    }
}

/// How a reader frames one wire message: its octets, and the type,
/// version, byte order and more-fragments bit its header states.
pub open spec fn framed_by_header(f: RawMessage, max_size: usize) -> bool {
    &&& f.bytes@.len() >= 12
    &&& f.fragments == 1
    &&& parse_header_spec(f.bytes@.subrange(0, 12), max_size) matches Ok(h) ==> {
        &&& f.msg_type == h.msg_type
        &&& f.version == h.version
        &&& f.endian == h.endian
        &&& f.more_fragments == h.more_fragments
    }
}

proof fn lemma_rejoined_len(ps: Seq<Seq<u8>>, k: int)
    requires
        1 <= k < ps.len(),
        forall|i: int| 1 <= i < ps.len() ==> (#[trigger] ps[i]).len() >= 16,
    ensures
        rejoined(ps).len() >= ps[0].len() + ps[k].len() - 16,
    decreases k,
{
    lemma_rejoined_step(ps, k);
    lemma_rejoined_grows(ps, k + 1);
    if k == 1 {
        assert(ps.take(1).len() == 1);
    } else {
        lemma_rejoined_len(ps, k - 1);
        lemma_rejoined_at_least(ps, k);
    }
}

proof fn lemma_rejoined_at_least(ps: Seq<Seq<u8>>, k: int)
    requires
        1 <= k <= ps.len(),
        forall|i: int| 1 <= i < ps.len() ==> (#[trigger] ps[i]).len() >= 16,
    ensures
        rejoined(ps.take(k)).len() >= ps[0].len(),
    decreases k,
{
    if k == 1 {
        assert(ps.take(1).len() == 1);
    } else {
        lemma_rejoined_step(ps, k - 1);
        lemma_rejoined_at_least(ps, k - 1);
    }
}

/// The headers of the pieces a message splits into, as a reader parses
/// them.
#[verifier::spinoff_prover]
#[verifier::rlimit(40)]
proof fn lemma_piece_headers(msg: Seq<u8>, threshold: int, max_size: usize)
    requires
        12 <= msg.len() <= max_size,
        msg.len() <= u32::MAX,
        msg[6] <= 1,
        header_size(msg, endian_of_flags(msg[6])) == msg.len() - 12,
        parse_header_spec(msg.subrange(0, 12), max_size) is Ok,
        fragment_spec(msg, threshold) is Ok,
        fragment_spec(msg, threshold)->Ok_0.len() > 1,
    ensures
        ({
            let ps = fragment_spec(msg, threshold)->Ok_0;
            let e = endian_of_flags(msg[6]);
            let v = Version { major: msg[4], minor: msg[5] };
            &&& v.minor >= 2
            &&& crate::giop::msg_type_of(msg[7]) matches Some(t) && crate::giop::fragmentable(t)
            &&& ps[0].len() >= 16
            &&& ps[0].len() <= msg.len()
            &&& parse_header_spec(ps[0].subrange(0, 12), max_size) == Ok::<FrameHeader, Error>(
                FrameHeader {
                    msg_type: crate::giop::msg_type_of(msg[7])->Some_0,
                    version: v,
                    endian: e,
                    more_fragments: true,
                    size: (ps[0].len() - 12) as usize,
                },
            )
            &&& forall|i: int|
                1 <= i < ps.len() ==> (#[trigger] ps[i]).len() >= 16 && ps[i].subrange(0, 4) == seq![
                    71u8,
                    73u8,
                    79u8,
                    80u8,
                ] && ps[i][4] == v.major && ps[i][5] == v.minor
        }),
{
    let ps = fragment_spec(msg, threshold)->Ok_0;
    let e = endian_of_flags(msg[6]);
    let v = Version { major: msg[4], minor: msg[5] };
    let (cut, chunks, id) = lemma_split_layout(msg, threshold);
    let rest = msg.subrange(cut, msg.len() as int);
    lemma_split_flatten(rest, frag_take(threshold), frag_full(threshold));
    chunks.lemma_flatten_and_flatten_alt_are_equivalent();
    let cont = fragment_pieces(chunks, v, e, id);
    assert forall|i: int| 1 <= i < ps.len() implies (#[trigger] ps[i]).len() >= 16 && ps[i].subrange(0, 4)
        == seq![71u8, 73u8, 79u8, 80u8] && ps[i][4] == v.major && ps[i][5] == v.minor by {
        assert(ps[i] == cont[i - 1]);
        chunks.lemma_flatten_length_ge_single_element_length(i - 1);
        lemma_continuation(v, e, i < chunks.len(), id, chunks[i - 1]);
    }
    lemma_head_rejoins(msg, cut, e);
    let head = fragment_head(msg, cut, e);
    assert(ps[0] == head);
    crate::cdr::lemma_u32_round_trip((cut - 12) as u32, e);
    let h0 = head.subrange(0, 12);
    let hm = msg.subrange(0, 12);
    assert(h0.subrange(0, 4) =~= hm.subrange(0, 4));
    assert(h0[4] == hm[4] && h0[5] == hm[5] && h0[7] == hm[7]);
    assert(h0[6] == msg[6] + 2);
    assert(h0.subrange(8, 12) =~= u32_bytes((cut - 12) as u32, e));
    assert(header_size(h0, e) == cut - 12);
}

/// A continuation's header, as a reader parses it.
#[verifier::spinoff_prover]
proof fn lemma_continuation_header(p: Seq<u8>, v: Version, e: Endian, more: bool, max_size: usize)
    requires
        p.len() >= 16,
        p.len() - 12 <= max_size,
        p.subrange(0, 4) == seq![71u8, 73u8, 79u8, 80u8],
        p[4] == v.major && p[5] == v.minor,
        v.major == 1 && v.minor == 2,
        p[7] == 7,
        p[6] == (flag_of(e) + if more {
            2u8
        } else {
            0u8
        }) as u8,
        header_size(p, e) == p.len() - 12,
    ensures
        parse_header_spec(p.subrange(0, 12), max_size) == Ok::<FrameHeader, Error>(
            FrameHeader {
                msg_type: MsgType::Fragment,
                version: v,
                endian: e,
                more_fragments: more,
                size: (p.len() - 12) as usize,
            },
        ),
{
    let h = p.subrange(0, 12);
    assert(h.subrange(0, 4) =~= p.subrange(0, 4));
    assert(h.subrange(8, 12) =~= p.subrange(8, 12));
    assert(endian_of_flags(h[6]) == e);
}

/// A message split into fragments and read back, wire message by wire
/// message, as a reader frames them off a connection, is the message
/// octet for octet, in as many wire messages as it was split into — for a
/// message that describes itself (no more-fragments or reserved bit, its
/// size field its own length past the header, a header a reader accepts),
/// within the reader's size limit and the fragment count.
#[verifier::spinoff_prover]
#[verifier::rlimit(40)]
pub proof fn law_fragments_read_back(msg: Seq<u8>, threshold: int, frames: Seq<RawMessage>, max_size: usize)
    requires
        12 <= msg.len() <= max_size,
        msg.len() <= u32::MAX,
        max_size + 12 <= usize::MAX,
        msg[6] <= 1,
        header_size(msg, endian_of_flags(msg[6])) == msg.len() - 12,
        parse_header_spec(msg.subrange(0, 12), max_size) matches Ok(h) && h.msg_type != MsgType::Fragment,
        fragment_spec(msg, threshold) matches Ok(ps) && ps.len() <= crate::giop::MAX_FRAGMENTS,
        frames_bytes(frames) == fragment_spec(msg, threshold)->Ok_0,
        forall|i: int| 0 <= i < frames.len() ==> framed_by_header(#[trigger] frames[i], max_size),
    ensures
        one_logical_message(frames, max_size),
        joined_message(frames_bytes(frames), frames[0].endian) == msg,
{
    let ps = fragment_spec(msg, threshold)->Ok_0;
    let e = endian_of_flags(msg[6]);
    law_fragments_reassemble(msg, threshold);
    assert(frames.len() == ps.len());
    assert(frames[0].bytes@ == ps[0]);
    assert(framed_by_header(frames[0], max_size));
    if ps.len() == 1 {
        assert(ps[0] == msg);
        assert(frames[0].endian == e);
    } else {
        lemma_piece_headers(msg, threshold, max_size);
        let v = Version { major: msg[4], minor: msg[5] };
        assert(frames[0].endian == e);
        assert(frames[0].version == v);
        assert forall|i: int| 1 <= i < ps.len() implies (#[trigger] ps[i]).len() >= 16 by {
        }
        lemma_rejoined_at_least(ps, ps.len() as int);
        assert(ps.take(ps.len() as int) =~= ps);
        assert(rejoined(ps).len() >= 16);
        let j = rejoined(ps);
        assert(u32_bytes((j.len() - 12) as u32, e).len() == 4);
        assert(finished_bytes(j, e).len() == j.len());
        assert forall|i: int| 1 <= i < frames.len() implies {
            &&& (#[trigger] frames[i]).msg_type == MsgType::Fragment
            &&& frames[i].version == frames[0].version
            &&& frames[i].endian == frames[0].endian
            &&& ps[i].len() >= 16
            &&& ps[i].subrange(12, 16) == ps[0].subrange(12, 16)
            &&& frames[i].more_fragments == (i + 1 < frames.len())
        } by {
            assert(frames[i].bytes@ == ps[i]);
            assert(framed_by_header(frames[i], max_size));
            lemma_rejoined_len(ps, i);
            lemma_continuation_header(ps[i], v, e, i + 1 < ps.len(), max_size);
        }
    }
}

/// What a `LocateReply` answers (§9.4.6), by its status word after the
/// request id: `UNKNOWN_OBJECT` (0) and `OBJECT_HERE` (1) alone; and both
/// `OBJECT_FORWARD` (2) and `OBJECT_FORWARD_PERM` (3) the reference that
/// follows the status, as read there — a permanent forward carries its new
/// reference exactly as a temporary one does.
pub proof fn law_locate_status_answers(d: DecoderView)
    ensures
        d.get_u32() matches Ok((id, d1)) ==> (d1.get_u32() matches Ok((status, d2)) ==> {
            &&& status == 0 ==> read_locate_reply(d) == Ok::<(u32, LocateWire), CdrError>((id, LocateWire::Unknown))
            &&& status == 1 ==> read_locate_reply(d) == Ok::<(u32, LocateWire), CdrError>((id, LocateWire::Here))
            &&& (status == 2 || status == 3) ==> (read_ior_wire(d2) matches Ok((w, _))
                ==> read_locate_reply(d) == Ok::<(u32, LocateWire), CdrError>((id, LocateWire::Forward(w))))
            &&& (status == 2 || status == 3) ==> (read_ior_wire(d2) matches Err(e)
                ==> read_locate_reply(d) == Err::<(u32, LocateWire), CdrError>(e))
        }),
{
}

} // verus!
