//! Common Data Representation: the primitive encoding GIOP is written in.
//!
//! Alignment counts from an origin — the first byte of a GIOP message, or
//! the byte-order octet of an encapsulation — and every multi-octet
//! primitive is preceded by zero padding up to its own size. Strings carry a
//! length that counts a terminating NUL; octet sequences carry a bare length.
//!
//! The encoder never panics and never overflows: a write that would take the
//! stream past [`MAX_STREAM_LEN`] poisons it, and [`Encoder::finish`] then
//! refuses. The decoder leaves its position unchanged whenever a read fails.

use vstd::prelude::*;
use vstd::utf8::*;
use vstd::string::*;

verus! {

/// Largest stream either side will build or accept: every CDR length is a
/// `u32`, so nothing longer can be described on the wire anyway.
pub const MAX_STREAM_LEN: usize = 0xFFFF_FFFF;

/// Byte order of a CDR stream.
#[derive(Debug, Clone, Copy, PartialEq, Eq, Hash, Structural)]
pub enum Endian {
    /// Most significant octet first; byte-order flag 0.
    Big,
    /// Least significant octet first; byte-order flag 1.
    Little,
}

impl Endian {
    /// The GIOP flags bit (and encapsulation octet) for this byte order.
    pub fn as_flag(self) -> (r: u8)
        ensures
            r == flag_of(self),
    {
        match self {
            Endian::Big => 0,
            Endian::Little => 1,
        }
    }
}

/// The byte-order octet for an endianness.
pub open spec fn flag_of(e: Endian) -> u8 {
    match e {
        Endian::Big => 0,
        Endian::Little => 1,
    }
}

/// Why a CDR value could not be read or written.
#[derive(Debug, Clone, Copy, PartialEq, Eq, Structural)]
pub enum CdrError {
    /// The stream ended before the value did.
    Truncated,
    /// A string length of zero: a CDR string always counts its NUL.
    EmptyString,
    /// A string whose last counted octet is not NUL.
    MissingNul,
    /// A boolean octet other than 0 or 1.
    BadBoolean,
    /// An encapsulation whose byte-order octet is neither 0 nor 1.
    BadByteOrder,
    /// A string that is not valid UTF-8 where text was required.
    BadUtf8,
    /// A declared element count that the remaining bytes cannot hold.
    CountTooLarge,
    /// A seek beyond the end of the stream.
    SeekPastEnd,
    /// The stream, or a length inside it, would exceed [`MAX_STREAM_LEN`].
    TooLong,
    /// The reserved bits of a GIOP flags octet are not zero.
    ReservedFlagBits,
    /// A GIOP 1.0 byte-order octet other than 0 or 1.
    BadByteOrderOctet,
}

// ─────────────────────────────────────────────────────────────────────────────
// The encoding, as mathematics
// ─────────────────────────────────────────────────────────────────────────────

/// Padding needed at position `pos` to reach a multiple of `n`.
pub open spec fn pad(pos: int, n: int) -> int {
    if pos % n == 0 {
        0
    } else {
        n - pos % n
    }
}

/// `k` zero octets.
pub open spec fn zeros(k: int) -> Seq<u8> {
    Seq::new(k as nat, |i: int| 0u8)
}

/// The two octets of `v` in byte order `e`.
pub open spec fn u16_bytes(v: u16, e: Endian) -> Seq<u8> {
    let hi = (v / 256) as u8;
    let lo = (v % 256) as u8;
    match e {
        Endian::Big => seq![hi, lo],
        Endian::Little => seq![lo, hi],
    }
}

/// The four octets of `v` in byte order `e`.
pub open spec fn u32_bytes(v: u32, e: Endian) -> Seq<u8> {
    let b3 = (v / 0x100_0000) as u8;
    let b2 = ((v / 0x1_0000) % 256) as u8;
    let b1 = ((v / 256) % 256) as u8;
    let b0 = (v % 256) as u8;
    match e {
        Endian::Big => seq![b3, b2, b1, b0],
        Endian::Little => seq![b0, b1, b2, b3],
    }
}

/// The value two octets denote in byte order `e`.
pub open spec fn u16_of(b: Seq<u8>, e: Endian) -> u16 {
    match e {
        Endian::Big => (b[0] * 256 + b[1]) as u16,
        Endian::Little => (b[1] * 256 + b[0]) as u16,
    }
}

/// The value four octets denote in byte order `e`.
pub open spec fn u32_of(b: Seq<u8>, e: Endian) -> u32 {
    match e {
        Endian::Big => (b[0] * 0x100_0000 + b[1] * 0x1_0000 + b[2] * 256 + b[3]) as u32,
        Endian::Little => (b[3] * 0x100_0000 + b[2] * 0x1_0000 + b[1] * 256 + b[0]) as u32,
    }
}

/// The UTF-8 octets of a text value.
pub open spec fn utf8(s: Seq<char>) -> Seq<u8> {
    encode_utf8(s)
}

/// `t` is what a lossy UTF-8 read makes of `b`: the named lossy text, which
/// is the decoded text whenever `b` is valid UTF-8.
pub open spec fn lossy_text_exact(b: Seq<u8>, t: Seq<char>) -> bool {
    &&& t == crate::text::lossy_text(b)
    &&& valid_utf8(b) ==> t == decode_utf8(b)
}

pub proof fn lemma_u16_round_trip(v: u16, e: Endian)
    ensures
        u16_of(u16_bytes(v, e), e) == v,
        u16_bytes(v, e).len() == 2,
{
}

pub proof fn lemma_u32_round_trip(v: u32, e: Endian)
    ensures
        u32_of(u32_bytes(v, e), e) == v,
        u32_bytes(v, e).len() == 4,
{
}

// ─────────────────────────────────────────────────────────────────────────────
// Encoder
// ─────────────────────────────────────────────────────────────────────────────

/// What an encoder holds: the octets written, the byte order, the position
/// its first octet occupies in the enclosing stream, and whether every write
/// so far fitted.
pub struct EncoderView {
    pub bytes: Seq<u8>,
    pub endian: Endian,
    pub origin: int,
    pub ok: bool,
}

impl EncoderView {
    /// Stream position of the next octet.
    pub open spec fn pos(self) -> int {
        self.origin + self.bytes.len()
    }

    /// Appends raw octets, or poisons the stream when they do not fit.
    pub open spec fn put_raw(self, data: Seq<u8>) -> EncoderView {
        if !self.ok {
            self
        } else if self.pos() + data.len() > MAX_STREAM_LEN {
            EncoderView { bytes: self.bytes, endian: self.endian, origin: self.origin, ok: false }
        } else {
            EncoderView {
                bytes: self.bytes + data,
                endian: self.endian,
                origin: self.origin,
                ok: true,
            }
        }
    }

    pub open spec fn align(self, n: int) -> EncoderView {
        self.put_raw(zeros(pad(self.pos(), n)))
    }

    pub open spec fn put_u8(self, v: u8) -> EncoderView {
        self.put_raw(seq![v])
    }

    pub open spec fn put_bool(self, b: bool) -> EncoderView {
        self.put_u8(if b { 1u8 } else { 0u8 })
    }

    pub open spec fn put_u16(self, v: u16) -> EncoderView {
        let a = self.align(2);
        a.put_raw(u16_bytes(v, a.endian))
    }

    pub open spec fn put_u32(self, v: u32) -> EncoderView {
        let a = self.align(4);
        a.put_raw(u32_bytes(v, a.endian))
    }

    pub open spec fn poison(self) -> EncoderView {
        EncoderView { bytes: self.bytes, endian: self.endian, origin: self.origin, ok: false }
    }

    /// An octet sequence: its length, then its octets.
    pub open spec fn put_octet_seq(self, data: Seq<u8>) -> EncoderView {
        if data.len() > u32::MAX {
            self.poison()
        } else {
            self.put_u32(data.len() as u32).put_raw(data)
        }
    }

    /// A string given as octets: length counting the NUL, octets, NUL.
    pub open spec fn put_str_bytes(self, data: Seq<u8>) -> EncoderView {
        if data.len() + 1 > u32::MAX {
            self.poison()
        } else {
            self.put_u32((data.len() + 1) as u32).put_raw(data.push(0u8))
        }
    }

    pub open spec fn put_str(self, s: Seq<char>) -> EncoderView {
        self.put_str_bytes(utf8(s))
    }

    /// Overwrites four octets at `at` with `v`.
    pub open spec fn patch_u32(self, at: int, v: u32) -> EncoderView {
        EncoderView {
            bytes: self.bytes.subrange(0, at) + u32_bytes(v, self.endian) + self.bytes.subrange(
                at + 4,
                self.bytes.len() as int,
            ),
            endian: self.endian,
            origin: self.origin,
            ok: self.ok,
        }
    }
}

/// An encoder with nothing written, whose first octet sits at `origin`.
pub open spec fn empty_encoder(endian: Endian, origin: int) -> EncoderView {
    EncoderView { bytes: Seq::empty(), endian, origin, ok: true }
}

/// An encapsulation under way: the byte-order octet, at the origin.
pub open spec fn encapsulation_start(endian: Endian) -> EncoderView {
    EncoderView { bytes: seq![flag_of(endian)], endian, origin: 0, ok: true }
}

/// A growable CDR output stream.
pub struct Encoder {
    buf: Vec<u8>,
    endian: Endian,
    origin: usize,
    ok: bool,
}

impl View for Encoder {
    type V = EncoderView;

    closed spec fn view(&self) -> EncoderView {
        EncoderView { bytes: self.buf@, endian: self.endian, origin: self.origin as int, ok: self.ok }
    }
}

pub open spec fn pad_exec_ok(pos: usize, n: usize, p: usize) -> bool {
    p == pad(pos as int, n as int) && p < n
}

fn pad_to(pos: usize, n: usize) -> (p: usize)
    requires
        n > 0,
    ensures
        pad_exec_ok(pos, n, p),
{
    let r = pos % n;
    if r == 0 {
        0
    } else {
        n - r
    }
}

impl Encoder {
    /// A stream whose first octet is the alignment origin.
    pub fn new(endian: Endian) -> (e: Encoder)
        ensures
            e@ == empty_encoder(endian, 0),
    {
        Encoder { buf: Vec::new(), endian, origin: 0, ok: true }
    }

    /// A stream that continues one already `start` octets long, so that
    /// alignment lands where it will in the enclosing message.
    pub fn continuing_at(endian: Endian, start: usize) -> (e: Encoder)
        requires
            start <= MAX_STREAM_LEN,
        ensures
            e@ == empty_encoder(endian, start as int),
    {
        Encoder { buf: Vec::new(), endian, origin: start, ok: true }
    }

    /// An encapsulation: a byte-order octet, which is also its origin.
    pub fn encapsulation(endian: Endian) -> (e: Encoder)
        ensures
            e@ == encapsulation_start(endian),
    {
        let mut buf = Vec::new();
        buf.push(endian.as_flag());
        Encoder { buf, endian, origin: 0, ok: true }
    }

    pub fn endian(&self) -> (r: Endian)
        ensures
            r == self@.endian,
    {
        self.endian
    }

    /// Octets written so far.
    pub fn len(&self) -> (r: usize)
        ensures
            r == self@.bytes.len(),
    {
        self.buf.len()
    }

    /// Stream position of the next octet, when it fits the stream limit.
    fn checked_position(&self) -> (r: Option<usize>)
        ensures
            r matches Some(p) ==> p == self@.pos() && p <= MAX_STREAM_LEN,
            r is None ==> self@.pos() > MAX_STREAM_LEN,
    {
        if self.origin > MAX_STREAM_LEN || self.buf.len() > MAX_STREAM_LEN - self.origin {
            None
        } else {
            Some(self.origin + self.buf.len())
        }
    }

    /// Whether every write so far fitted.
    pub fn is_ok(&self) -> (r: bool)
        ensures
            r == self@.ok,
    {
        self.ok
    }

    pub fn put_bytes(&mut self, data: &[u8])
        ensures
            final(self)@ == old(self)@.put_raw(data@),
    {
        if !self.ok {
            return ;
        }
        let pos = match self.checked_position() {
            Some(p) => p,
            None => {
                self.ok = false;
                return ;
            },
        };
        if data.len() > MAX_STREAM_LEN - pos {
            self.ok = false;
            return ;
        }
        let ghost start = self.buf@;
        let mut i: usize = 0;
        while i < data.len()
            invariant
                i <= data@.len(),
                self.buf@ == start + data@.subrange(0, i as int),
                self.ok,
                self.origin == old(self).origin,
                self.endian == old(self).endian,
                start == old(self)@.bytes,
            decreases data.len() - i,
        {
            self.buf.push(data[i]);
            i = i + 1;
            assert(self.buf@ =~= start + data@.subrange(0, i as int));
        }
        assert(data@.subrange(0, data@.len() as int) =~= data@);
    }

    fn put_zeros(&mut self, k: usize)
        ensures
            final(self)@ == old(self)@.put_raw(zeros(k as int)),
    {
        if !self.ok {
            return ;
        }
        let pos = match self.checked_position() {
            Some(p) => p,
            None => {
                self.ok = false;
                return ;
            },
        };
        if k > MAX_STREAM_LEN - pos {
            self.ok = false;
            return ;
        }
        let ghost start = self.buf@;
        let mut i: usize = 0;
        while i < k
            invariant
                i <= k,
                self.buf@ == start + zeros(i as int),
                self.origin + start.len() + k <= MAX_STREAM_LEN,
                self.ok,
                self.origin == old(self).origin,
                self.endian == old(self).endian,
                start == old(self)@.bytes,
            decreases k - i,
        {
            self.buf.push(0u8);
            i = i + 1;
            assert(self.buf@ =~= start + zeros(i as int));
        }
    }

    /// Pads with zeros to the next multiple of `n`.
    pub fn align_to(&mut self, n: usize)
        requires
            n > 0,
        ensures
            final(self)@ == old(self)@.align(n as int),
    {
        match self.checked_position() {
            Some(pos) => {
                let p = pad_to(pos, n);
                self.put_zeros(p);
            },
            None => {
                if self.ok {
                    self.ok = false;
                }
            },
        }
    }

    pub fn put_u8(&mut self, v: u8)
        ensures
            final(self)@ == old(self)@.put_u8(v),
    {
        let one = [v];
        self.put_bytes(&one);
        assert(one@ =~= seq![v]);
    }

    pub fn put_bool(&mut self, b: bool)
        ensures
            final(self)@ == old(self)@.put_bool(b),
    {
        self.put_u8(if b { 1u8 } else { 0u8 });
    }

    pub fn put_u16(&mut self, v: u16)
        ensures
            final(self)@ == old(self)@.put_u16(v),
    {
        self.align_to(2);
        let b = u16_to_bytes(v, self.endian);
        self.put_bytes(&b);
    }

    pub fn put_u32(&mut self, v: u32)
        ensures
            final(self)@ == old(self)@.put_u32(v),
    {
        self.align_to(4);
        let b = u32_to_bytes(v, self.endian);
        self.put_bytes(&b);
    }

    /// An octet sequence: its length, then its octets.
    pub fn put_octet_seq(&mut self, data: &[u8])
        ensures
            final(self)@ == old(self)@.put_octet_seq(data@),
    {
        if data.len() > 0xFFFF_FFFFusize {
            self.poison_stream();
            return ;
        }
        self.put_u32(data.len() as u32);
        self.put_bytes(data);
    }

    /// A CDR string from its octets: the length counts a terminating NUL.
    pub fn put_str_bytes(&mut self, data: &[u8])
        ensures
            final(self)@ == old(self)@.put_str_bytes(data@),
    {
        if data.len() >= 0xFFFF_FFFFusize {
            self.poison_stream();
            return ;
        }
        self.put_u32((data.len() + 1) as u32);
        let ghost before = self@;
        let fits = match self.checked_position() {
            Some(p) => data.len() < MAX_STREAM_LEN - p,
            None => false,
        };
        if !fits {
            if self.ok {
                self.ok = false;
            }
            return ;
        }
        self.put_bytes(data);
        self.put_u8(0u8);
        proof {
            let mid = before.put_raw(data@);
            if before.ok && before.pos() + data@.len() + 1 <= MAX_STREAM_LEN {
                assert(before.bytes + data@.push(0u8) =~= before.bytes + data@ + seq![0u8]);
            }
        }
    }

    /// A CDR string holding the UTF-8 octets of `s`.
    pub fn put_str(&mut self, s: &str)
        ensures
            final(self)@ == old(self)@.put_str(s@),
    {
        self.put_str_bytes(s.as_bytes());
    }

    /// Marks the stream as failed, as an overlong write would.
    pub fn poison_stream(&mut self)
        ensures
            final(self)@ == old(self)@.poison(),
    {
        self.ok = false;
    }

    /// Writes a finished encapsulation as an octet sequence; a poisoned one
    /// poisons this stream too.
    pub fn put_encapsulation(&mut self, inner: Encoder)
        ensures
            final(self)@ == (if inner@.ok {
                old(self)@.put_octet_seq(inner@.bytes)
            } else {
                old(self)@.poison()
            }),
    {
        if !inner.ok {
            self.poison_stream();
            return ;
        }
        self.put_octet_seq(inner.buf.as_slice());
    }

    /// Overwrites the four octets at `at` with `v` in this stream's order.
    pub fn patch_u32(&mut self, at: usize, v: u32)
        requires
            at + 4 <= old(self)@.bytes.len(),
        ensures
            final(self)@ == old(self)@.patch_u32(at as int, v),
    {
        let b = u32_to_bytes(v, self.endian);
        let _n = self.buf.len();
        self.buf.set(at, b[0]);
        self.buf.set(at + 1, b[1]);
        self.buf.set(at + 2, b[2]);
        self.buf.set(at + 3, b[3]);
        proof {
            let old_bytes = old(self)@.bytes;
            assert(self.buf@ =~= old_bytes.subrange(0, at as int) + u32_bytes(v, self.endian)
                + old_bytes.subrange(at + 4, old_bytes.len() as int));
        }
    }

    /// The encoded octets, or [`CdrError::TooLong`] if any write overflowed.
    pub fn finish(self) -> (r: Result<Vec<u8>, CdrError>)
        ensures
            self@.ok ==> (r matches Ok(v) && v@ == self@.bytes),
            !self@.ok ==> r == Err::<Vec<u8>, CdrError>(CdrError::TooLong),
    {
        if self.ok {
            Ok(self.buf)
        } else {
            Err(CdrError::TooLong)
        }
    }

    /// The octets written so far, poisoned or not.
    pub fn as_bytes(&self) -> (r: &[u8])
        ensures
            r@ == self@.bytes,
    {
        self.buf.as_slice()
    }
}


// ─────────────────────────────────────────────────────────────────────────────
// Decoder
// ─────────────────────────────────────────────────────────────────────────────

/// What a decoder holds: the whole stream, the read position (which is also
/// the alignment position: the stream's first octet is the origin), and the
/// byte order.
pub struct DecoderView {
    pub bytes: Seq<u8>,
    pub pos: int,
    pub endian: Endian,
}

impl DecoderView {
    pub open spec fn at(self, p: int) -> DecoderView {
        DecoderView { bytes: self.bytes, pos: p, endian: self.endian }
    }

    pub open spec fn remaining(self) -> int {
        self.bytes.len() - self.pos
    }

    /// The next `n` octets, and the decoder past them.
    pub open spec fn take(self, n: int) -> Result<(Seq<u8>, DecoderView), CdrError> {
        if 0 <= self.pos && 0 <= n && self.pos + n <= self.bytes.len() {
            Ok((self.bytes.subrange(self.pos, self.pos + n), self.at(self.pos + n)))
        } else {
            Err(CdrError::Truncated)
        }
    }

    /// Skips the padding up to a multiple of `n`; the padding must exist.
    pub open spec fn align(self, n: int) -> Result<DecoderView, CdrError> {
        match self.take(pad(self.pos, n)) {
            Ok((_, d)) => Ok(d),
            Err(e) => Err(e),
        }
    }

    pub open spec fn get_u8(self) -> Result<(u8, DecoderView), CdrError> {
        match self.take(1) {
            Ok((b, d)) => Ok((b[0], d)),
            Err(e) => Err(e),
        }
    }

    pub open spec fn get_bool(self) -> Result<(bool, DecoderView), CdrError> {
        match self.get_u8() {
            Ok((v, d)) => if v == 0 {
                Ok((false, d))
            } else if v == 1 {
                Ok((true, d))
            } else {
                Err(CdrError::BadBoolean)
            },
            Err(e) => Err(e),
        }
    }

    pub open spec fn get_u16(self) -> Result<(u16, DecoderView), CdrError> {
        match self.align(2) {
            Ok(a) => match a.take(2) {
                Ok((b, d)) => Ok((u16_of(b, self.endian), d)),
                Err(e) => Err(e),
            },
            Err(e) => Err(e),
        }
    }

    pub open spec fn get_u32(self) -> Result<(u32, DecoderView), CdrError> {
        match self.align(4) {
            Ok(a) => match a.take(4) {
                Ok((b, d)) => Ok((u32_of(b, self.endian), d)),
                Err(e) => Err(e),
            },
            Err(e) => Err(e),
        }
    }

    /// An octet sequence: a `u32` length and that many octets.
    pub open spec fn get_octet_seq(self) -> Result<(Seq<u8>, DecoderView), CdrError> {
        match self.get_u32() {
            Ok((n, a)) => a.take(n as int),
            Err(e) => Err(e),
        }
    }

    /// A string's octets: the length counts a NUL, which must be there and
    /// is not returned.
    pub open spec fn get_string_bytes(self) -> Result<(Seq<u8>, DecoderView), CdrError> {
        match self.get_u32() {
            Ok((n, a)) => if n == 0 {
                Err(CdrError::EmptyString)
            } else {
                match a.take(n as int) {
                    Ok((b, d)) => if b.last() == 0 {
                        Ok((b.drop_last(), d))
                    } else {
                        Err(CdrError::MissingNul)
                    },
                    Err(e) => Err(e),
                }
            },
            Err(e) => Err(e),
        }
    }

    /// A string that must be UTF-8 text.
    pub open spec fn get_string(self) -> Result<(Seq<char>, DecoderView), CdrError> {
        match self.get_string_bytes() {
            Ok((b, d)) => if valid_utf8(b) {
                Ok((decode_utf8(b), d))
            } else {
                Err(CdrError::BadUtf8)
            },
            Err(e) => Err(e),
        }
    }

    /// Whether `count` elements of at least `min_size` octets can still fit.
    pub open spec fn count_fits(self, count: int, min_size: int) -> bool {
        count * min_size <= self.remaining()
    }
}

/// The decoder that reads a whole encapsulation: past its byte-order octet.
pub open spec fn open_encapsulation(bytes: Seq<u8>) -> Result<DecoderView, CdrError> {
    if bytes.len() == 0 {
        Err(CdrError::Truncated)
    } else if bytes[0] == 0 {
        Ok(DecoderView { bytes, pos: 1, endian: Endian::Big })
    } else if bytes[0] == 1 {
        Ok(DecoderView { bytes, pos: 1, endian: Endian::Little })
    } else {
        Err(CdrError::BadByteOrder)
    }
}

/// The exec outcome of a read, in the shape the spec readers return.
pub open spec fn outcome<T>(r: Result<T, CdrError>, after: DecoderView) -> Result<
    (T, DecoderView),
    CdrError,
> {
    match r {
        Ok(v) => Ok((v, after)),
        Err(e) => Err(e),
    }
}

/// A cursor over a CDR stream.
pub struct Decoder<'a> {
    buf: &'a [u8],
    pos: usize,
    endian: Endian,
}

impl<'a> View for Decoder<'a> {
    type V = DecoderView;

    closed spec fn view(&self) -> DecoderView {
        DecoderView { bytes: self.buf@, pos: self.pos as int, endian: self.endian }
    }
}

impl<'a> Decoder<'a> {
    /// A decoder at the start of `bytes`, which is also the alignment origin.
    pub fn new(bytes: &'a [u8], endian: Endian) -> (d: Decoder<'a>)
        ensures
            d@ == (DecoderView { bytes: bytes@, pos: 0, endian }),
    {
        Decoder { buf: bytes, pos: 0, endian }
    }

    /// A decoder over an encapsulation, positioned past its byte-order
    /// octet and reading in the order that octet names.
    pub fn encapsulation(bytes: &'a [u8]) -> (r: Result<Decoder<'a>, CdrError>)
        ensures
            match r {
                Ok(d) => open_encapsulation(bytes@) == Ok::<DecoderView, CdrError>(d@),
                Err(e) => open_encapsulation(bytes@) == Err::<DecoderView, CdrError>(e),
            },
    {
        if bytes.len() == 0 {
            Err(CdrError::Truncated)
        } else if bytes[0] == 0 {
            Ok(Decoder { buf: bytes, pos: 1, endian: Endian::Big })
        } else if bytes[0] == 1 {
            Ok(Decoder { buf: bytes, pos: 1, endian: Endian::Little })
        } else {
            Err(CdrError::BadByteOrder)
        }
    }

    pub fn endian(&self) -> (r: Endian)
        ensures
            r == self@.endian,
    {
        self.endian
    }

    pub fn offset(&self) -> (r: usize)
        ensures
            r == self@.pos,
    {
        self.pos
    }

    /// Octets left to read.
    pub fn remaining(&self) -> (r: usize)
        ensures
            self@.pos <= self@.bytes.len() ==> r == self@.remaining(),
            self@.pos > self@.bytes.len() ==> r == 0,
    {
        if self.pos <= self.buf.len() {
            self.buf.len() - self.pos
        } else {
            0
        }
    }

    pub fn is_empty(&self) -> (r: bool)
        ensures
            r == (self@.pos >= self@.bytes.len()),
    {
        self.pos >= self.buf.len()
    }

    /// Moves to absolute position `pos`, which may be the end but not past it.
    pub fn seek_to(&mut self, pos: usize) -> (r: Result<(), CdrError>)
        ensures
            pos <= old(self)@.bytes.len() ==> r is Ok && final(self)@ == old(self)@.at(pos as int),
            pos > old(self)@.bytes.len() ==> r == Err::<(), CdrError>(CdrError::SeekPastEnd)
                && final(self)@ == old(self)@,
    {
        if pos > self.buf.len() {
            Err(CdrError::SeekPastEnd)
        } else {
            self.pos = pos;
            Ok(())
        }
    }

    fn take(&mut self, n: usize) -> (r: Result<&'a [u8], CdrError>)
        ensures
            old(self)@.take(n as int) == (match r {
                Ok(s) => Ok((s@, final(self)@)),
                Err(e) => Err(e),
            }),
            r is Err ==> final(self)@ == old(self)@,
    {
        if self.pos <= self.buf.len() && n <= self.buf.len() - self.pos {
            let s = &self.buf[self.pos..self.pos + n];
            self.pos = self.pos + n;
            Ok(s)
        } else {
            Err(CdrError::Truncated)
        }
    }

    /// Skips padding up to a multiple of `n`.
    pub fn align_to(&mut self, n: usize) -> (r: Result<(), CdrError>)
        requires
            n > 0,
        ensures
            old(self)@.align(n as int) == (match r {
                Ok(_) => Ok(final(self)@),
                Err(e) => Err(e),
            }),
            r is Err ==> final(self)@ == old(self)@,
    {
        let p = pad_to(self.pos, n);
        match self.take(p) {
            Ok(_) => Ok(()),
            Err(e) => Err(e),
        }
    }

    pub fn get_u8(&mut self) -> (r: Result<u8, CdrError>)
        ensures
            old(self)@.get_u8() == outcome(r, final(self)@),
            r is Err ==> final(self)@ == old(self)@,
    {
        let s = self.take(1)?;
        Ok(s[0])
    }

    pub fn get_bool(&mut self) -> (r: Result<bool, CdrError>)
        ensures
            old(self)@.get_bool() == outcome(r, final(self)@),
            r is Err ==> final(self)@ == old(self)@,
    {
        let saved = self.pos;
        let v = self.get_u8()?;
        if v == 0 {
            Ok(false)
        } else if v == 1 {
            Ok(true)
        } else {
            self.pos = saved;
            Err(CdrError::BadBoolean)
        }
    }

    pub fn get_u16(&mut self) -> (r: Result<u16, CdrError>)
        ensures
            old(self)@.get_u16() == outcome(r, final(self)@),
            r is Err ==> final(self)@ == old(self)@,
    {
        let saved = self.pos;
        self.align_to(2)?;
        match self.take(2) {
            Ok(s) => {
                let v = (s[0] as u16) * 256 + (s[1] as u16);
                let w = (s[1] as u16) * 256 + (s[0] as u16);
                match self.endian {
                    Endian::Big => Ok(v),
                    Endian::Little => Ok(w),
                }
            },
            Err(e) => {
                self.pos = saved;
                Err(e)
            },
        }
    }

    pub fn get_u32(&mut self) -> (r: Result<u32, CdrError>)
        ensures
            old(self)@.get_u32() == outcome(r, final(self)@),
            r is Err ==> final(self)@ == old(self)@,
    {
        let saved = self.pos;
        self.align_to(4)?;
        match self.take(4) {
            Ok(s) => {
                assert(s@ =~= seq![s@[0], s@[1], s@[2], s@[3]]);
                Ok(u32_from_bytes(s[0], s[1], s[2], s[3], self.endian))
            },
            Err(e) => {
                self.pos = saved;
                Err(e)
            },
        }
    }

    /// An octet sequence, borrowed from the stream.
    pub fn get_octet_seq(&mut self) -> (r: Result<&'a [u8], CdrError>)
        ensures
            old(self)@.get_octet_seq() == (match r {
                Ok(s) => Ok((s@, final(self)@)),
                Err(e) => Err(e),
            }),
            r is Err ==> final(self)@ == old(self)@,
    {
        let saved = self.pos;
        let n = self.get_u32()?;
        match self.take(n as usize) {
            Ok(s) => Ok(s),
            Err(e) => {
                self.pos = saved;
                Err(e)
            },
        }
    }

    /// A string's octets, without the terminating NUL.
    pub fn get_string_bytes(&mut self) -> (r: Result<&'a [u8], CdrError>)
        ensures
            old(self)@.get_string_bytes() == (match r {
                Ok(s) => Ok((s@, final(self)@)),
                Err(e) => Err(e),
            }),
            r is Err ==> final(self)@ == old(self)@,
    {
        let saved = self.pos;
        let n = self.get_u32()?;
        if n == 0 {
            self.pos = saved;
            return Err(CdrError::EmptyString);
        }
        match self.take(n as usize) {
            Ok(s) => {
                if s[s.len() - 1] != 0 {
                    self.pos = saved;
                    return Err(CdrError::MissingNul);
                }
                let body = &s[0..s.len() - 1];
                assert(body@ =~= s@.drop_last());
                Ok(body)
            },
            Err(e) => {
                self.pos = saved;
                Err(e)
            },
        }
    }

    /// A string that must be UTF-8.
    pub fn get_string(&mut self) -> (r: Result<String, CdrError>)
        ensures
            match r {
                Ok(s) => old(self)@.get_string() == Ok::<(Seq<char>, DecoderView), CdrError>(
                    (s@, final(self)@),
                ),
                Err(e) => old(self)@.get_string() == Err::<(Seq<char>, DecoderView), CdrError>(e),
            },
            r is Err ==> final(self)@ == old(self)@,
    {
        let saved = self.pos;
        let b = self.get_string_bytes()?;
        let mut owned: Vec<u8> = Vec::new();
        crate::text::push_all(&mut owned, b);
        match crate::text::string_from_utf8(owned) {
            Some(s) => Ok(s),
            None => {
                self.pos = saved;
                Err(CdrError::BadUtf8)
            },
        }
    }

    /// `count` as a `usize`, if that many elements of at least `min_size`
    /// octets could still be in the stream; a count the stream cannot hold
    /// is refused before anything is allocated for it.
    pub fn validate_count(&self, count: u32, min_size: usize) -> (r: Result<usize, CdrError>)
        ensures
            self@.pos <= self@.bytes.len() ==> (match r {
                Ok(n) => n == count && self@.count_fits(count as int, min_size as int),
                Err(e) => e == CdrError::CountTooLarge && !self@.count_fits(
                    count as int,
                    min_size as int,
                ),
            }),
    {
        let rem = self.remaining();
        let c = count as usize;
        if min_size == 0 {
            proof {
                assert(count as int * min_size as int == 0) by (nonlinear_arith)
                    requires min_size == 0;
            }
            return Ok(c);
        }
        if c > rem / min_size {
            proof {
                assert(count as int * min_size as int > rem as int) by (nonlinear_arith)
                    requires
                        c as int > rem as int / min_size as int,
                        min_size > 0,
                        c == count,
                ;
            }
            Err(CdrError::CountTooLarge)
        } else {
            proof {
                assert(count as int * min_size as int <= rem as int) by (nonlinear_arith)
                    requires
                        c as int <= rem as int / min_size as int,
                        min_size > 0,
                        c == count,
                ;
            }
            Ok(c)
        }
    }
}

// ─────────────────────────────────────────────────────────────────────────────
// Reading back what was written
// ─────────────────────────────────────────────────────────────────────────────

/// `d` reads the stream `e` wrote from its start: same origin, same byte
/// order, positioned where `e` had got to, over octets that begin with
/// everything `w` (the encoder after one more write) holds.
pub open spec fn reads_back(e: EncoderView, w: EncoderView, d: DecoderView) -> bool {
    &&& e.origin == 0
    &&& w.ok
    &&& d.endian == e.endian
    &&& d.pos == e.bytes.len()
    &&& w.bytes.len() <= d.bytes.len()
    &&& d.bytes.subrange(0, w.bytes.len() as int) == w.bytes
}

proof fn lemma_put_raw_ok(e: EncoderView, data: Seq<u8>)
    requires
        e.put_raw(data).ok,
    ensures
        e.ok,
        e.put_raw(data).bytes == e.bytes + data,
        e.put_raw(data).origin == e.origin,
        e.put_raw(data).endian == e.endian,
{
}

proof fn lemma_take_written(d: DecoderView, prefix: Seq<u8>, data: Seq<u8>)
    requires
        d.pos == prefix.len(),
        (prefix + data).len() <= d.bytes.len(),
        d.bytes.subrange(0, (prefix + data).len() as int) == prefix + data,
    ensures
        d.take(data.len() as int) == Ok::<(Seq<u8>, DecoderView), CdrError>(
            (data, d.at(d.pos + data.len())),
        ),
{
    let n = (prefix + data).len() as int;
    assert(d.bytes.subrange(d.pos, d.pos + data.len()) =~= (prefix + data).subrange(
        prefix.len() as int,
        n,
    ));
    assert((prefix + data).subrange(prefix.len() as int, n) =~= data);
}

proof fn lemma_align_written(e: EncoderView, n: int, d: DecoderView, w: EncoderView)
    requires
        n > 0,
        e.origin == 0,
        e.align(n).ok,
        d.pos == e.bytes.len(),
        e.align(n).bytes.len() <= w.bytes.len(),
        w.bytes.len() <= d.bytes.len(),
        d.bytes.subrange(0, w.bytes.len() as int) == w.bytes,
        w.bytes.subrange(0, e.align(n).bytes.len() as int) == e.align(n).bytes,
    ensures
        d.align(n) == Ok::<DecoderView, CdrError>(d.at(e.align(n).bytes.len() as int)),
{
    let z = zeros(pad(e.pos(), n));
    let a = e.align(n);
    lemma_put_raw_ok(e, z);
    assert(d.bytes.subrange(0, a.bytes.len() as int) =~= a.bytes) by {
        assert(d.bytes.subrange(0, a.bytes.len() as int) =~= w.bytes.subrange(
            0,
            a.bytes.len() as int,
        ));
    }
    lemma_take_written(d, e.bytes, z);
}

/// Reading a `u8` gives back the `u8` written.
pub proof fn law_u8_read_back(e: EncoderView, v: u8, d: DecoderView)
    requires
        reads_back(e, e.put_u8(v), d),
    ensures
        d.get_u8() == Ok::<(u8, DecoderView), CdrError>((v, d.at(e.put_u8(v).bytes.len() as int))),
{
    lemma_put_raw_ok(e, seq![v]);
    lemma_take_written(d, e.bytes, seq![v]);
}

/// Reading a boolean gives back the boolean written.
pub proof fn law_bool_read_back(e: EncoderView, b: bool, d: DecoderView)
    requires
        reads_back(e, e.put_bool(b), d),
    ensures
        d.get_bool() == Ok::<(bool, DecoderView), CdrError>(
            (b, d.at(e.put_bool(b).bytes.len() as int)),
        ),
{
    law_u8_read_back(e, if b { 1u8 } else { 0u8 }, d);
}

/// Reading a `u16` gives back the `u16` written, padding included.
pub proof fn law_u16_read_back(e: EncoderView, v: u16, d: DecoderView)
    requires
        reads_back(e, e.put_u16(v), d),
    ensures
        d.get_u16() == Ok::<(u16, DecoderView), CdrError>(
            (v, d.at(e.put_u16(v).bytes.len() as int)),
        ),
{
    let a = e.align(2);
    let w = e.put_u16(v);
    lemma_put_raw_ok(a, u16_bytes(v, a.endian));
    assert(w.bytes.subrange(0, a.bytes.len() as int) =~= a.bytes);
    lemma_align_written(e, 2, d, w);
    let da = d.at(a.bytes.len() as int);
    lemma_take_written(da, a.bytes, u16_bytes(v, a.endian));
    lemma_u16_round_trip(v, e.endian);
}

/// Reading a `u32` gives back the `u32` written, padding included.
pub proof fn law_u32_read_back(e: EncoderView, v: u32, d: DecoderView)
    requires
        reads_back(e, e.put_u32(v), d),
    ensures
        d.get_u32() == Ok::<(u32, DecoderView), CdrError>(
            (v, d.at(e.put_u32(v).bytes.len() as int)),
        ),
{
    let a = e.align(4);
    let w = e.put_u32(v);
    lemma_put_raw_ok(a, u32_bytes(v, a.endian));
    assert(w.bytes.subrange(0, a.bytes.len() as int) =~= a.bytes);
    lemma_align_written(e, 4, d, w);
    let da = d.at(a.bytes.len() as int);
    lemma_take_written(da, a.bytes, u32_bytes(v, a.endian));
    lemma_u32_round_trip(v, e.endian);
}

/// Reading an octet sequence gives back the octets written.
pub proof fn law_octet_seq_read_back(e: EncoderView, data: Seq<u8>, d: DecoderView)
    requires
        reads_back(e, e.put_octet_seq(data), d),
    ensures
        d.get_octet_seq() == Ok::<(Seq<u8>, DecoderView), CdrError>(
            (data, d.at(e.put_octet_seq(data).bytes.len() as int)),
        ),
{
    let n = data.len() as u32;
    let l = e.put_u32(n);
    let w = e.put_octet_seq(data);
    lemma_put_raw_ok(l, data);
    assert(w.bytes.subrange(0, l.bytes.len() as int) =~= l.bytes);
    assert(d.bytes.subrange(0, l.bytes.len() as int) =~= l.bytes) by {
        assert(d.bytes.subrange(0, l.bytes.len() as int) =~= w.bytes.subrange(
            0,
            l.bytes.len() as int,
        ));
    }
    law_u32_read_back(e, n, d);
    let dl = d.at(l.bytes.len() as int);
    lemma_take_written(dl, l.bytes, data);
}

/// Reading a string gives back the octets written, without the NUL.
pub proof fn law_str_bytes_read_back(e: EncoderView, data: Seq<u8>, d: DecoderView)
    requires
        reads_back(e, e.put_str_bytes(data), d),
    ensures
        d.get_string_bytes() == Ok::<(Seq<u8>, DecoderView), CdrError>(
            (data, d.at(e.put_str_bytes(data).bytes.len() as int)),
        ),
{
    let n = (data.len() + 1) as u32;
    let l = e.put_u32(n);
    let w = e.put_str_bytes(data);
    let body = data.push(0u8);
    lemma_put_raw_ok(l, body);
    assert(w.bytes.subrange(0, l.bytes.len() as int) =~= l.bytes);
    assert(d.bytes.subrange(0, l.bytes.len() as int) =~= l.bytes) by {
        assert(d.bytes.subrange(0, l.bytes.len() as int) =~= w.bytes.subrange(
            0,
            l.bytes.len() as int,
        ));
    }
    law_u32_read_back(e, n, d);
    let dl = d.at(l.bytes.len() as int);
    lemma_take_written(dl, l.bytes, body);
    assert(body.drop_last() =~= data);
}

/// Reading a string gives back the text written.
pub proof fn law_str_read_back(e: EncoderView, s: Seq<char>, d: DecoderView)
    requires
        reads_back(e, e.put_str(s), d),
    ensures
        d.get_string() == Ok::<(Seq<char>, DecoderView), CdrError>(
            (s, d.at(e.put_str(s).bytes.len() as int)),
        ),
        d.get_string_bytes() == Ok::<(Seq<u8>, DecoderView), CdrError>(
            (utf8(s), d.at(e.put_str(s).bytes.len() as int)),
        ),
{
    law_str_bytes_read_back(e, utf8(s), d);
    vstd::utf8::encode_utf8_valid_utf8(s);
    vstd::utf8::encode_utf8_decode_utf8(s);
}

/// `b` is `a` with more written after it: whenever `b` is intact, so is
/// `a`, and `a`'s octets begin `b`'s.
pub open spec fn extends(a: EncoderView, b: EncoderView) -> bool {
    b.ok ==> {
        &&& a.ok
        &&& a.origin == b.origin
        &&& a.endian == b.endian
        &&& a.bytes.len() <= b.bytes.len()
        &&& b.bytes.subrange(0, a.bytes.len() as int) == a.bytes
    }
}

/// `d` holds everything `w` wrote, from the stream's start.
pub open spec fn holds(w: EncoderView, d: DecoderView) -> bool {
    &&& w.ok
    &&& w.origin == 0
    &&& d.endian == w.endian
    &&& w.bytes.len() <= d.bytes.len()
    &&& d.bytes.subrange(0, w.bytes.len() as int) == w.bytes
}

pub proof fn lemma_extends_refl(a: EncoderView)
    ensures
        extends(a, a),
{
    assert(a.bytes.subrange(0, a.bytes.len() as int) =~= a.bytes);
}

pub proof fn lemma_extends_trans(a: EncoderView, b: EncoderView, c: EncoderView)
    requires
        extends(a, b),
        extends(b, c),
    ensures
        extends(a, c),
{
    if c.ok {
        assert(c.bytes.subrange(0, a.bytes.len() as int) =~= c.bytes.subrange(
            0,
            b.bytes.len() as int,
        ).subrange(0, a.bytes.len() as int));
    }
}

/// What a later write holds, an earlier one holds too, and it reads back
/// from where the earlier one began.
pub proof fn lemma_reads_back_at(e: EncoderView, w: EncoderView, f: EncoderView, d: DecoderView)
    requires
        extends(e, w),
        extends(w, f),
        holds(f, d),
    ensures
        holds(w, d),
        reads_back(e, w, d.at(e.bytes.len() as int)),
{
    lemma_extends_trans(e, w, f);
    assert(d.bytes.subrange(0, w.bytes.len() as int) =~= d.bytes.subrange(
        0,
        f.bytes.len() as int,
    ).subrange(0, w.bytes.len() as int));
}

pub proof fn lemma_put_raw_extends(e: EncoderView, data: Seq<u8>)
    ensures
        extends(e, e.put_raw(data)),
        e.put_raw(data).ok ==> e.put_raw(data).bytes.len() == e.bytes.len() + data.len(),
{
    if e.put_raw(data).ok {
        assert(e.put_raw(data).bytes.subrange(0, e.bytes.len() as int) =~= e.bytes);
    }
}

pub proof fn lemma_u8_extends(e: EncoderView, v: u8)
    ensures
        extends(e, e.put_u8(v)),
{
    lemma_put_raw_extends(e, seq![v]);
}

pub proof fn lemma_u16_extends(e: EncoderView, v: u16)
    ensures
        extends(e, e.put_u16(v)),
{
    let a = e.align(2);
    lemma_put_raw_extends(e, zeros(pad(e.pos(), 2)));
    lemma_put_raw_extends(a, u16_bytes(v, a.endian));
    lemma_extends_trans(e, a, e.put_u16(v));
}

pub proof fn lemma_u32_extends(e: EncoderView, v: u32)
    ensures
        extends(e, e.put_u32(v)),
        e.put_u32(v).ok ==> e.put_u32(v).bytes.len() >= e.bytes.len() + 4,
{
    let a = e.align(4);
    lemma_put_raw_extends(e, zeros(pad(e.pos(), 4)));
    lemma_put_raw_extends(a, u32_bytes(v, a.endian));
    lemma_extends_trans(e, a, e.put_u32(v));
}

pub proof fn lemma_octets_extend(e: EncoderView, b: Seq<u8>)
    ensures
        extends(e, e.put_octet_seq(b)),
        e.put_octet_seq(b).ok ==> e.put_octet_seq(b).bytes.len() >= e.bytes.len() + 4 + b.len(),
{
    if b.len() <= u32::MAX {
        let l = e.put_u32(b.len() as u32);
        lemma_u32_extends(e, b.len() as u32);
        lemma_put_raw_extends(l, b);
        lemma_extends_trans(e, l, e.put_octet_seq(b));
    }
}

pub proof fn lemma_str_extends(e: EncoderView, s: Seq<char>)
    ensures
        extends(e, e.put_str(s)),
        e.put_str(s).ok ==> e.put_str(s).bytes.len() >= e.bytes.len() + 5,
{
    let b = utf8(s);
    if b.len() + 1 <= u32::MAX {
        let l = e.put_u32((b.len() + 1) as u32);
        lemma_u32_extends(e, (b.len() + 1) as u32);
        lemma_put_raw_extends(l, b.push(0u8));
        lemma_extends_trans(e, l, e.put_str_bytes(b));
    }
}

/// A `u8` written at `e` inside a stream `d` holds reads back there.
pub proof fn lemma_read_u8_at(e: EncoderView, v: u8, f: EncoderView, d: DecoderView)
    requires
        extends(e.put_u8(v), f),
        holds(f, d),
    ensures
        extends(e, f),
        d.at(e.bytes.len() as int).get_u8() == Ok::<(u8, DecoderView), CdrError>(
            (v, d.at(e.put_u8(v).bytes.len() as int)),
        ),
{
    lemma_u8_extends(e, v);
    lemma_extends_trans(e, e.put_u8(v), f);
    lemma_reads_back_at(e, e.put_u8(v), f, d);
    law_u8_read_back(e, v, d.at(e.bytes.len() as int));
}

/// A `u16` written at `e` inside a stream `d` holds reads back there.
pub proof fn lemma_read_u16_at(e: EncoderView, v: u16, f: EncoderView, d: DecoderView)
    requires
        extends(e.put_u16(v), f),
        holds(f, d),
    ensures
        extends(e, f),
        d.at(e.bytes.len() as int).get_u16() == Ok::<(u16, DecoderView), CdrError>(
            (v, d.at(e.put_u16(v).bytes.len() as int)),
        ),
{
    lemma_u16_extends(e, v);
    lemma_extends_trans(e, e.put_u16(v), f);
    lemma_reads_back_at(e, e.put_u16(v), f, d);
    law_u16_read_back(e, v, d.at(e.bytes.len() as int));
}

/// A `u32` written at `e` inside a stream `d` holds reads back there.
pub proof fn lemma_read_u32_at(e: EncoderView, v: u32, f: EncoderView, d: DecoderView)
    requires
        extends(e.put_u32(v), f),
        holds(f, d),
    ensures
        extends(e, f),
        e.put_u32(v).bytes.len() >= e.bytes.len() + 4,
        d.at(e.bytes.len() as int).get_u32() == Ok::<(u32, DecoderView), CdrError>(
            (v, d.at(e.put_u32(v).bytes.len() as int)),
        ),
{
    lemma_u32_extends(e, v);
    lemma_extends_trans(e, e.put_u32(v), f);
    lemma_reads_back_at(e, e.put_u32(v), f, d);
    law_u32_read_back(e, v, d.at(e.bytes.len() as int));
}

/// An octet sequence written at `e` inside a stream `d` holds reads back
/// there.
pub proof fn lemma_read_octets_at(e: EncoderView, b: Seq<u8>, f: EncoderView, d: DecoderView)
    requires
        extends(e.put_octet_seq(b), f),
        holds(f, d),
    ensures
        extends(e, f),
        e.put_octet_seq(b).bytes.len() >= e.bytes.len() + 4 + b.len(),
        d.at(e.bytes.len() as int).get_octet_seq() == Ok::<(Seq<u8>, DecoderView), CdrError>(
            (b, d.at(e.put_octet_seq(b).bytes.len() as int)),
        ),
{
    lemma_octets_extend(e, b);
    lemma_extends_trans(e, e.put_octet_seq(b), f);
    lemma_reads_back_at(e, e.put_octet_seq(b), f, d);
    law_octet_seq_read_back(e, b, d.at(e.bytes.len() as int));
}

/// A string written at `e` inside a stream `d` holds reads back there, as
/// its UTF-8 octets.
pub proof fn lemma_read_str_at(e: EncoderView, s: Seq<char>, f: EncoderView, d: DecoderView)
    requires
        extends(e.put_str(s), f),
        holds(f, d),
    ensures
        extends(e, f),
        d.at(e.bytes.len() as int).get_string_bytes() == Ok::<(Seq<u8>, DecoderView), CdrError>(
            (utf8(s), d.at(e.put_str(s).bytes.len() as int)),
        ),
{
    lemma_str_extends(e, s);
    lemma_extends_trans(e, e.put_str(s), f);
    lemma_reads_back_at(e, e.put_str(s), f, d);
    law_str_read_back(e, s, d.at(e.bytes.len() as int));
}

/// The octets of `v` in byte order `e`.
pub fn u16_to_bytes(v: u16, e: Endian) -> (r: [u8; 2])
    ensures
        r@ == u16_bytes(v, e),
{
    let hi = (v / 256) as u8;
    let lo = (v % 256) as u8;
    let r = match e {
        Endian::Big => [hi, lo],
        Endian::Little => [lo, hi],
    };
    assert(r@ =~= u16_bytes(v, e));
    r
}

/// The octets of `v` in byte order `e`.
pub fn u32_to_bytes(v: u32, e: Endian) -> (r: [u8; 4])
    ensures
        r@ == u32_bytes(v, e),
{
    let b3 = (v / 0x100_0000) as u8;
    let b2 = ((v / 0x1_0000) % 256) as u8;
    let b1 = ((v / 256) % 256) as u8;
    let b0 = (v % 256) as u8;
    let r = match e {
        Endian::Big => [b3, b2, b1, b0],
        Endian::Little => [b0, b1, b2, b3],
    };
    assert(r@ =~= u32_bytes(v, e));
    r
}

/// The value of four octets in byte order `e`.
pub fn u32_from_bytes(b0: u8, b1: u8, b2: u8, b3: u8, e: Endian) -> (r: u32)
    ensures
        r == u32_of(seq![b0, b1, b2, b3], e),
{
    match e {
        Endian::Big => (b0 as u32) * 0x100_0000 + (b1 as u32) * 0x1_0000 + (b2 as u32) * 256
            + (b3 as u32),
        Endian::Little => (b3 as u32) * 0x100_0000 + (b2 as u32) * 0x1_0000 + (b1 as u32) * 256
            + (b0 as u32),
    }
}

} // verus!
