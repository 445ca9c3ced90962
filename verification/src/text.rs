//! Text: UTF-8 conversions, ASCII case folding, decimal and hexadecimal
//! digits, and string assembly.
//!
//! Protocol text here is handled as its UTF-8 octets. The two conversions
//! from octets back to `String` are std's and are trusted; everything else is
//! proved against the octet-level definitions below.

use vstd::prelude::*;
use vstd::utf8::*;
use vstd::string::*;

verus! {

broadcast use {encode_utf8_valid_utf8, encode_utf8_decode_utf8};

/// The UTF-8 octets of a text value.
pub open spec fn bytes_of(s: Seq<char>) -> Seq<u8> {
    encode_utf8(s)
}

/// The text that valid UTF-8 octets denote.
pub open spec fn text_of(b: Seq<u8>) -> Seq<char> {
    decode_utf8(b)
}

/// `String::from_utf8` (std): the text of `bytes`, or `None` exactly when
/// they are not valid UTF-8.
#[verifier::external_body]
pub(crate) fn string_from_utf8(bytes: Vec<u8>) -> (r: Option<String>)
    ensures
        r is Some <==> valid_utf8(bytes@),
        r matches Some(s) ==> s@ == decode_utf8(bytes@),
{
    String::from_utf8(bytes).ok()
}

/// The text `String::from_utf8_lossy` makes of octets that are not valid
/// UTF-8: a function of the octets alone.
pub uninterp spec fn invalid_utf8_text(b: Seq<u8>) -> Seq<char>;

/// The text `String::from_utf8_lossy` makes of `b`: the text `b` denotes
/// when it is valid UTF-8.
pub open spec fn lossy_text(b: Seq<u8>) -> Seq<char> {
    if valid_utf8(b) {
        decode_utf8(b)
    } else {
        invalid_utf8_text(b)
    }
}

/// `String::from_utf8_lossy` (std): the text of `bytes`, unchanged when they
/// are valid UTF-8, and otherwise with every invalid sequence replaced by
/// U+FFFD. The contract states the valid case and names the other; which
/// replacement characters an invalid input gets is left unsaid.
#[verifier::external_body]
pub(crate) fn string_from_utf8_lossy(bytes: &[u8]) -> (r: String)
    ensures
        valid_utf8(bytes@) ==> r@ == decode_utf8(bytes@),
        !valid_utf8(bytes@) ==> r@ == invalid_utf8_text(bytes@),
{
    String::from_utf8_lossy(bytes).into_owned()
}

/// Text whose octets are all ASCII.
pub open spec fn all_ascii(b: Seq<u8>) -> bool {
    forall|i: int| 0 <= i < b.len() ==> b[i] < 128
}

/// ASCII octets are valid UTF-8.
pub proof fn lemma_ascii_valid_utf8(b: Seq<u8>)
    requires
        all_ascii(b),
    ensures
        valid_utf8(b),
    decreases b.len(),
{
    if b.len() > 0 {
        assert(is_leading_byte_width_1(b[0]));
        let rest = pop_first_scalar(b);
        assert(rest =~= b.subrange(1, b.len() as int));
        lemma_ascii_valid_utf8(rest);
    }
}

/// The `String` holding exactly the octets `bytes`, which must be UTF-8.
pub fn string_of_utf8(bytes: Vec<u8>) -> (r: String)
    requires
        valid_utf8(bytes@),
    ensures
        bytes_of(r@) == bytes@,
        r@ == text_of(bytes@),
{
    proof {
        vstd::utf8::decode_utf8_encode_utf8(bytes@);
    }
    match string_from_utf8(bytes) {
        Some(s) => s,
        None => String::new(),
    }
}

/// The octets of a `&str`, as an owned vector.
pub fn str_bytes(s: &str) -> (r: Vec<u8>)
    ensures
        r@ == bytes_of(s@),
{
    let b = s.as_bytes();
    let mut out: Vec<u8> = Vec::new();
    let mut i: usize = 0;
    while i < b.len()
        invariant
            i <= b@.len(),
            out@ == b@.subrange(0, i as int),
        decreases b.len() - i,
    {
        out.push(b[i]);
        i = i + 1;
        assert(out@ =~= b@.subrange(0, i as int));
    }
    assert(b@.subrange(0, b@.len() as int) =~= b@);
    out
}

/// ASCII lower case of one octet; every other octet is itself.
pub open spec fn lower(c: u8) -> u8 {
    if 65 <= c <= 90 {
        (c + 32) as u8
    } else {
        c
    }
}

pub fn to_lower(c: u8) -> (r: u8)
    ensures
        r == lower(c),
{
    if 65 <= c && c <= 90 {
        c + 32
    } else {
        c
    }
}

/// Octets equal ignoring ASCII case.
pub open spec fn eq_ignore_case(a: Seq<u8>, b: Seq<u8>) -> bool {
    a.len() == b.len() && forall|i: int| 0 <= i < a.len() ==> lower(a[i]) == lower(b[i])
}

pub fn bytes_eq_ignore_case(a: &[u8], b: &[u8]) -> (r: bool)
    ensures
        r == eq_ignore_case(a@, b@),
{
    if a.len() != b.len() {
        return false;
    }
    let mut i: usize = 0;
    while i < a.len()
        invariant
            a@.len() == b@.len(),
            i <= a@.len(),
            forall|j: int| 0 <= j < i ==> lower(a@[j]) == lower(b@[j]),
        decreases a.len() - i,
    {
        if to_lower(a[i]) != to_lower(b[i]) {
            return false;
        }
        i = i + 1;
    }
    true
}

/// Whether `s` starts with `prefix`, ignoring ASCII case.
pub open spec fn starts_with_ignore_case(s: Seq<u8>, prefix: Seq<u8>) -> bool {
    s.len() >= prefix.len() && eq_ignore_case(s.subrange(0, prefix.len() as int), prefix)
}

pub fn bytes_starts_with_ignore_case(s: &[u8], prefix: &[u8]) -> (r: bool)
    ensures
        r == starts_with_ignore_case(s@, prefix@),
{
    if s.len() < prefix.len() {
        return false;
    }
    let head = &s[0..prefix.len()];
    bytes_eq_ignore_case(head, prefix)
}

/// Octets equal.
pub fn bytes_eq(a: &[u8], b: &[u8]) -> (r: bool)
    ensures
        r == (a@ == b@),
{
    if a.len() != b.len() {
        return false;
    }
    let mut i: usize = 0;
    while i < a.len()
        invariant
            a@.len() == b@.len(),
            i <= a@.len(),
            forall|j: int| 0 <= j < i ==> a@[j] == b@[j],
        decreases a.len() - i,
    {
        if a[i] != b[i] {
            return false;
        }
        i = i + 1;
    }
    assert(a@ =~= b@);
    true
}

/// The value of one hexadecimal digit, either case.
pub open spec fn hex_value(c: u8) -> Option<u8> {
    if 48 <= c <= 57 {
        Some((c - 48) as u8)
    } else if 97 <= c <= 102 {
        Some((c - 87) as u8)
    } else if 65 <= c <= 70 {
        Some((c - 55) as u8)
    } else {
        None
    }
}

pub fn hex_nibble(c: u8) -> (r: Option<u8>)
    ensures
        r == hex_value(c),
{
    if 48 <= c && c <= 57 {
        Some(c - 48)
    } else if 97 <= c && c <= 102 {
        Some(c - 87)
    } else if 65 <= c && c <= 70 {
        Some(c - 55)
    } else {
        None
    }
}

/// The digit for a nibble, with `a`–`f` in the case `upper` picks.
pub open spec fn hex_digit(n: u8, upper: bool) -> u8 {
    if n < 10 {
        (n + 48) as u8
    } else if upper {
        (n + 55) as u8
    } else {
        (n + 87) as u8
    }
}

pub fn hex_digit_of(n: u8, upper: bool) -> (r: u8)
    requires
        n < 16,
    ensures
        r == hex_digit(n, upper),
        r < 128,
{
    if n < 10 {
        n + 48
    } else if upper {
        n + 55
    } else {
        n + 87
    }
}

/// Decimal digits of `n`, most significant first, no leading zeros.
pub open spec fn decimal(n: nat) -> Seq<u8>
    decreases n,
{
    if n < 10 {
        seq![(n + 48) as u8]
    } else {
        decimal(n / 10).push(((n % 10) + 48) as u8)
    }
}

/// Whether every octet is an ASCII digit.
pub open spec fn all_digits(b: Seq<u8>) -> bool {
    forall|i: int| 0 <= i < b.len() ==> 48 <= #[trigger] b[i] <= 57
}

/// The value of a run of decimal digits.
pub open spec fn digits_value(b: Seq<u8>) -> nat
    decreases b.len(),
{
    if b.len() == 0 {
        0
    } else {
        digits_value(b.drop_last()) * 10 + (b.last() - 48) as nat
    }
}

pub proof fn lemma_decimal_digits(n: nat)
    ensures
        all_digits(decimal(n)),
        all_ascii(decimal(n)),
        decimal(n).len() >= 1,
        digits_value(decimal(n)) == n,
    decreases n,
{
    if n >= 10 {
        lemma_decimal_digits(n / 10);
        assert(decimal(n).drop_last() =~= decimal(n / 10));
        let d = decimal(n);
        assert(d.last() == ((n % 10) + 48) as u8);
        assert((d.last() - 48) as nat == n % 10);
        assert(digits_value(d) == digits_value(d.drop_last()) * 10 + (d.last() - 48) as nat);
        assert(n == (n / 10) * 10 + n % 10);
    } else {
        let d = decimal(n);
        assert(d.drop_last() =~= Seq::<u8>::empty());
        assert(digits_value(d) == digits_value(d.drop_last()) * 10 + (d.last() - 48) as nat);
    }
}

/// Decimal text of a `u64`.
pub fn decimal_bytes(n: u64) -> (r: Vec<u8>)
    ensures
        r@ == decimal(n as nat),
    decreases n,
{
    if n < 10 {
        let mut v = Vec::new();
        v.push((n as u8) + 48);
        assert(v@ =~= decimal(n as nat));
        v
    } else {
        let mut v = decimal_bytes(n / 10);
        v.push(((n % 10) as u8) + 48);
        v
    }
}

/// Parses an unsigned decimal the way `str::parse::<u64>` does for plain
/// digits: at least one digit, nothing else, and no overflow.
pub open spec fn parse_decimal(b: Seq<u8>, max: nat) -> Option<nat> {
    if b.len() == 0 || !all_digits(b) || digits_value(b) > max {
        None
    } else {
        Some(digits_value(b))
    }
}

pub proof fn lemma_digits_value_monotone(b: Seq<u8>, i: int)
    requires
        0 <= i <= b.len(),
        all_digits(b),
    ensures
        digits_value(b.subrange(0, i)) <= digits_value(b),
    decreases b.len() - i,
{
    if i < b.len() {
        lemma_digits_value_monotone(b, i + 1);
        assert(b.subrange(0, i + 1).drop_last() =~= b.subrange(0, i));
    } else {
        assert(b.subrange(0, i) =~= b);
    }
}

/// `parse_decimal` on an exec slice, capped at `max`.
pub fn parse_decimal_bytes(b: &[u8], max: u64) -> (r: Option<u64>)
    ensures
        r matches Some(v) ==> parse_decimal(b@, max as nat) == Some(v as nat),
        r is None ==> parse_decimal(b@, max as nat) is None,
{
    if b.len() == 0 {
        return None;
    }
    let mut acc: u128 = 0;
    let mut i: usize = 0;
    while i < b.len()
        invariant
            i <= b@.len(),
            all_digits(b@.subrange(0, i as int)),
            acc as nat == digits_value(b@.subrange(0, i as int)),
            acc <= max,
        decreases b.len() - i,
    {
        let c = b[i];
        assert(b@.subrange(0, i + 1).drop_last() =~= b@.subrange(0, i as int));
        if c < 48 || c > 57 {
            assert(!all_digits(b@)) by {
                assert(b@[i as int] == c);
            }
            return None;
        }
        acc = acc * 10 + (c - 48) as u128;
        i = i + 1;
        assert(all_digits(b@.subrange(0, i as int)));
        if acc > max as u128 {
            proof {
                if all_digits(b@) {
                    lemma_digits_value_monotone(b@, i as int);
                }
            }
            return None;
        }
    }
    assert(b@.subrange(0, b@.len() as int) =~= b@);
    Some(acc as u64)
}

/// Appends `b` to `out`.
pub fn push_all(out: &mut Vec<u8>, b: &[u8])
    ensures
        final(out)@ == old(out)@ + b@,
{
    let ghost start = out@;
    let mut i: usize = 0;
    while i < b.len()
        invariant
            i <= b@.len(),
            out@ == start + b@.subrange(0, i as int),
            start == old(out)@,
        decreases b.len() - i,
    {
        out.push(b[i]);
        i = i + 1;
        assert(out@ =~= start + b@.subrange(0, i as int));
    }
    assert(b@.subrange(0, b@.len() as int) =~= b@);
}

/// Appends the characters `b`.
pub fn push_all_chars(out: &mut Vec<char>, b: &[char])
    ensures
        final(out)@ == old(out)@ + b@,
{
    let ghost start = out@;
    let mut i: usize = 0;
    while i < b.len()
        invariant
            i <= b@.len(),
            out@ == start + b@.subrange(0, i as int),
            start == old(out)@,
        decreases b.len() - i,
    {
        out.push(b[i]);
        i = i + 1;
        assert(out@ =~= start + b@.subrange(0, i as int));
    }
    assert(b@.subrange(0, b@.len() as int) =~= b@);
}

/// Finds the first occurrence of octet `c` at or after `from`.
pub open spec fn is_first_from(b: Seq<u8>, c: u8, from: int, at: int) -> bool {
    from <= at < b.len() && b[at] == c && forall|j: int| from <= j < at ==> b[j] != c
}

pub open spec fn absent_from(b: Seq<u8>, c: u8, from: int) -> bool {
    forall|j: int| from <= j < b.len() ==> b[j] != c
}

pub fn find_byte(b: &[u8], c: u8, from: usize) -> (r: Option<usize>)
    requires
        from <= b@.len(),
    ensures
        r matches Some(at) ==> is_first_from(b@, c, from as int, at as int),
        r is None ==> absent_from(b@, c, from as int),
{
    let mut i = from;
    while i < b.len()
        invariant
            from <= i <= b@.len(),
            forall|j: int| from <= j < i ==> b@[j] != c,
        decreases b.len() - i,
    {
        if b[i] == c {
            return Some(i);
        }
        i = i + 1;
    }
    None
}

/// Whether `c` has the Unicode `White_Space` property, as `char::is_whitespace`
/// documents it.
pub open spec fn is_whitespace(c: char) -> bool {
    ||| ('\u{9}' <= c && c <= '\u{d}')
    ||| c == ' '
    ||| c == '\u{85}'
    ||| c == '\u{a0}'
    ||| c == '\u{1680}'
    ||| ('\u{2000}' <= c && c <= '\u{200a}')
    ||| c == '\u{2028}'
    ||| c == '\u{2029}'
    ||| c == '\u{202f}'
    ||| c == '\u{205f}'
    ||| c == '\u{3000}'
}

/// `s` without leading and trailing whitespace.
pub open spec fn trim_chars(s: Seq<char>) -> Seq<char>
    decreases s.len(),
{
    if s.len() > 0 && is_whitespace(s[0]) {
        trim_chars(s.drop_first())
    } else if s.len() > 0 && is_whitespace(s.last()) {
        trim_chars(s.drop_last())
    } else {
        s
    }
}

/// `str::trim` (std): the slice with leading and trailing whitespace, as
/// `char::is_whitespace` defines it, removed.
#[verifier::external_body]
pub(crate) fn trim(s: &str) -> (r: &str)
    ensures
        r@ == trim_chars(s@),
{
    s.trim()
}

} // verus!
