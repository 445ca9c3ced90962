//! Text as characters: the character sequence of a string slice, building a
//! `String` from characters through their UTF-8 encoding, and the small
//! scanning helpers the URL and name grammars are written with.

use vstd::prelude::*;
use vstd::utf8::*;

use crate::text::{is_whitespace, trim_chars};

verus! {

broadcast use {encode_utf8_valid_utf8, encode_utf8_decode_utf8, vstd::string::group_string_axioms};

/// The characters of `s`, in order.
pub fn chars_of(s: &str) -> (r: Vec<char>)
    ensures
        r@ == s@,
{
    let mut out: Vec<char> = Vec::new();
    for c in it: s.chars()
        invariant
            out@ == it.seq().take(it.index() as int),
            it.seq() == s@,
    {
        out.push(c);
    }
    out
}


/// The UTF-8 encoding of a sequence ends with that of its last character.
pub proof fn lemma_encode_push(a: Seq<char>, c: char)
    ensures
        encode_utf8(a.push(c)) == encode_utf8(a) + encode_scalar(c as u32),
    decreases a.len(),
{
    if a.len() == 0 {
        assert(a.push(c).drop_first() =~= Seq::<char>::empty());
        assert(encode_utf8(Seq::<char>::empty()) == Seq::<u8>::empty());
        assert(encode_utf8(a.push(c)) =~= encode_scalar(c as u32));
    } else {
        lemma_encode_push(a.drop_first(), c);
        assert(a.push(c).drop_first() =~= a.drop_first().push(c));
        assert(encode_utf8(a.push(c)) =~= encode_utf8(a) + encode_scalar(c as u32));
    }
}

/// The UTF-8 encoding of a concatenation is the concatenation of encodings.
pub proof fn lemma_encode_concat(a: Seq<char>, b: Seq<char>)
    ensures
        encode_utf8(a + b) == encode_utf8(a) + encode_utf8(b),
    decreases b.len(),
{
    if b.len() == 0 {
        assert(a + b =~= a);
        assert(encode_utf8(a) + encode_utf8(b) =~= encode_utf8(a));
    } else {
        lemma_encode_concat(a, b.drop_last());
        lemma_encode_push(a + b.drop_last(), b.last());
        lemma_encode_push(b.drop_last(), b.last());
        assert((a + b.drop_last()).push(b.last()) =~= a + b);
        assert(b.drop_last().push(b.last()) =~= b);
        assert(encode_utf8(a + b) =~= encode_utf8(a) + encode_utf8(b));
    }
}

/// Appends the UTF-8 encoding of `c`.
pub fn push_utf8(out: &mut Vec<u8>, c: char)
    ensures
        final(out)@ == old(out)@ + encode_scalar(c as u32),
{
    let v = c as u32;
    if v <= 0x7F {
        out.push((v & 0x7F) as u8);
    } else if v <= 0x7FF {
        out.push(0xC0 | ((v >> 6) & 0x1F) as u8);
        out.push(0x80 | (v & 0x3F) as u8);
    } else if v <= 0xFFFF {
        out.push(0xE0 | ((v >> 12) & 0x0F) as u8);
        out.push(0x80 | ((v >> 6) & 0x3F) as u8);
        out.push(0x80 | (v & 0x3F) as u8);
    } else {
        out.push(0xF0 | ((v >> 18) & 0x7) as u8);
        out.push(0x80 | ((v >> 12) & 0x3F) as u8);
        out.push(0x80 | ((v >> 6) & 0x3F) as u8);
        out.push(0x80 | (v & 0x3F) as u8);
    }
    assert(final(out)@ =~= old(out)@ + encode_scalar(c as u32));
}

/// The UTF-8 octets of a character sequence.
pub fn utf8_of(cs: &[char]) -> (r: Vec<u8>)
    ensures
        r@ == encode_utf8(cs@),
{
    let mut out: Vec<u8> = Vec::new();
    let mut i: usize = 0;
    while i < cs.len()
        invariant
            i <= cs@.len(),
            out@ == encode_utf8(cs@.take(i as int)),
        decreases cs.len() - i,
    {
        proof {
            lemma_encode_push(cs@.take(i as int), cs@[i as int]);
            assert(cs@.take(i as int).push(cs@[i as int]) =~= cs@.take(i + 1));
        }
        push_utf8(&mut out, cs[i]);
        i = i + 1;
    }
    assert(cs@.take(cs@.len() as int) =~= cs@);
    out
}

/// The `String` holding exactly the characters `cs`.
pub fn string_of(cs: &[char]) -> (r: String)
    ensures
        r@ == cs@,
{
    let bytes = utf8_of(cs);
    crate::text::string_of_utf8(bytes)
}


/// ASCII case folding of one character, as a code point.
pub open spec fn fold_case(c: char) -> u32 {
    if 65 <= (c as u32) <= 90 {
        ((c as u32) + 32) as u32
    } else {
        c as u32
    }
}

/// Equality ignoring ASCII case.
pub open spec fn eq_ci(a: Seq<char>, b: Seq<char>) -> bool {
    a.len() == b.len() && forall|i: int| 0 <= i < a.len() ==> fold_case(#[trigger] a[i]) == fold_case(b[i])
}

/// What follows `prefix` in `s`, when `s` starts with it ignoring ASCII case.
pub open spec fn strip_ci(s: Seq<char>, prefix: Seq<char>) -> Option<Seq<char>> {
    if s.len() >= prefix.len() && eq_ci(s.take(prefix.len() as int), prefix) {
        Some(s.skip(prefix.len() as int))
    } else {
        None
    }
}

fn fold_char(c: char) -> (r: u32)
    ensures
        r == fold_case(c),
{
    let v = c as u32;
    if 65 <= v && v <= 90 {
        v + 32
    } else {
        v
    }
}

/// `strip_ci` on slices.
pub fn strip_prefix_ci<'a>(s: &'a [char], prefix: &[char]) -> (r: Option<&'a [char]>)
    ensures
        match strip_ci(s@, prefix@) {
            Some(rest) => r matches Some(x) && x@ == rest,
            None => r is None,
        },
{
    if s.len() < prefix.len() {
        return None;
    }
    let mut i: usize = 0;
    while i < prefix.len()
        invariant
            i <= prefix@.len() <= s@.len(),
            forall|j: int| 0 <= j < i ==> fold_case(s@[j]) == fold_case(prefix@[j]),
        decreases prefix.len() - i,
    {
        if fold_char(s[i]) != fold_char(prefix[i]) {
            assert(!eq_ci(s@.take(prefix@.len() as int), prefix@)) by {
                assert(s@.take(prefix@.len() as int)[i as int] == s@[i as int]);
            }
            return None;
        }
        i = i + 1;
    }
    assert(eq_ci(s@.take(prefix@.len() as int), prefix@)) by {
        assert forall|j: int| 0 <= j < prefix@.len() implies fold_case(
            #[trigger] s@.take(prefix@.len() as int)[j],
        ) == fold_case(prefix@[j]) by {
            assert(s@.take(prefix@.len() as int)[j] == s@[j]);
        }
    }
    let rest = &s[prefix.len()..s.len()];
    assert(rest@ =~= s@.skip(prefix@.len() as int));
    Some(rest)
}

/// The index of the first `c` at or after `i`, or the length when there is
/// none.
pub open spec fn first_at(s: Seq<char>, c: char, i: int) -> int
    decreases s.len() - i,
{
    if i >= s.len() {
        s.len() as int
    } else if s[i] == c {
        i
    } else {
        first_at(s, c, i + 1)
    }
}

pub proof fn lemma_first_at(s: Seq<char>, c: char, i: int)
    requires
        0 <= i <= s.len(),
    ensures
        i <= first_at(s, c, i) <= s.len(),
        first_at(s, c, i) < s.len() ==> s[first_at(s, c, i)] == c,
        forall|j: int| i <= j < first_at(s, c, i) ==> s[j] != c,
    decreases s.len() - i,
{
    if i < s.len() && s[i] != c {
        lemma_first_at(s, c, i + 1);
    }
}

/// `first_at` from the start.
pub open spec fn find(s: Seq<char>, c: char) -> int {
    first_at(s, c, 0)
}

/// The first index of `c` in `s`, or its length.
pub fn find_char(s: &[char], c: char) -> (r: usize)
    ensures
        r == find(s@, c),
        r <= s@.len(),
        r < s@.len() ==> s@[r as int] == c,
        forall|j: int| 0 <= j < r ==> s@[j] != c,
{
    let mut i: usize = 0;
    while i < s.len()
        invariant
            i <= s@.len(),
            first_at(s@, c, 0) == first_at(s@, c, i as int),
            forall|j: int| 0 <= j < i ==> s@[j] != c,
        decreases s.len() - i,
    {
        if s[i] == c {
            return i;
        }
        i = i + 1;
    }
    i
}

/// Whether `c` is an ASCII decimal digit.
pub open spec fn is_digit(c: char) -> bool {
    48 <= (c as u32) <= 57
}

/// Whether every character is an ASCII decimal digit.
pub open spec fn all_digits(s: Seq<char>) -> bool {
    forall|i: int| 0 <= i < s.len() ==> is_digit(#[trigger] s[i])
}

/// The value of a run of decimal digits.
pub open spec fn dec_value(s: Seq<char>) -> nat
    decreases s.len(),
{
    if s.len() == 0 {
        0
    } else {
        dec_value(s.drop_last()) * 10 + ((s.last() as u32) - 48) as nat
    }
}

/// How `str::parse` reads an unsigned integer no larger than `max`: an
/// optional `+`, then at least one decimal digit.
pub open spec fn parse_uint(s: Seq<char>, max: nat) -> Option<nat> {
    let d = if s.len() > 0 && s[0] == '+' {
        s.drop_first()
    } else {
        s
    };
    if d.len() == 0 || !all_digits(d) || dec_value(d) > max {
        None
    } else {
        Some(dec_value(d))
    }
}

proof fn lemma_dec_value_monotone(s: Seq<char>, i: int)
    requires
        0 <= i <= s.len(),
        forall|j: int| 0 <= j < s.len() ==> is_digit(#[trigger] s[j]),
    ensures
        dec_value(s.take(i)) <= dec_value(s),
    decreases s.len() - i,
{
    if i < s.len() {
        lemma_dec_value_monotone(s, i + 1);
        assert(s.take(i + 1).drop_last() =~= s.take(i));
    } else {
        assert(s.take(i) =~= s);
    }
}

/// `parse_uint` on a slice.
pub fn parse_uint_chars(s: &[char], max: u64) -> (r: Option<u64>)
    ensures
        match parse_uint(s@, max as nat) {
            Some(v) => r == Some(v as u64),
            None => r is None,
        },
{
    let start: usize = if s.len() > 0 && s[0] == '+' {
        1
    } else {
        0
    };
    let ghost d = if s@.len() > 0 && s@[0] == '+' {
        s@.drop_first()
    } else {
        s@
    };
    assert(d =~= s@.skip(start as int));
    if start >= s.len() {
        return None;
    }
    let mut acc: u64 = 0;
    let mut i: usize = start;
    while i < s.len()
        invariant
            start <= i <= s@.len(),
            d == s@.skip(start as int),
            d == (if s@.len() > 0 && s@[0] == '+' {
                s@.drop_first()
            } else {
                s@
            }),
            d.len() > 0,
            forall|j: int| 0 <= j < i - start ==> is_digit(#[trigger] d[j]),
            acc as nat == dec_value(d.take(i - start)),
            acc <= max,
        decreases s.len() - i,
    {
        let c = s[i];
        assert(d[i - start] == c);
        if !(48 <= (c as u32) && (c as u32) <= 57) {
            assert(!is_digit(d[i - start]));
            return None;
        }
        let digit = (c as u32 - 48) as u64;
        assert(d.take(i - start + 1).drop_last() =~= d.take(i - start));
        assert(forall|j: int| 0 <= j < i - start + 1 ==> is_digit(#[trigger] d[j]));
        assert(d.take(i - start + 1).last() == c);
        assert(dec_value(d.take(i - start + 1)) == acc * 10 + digit);
        if digit > max || acc > (max - digit) / 10 {
            proof {
                assert(acc * 10 + digit > max) by (nonlinear_arith)
                    requires digit > max || acc > (max - digit) / 10, acc >= 0;
                if all_digits(d) {
                    lemma_dec_value_monotone(d, i - start + 1);
                }
            }
            return None;
        }
        proof {
            assert(acc * 10 + digit <= max) by (nonlinear_arith)
                requires acc <= (max - digit) / 10, max >= digit;
        }
        acc = acc * 10 + digit;
        i = i + 1;
    }
    assert(d.take(d.len() as int) =~= d);
    Some(acc)
}


/// `char::is_whitespace` on one character.
pub fn is_space(c: char) -> (r: bool)
    ensures
        r == is_whitespace(c),
{
    let v = c as u32;
    (0x9 <= v && v <= 0xd) || v == 0x20 || v == 0x85 || v == 0xa0 || v == 0x1680 || (0x2000 <= v
        && v <= 0x200a) || v == 0x2028 || v == 0x2029 || v == 0x202f || v == 0x205f || v == 0x3000
}

proof fn lemma_trim_front(s: Seq<char>, a: int)
    requires
        0 <= a <= s.len(),
        forall|j: int| 0 <= j < a ==> is_whitespace(#[trigger] s[j]),
    ensures
        trim_chars(s) == trim_chars(s.skip(a)),
    decreases a,
{
    if a > 0 {
        assert(s.drop_first().skip(a - 1) =~= s.skip(a));
        lemma_trim_front(s.drop_first(), a - 1);
    } else {
        assert(s.skip(0) =~= s);
    }
}

proof fn lemma_trim_back(s: Seq<char>, b: int)
    requires
        0 < b <= s.len(),
        !is_whitespace(s[0]),
        forall|j: int| b <= j < s.len() ==> is_whitespace(#[trigger] s[j]),
        !is_whitespace(s[b - 1]),
    ensures
        trim_chars(s) == s.take(b),
    decreases s.len() - b,
{
    if b < s.len() {
        assert(s.drop_last()[0] == s[0]);
        lemma_trim_back(s.drop_last(), b);
        assert(s.drop_last().take(b) =~= s.take(b));
    } else {
        assert(s.take(b) =~= s);
    }
}

/// `s` without leading and trailing whitespace.
pub fn trim_slice(s: &[char]) -> (r: &[char])
    ensures
        r@ == trim_chars(s@),
{
    let mut a: usize = 0;
    while a < s.len() && is_space(s[a])
        invariant
            a <= s@.len(),
            forall|j: int| 0 <= j < a ==> is_whitespace(#[trigger] s@[j]),
        decreases s.len() - a,
    {
        a = a + 1;
    }
    proof {
        lemma_trim_front(s@, a as int);
    }
    if a == s.len() {
        let e = &s[a..a];
        assert(s@.skip(a as int) =~= Seq::<char>::empty());
        assert(e@ =~= Seq::<char>::empty());
        return e;
    }
    let mut b: usize = s.len();
    while b > a && is_space(s[b - 1])
        invariant
            a < b <= s@.len(),
            !is_whitespace(s@[a as int]),
            forall|j: int| b <= j < s@.len() ==> is_whitespace(#[trigger] s@[j]),
        decreases b,
    {
        b = b - 1;
    }
    let t = &s[a..b];
    proof {
        let rest = s@.skip(a as int);
        assert(forall|j: int| b - a <= j < rest.len() ==> rest[j] == s@[j + a]);
        lemma_trim_back(rest, b - a);
        assert(t@ =~= rest.take(b - a));
    }
    t
}

/// Whether two texts are equal ignoring ASCII case.
pub fn eq_ci_slices(a: &[char], b: &[char]) -> (r: bool)
    ensures
        r == eq_ci(a@, b@),
{
    if a.len() != b.len() {
        return false;
    }
    let mut i: usize = 0;
    while i < a.len()
        invariant
            i <= a@.len() == b@.len(),
            forall|j: int| 0 <= j < i ==> fold_case(#[trigger] a@[j]) == fold_case(b@[j]),
        decreases a.len() - i,
    {
        if fold_char(a[i]) != fold_char(b[i]) {
            return false;
        }
        i = i + 1;
    }
    true
}

/// How many times `c` occurs in `s`.
pub open spec fn count(s: Seq<char>, c: char) -> nat
    decreases s.len(),
{
    if s.len() == 0 {
        0
    } else {
        count(s.drop_last(), c) + if s.last() == c {
            1nat
        } else {
            0nat
        }
    }
}

/// Whether `c` occurs in `s` more than once.
pub fn occurs_twice(s: &[char], c: char) -> (r: bool)
    ensures
        r == (count(s@, c) > 1),
{
    let mut n: usize = 0;
    let mut i: usize = 0;
    while i < s.len()
        invariant
            i <= s@.len(),
            n == count(s@.take(i as int), c),
            n <= 1,
        decreases s.len() - i,
    {
        assert(s@.take(i + 1).drop_last() =~= s@.take(i as int));
        if s[i] == c {
            if n == 1 {
                proof {
                    lemma_count_prefix(s@, c, i + 1);
                }
                return true;
            }
            n = n + 1;
        }
        i = i + 1;
    }
    assert(s@.take(s@.len() as int) =~= s@);
    n > 1
}

proof fn lemma_count_prefix(s: Seq<char>, c: char, i: int)
    requires
        0 <= i <= s.len(),
    ensures
        count(s.take(i), c) <= count(s, c),
    decreases s.len() - i,
{
    if i < s.len() {
        lemma_count_prefix(s, c, i + 1);
        assert(s.take(i + 1).drop_last() =~= s.take(i));
    } else {
        assert(s.take(i) =~= s);
    }
}


/// Characters for ASCII octets.
pub open spec fn ascii_chars(b: Seq<u8>) -> Seq<char> {
    b.map_values(|x: u8| x as char)
}

/// ASCII octets decode to the characters of the same codes.
pub proof fn lemma_ascii_decode(b: Seq<u8>)
    requires
        crate::text::all_ascii(b),
    ensures
        decode_utf8(b) == ascii_chars(b),
    decreases b.len(),
{
    crate::text::lemma_ascii_valid_utf8(b);
    if b.len() == 0 {
        assert(ascii_chars(b) =~= Seq::<char>::empty());
    } else {
        assert(is_leading_byte_width_1(b[0]));
        let rest = pop_first_scalar(b);
        assert(rest =~= b.subrange(1, b.len() as int));
        assert(crate::text::all_ascii(rest));
        lemma_ascii_decode(rest);
        assert(ascii_chars(b) =~= seq![b[0] as char] + ascii_chars(rest));
        let b0 = b[0];
        assert(b0 & 0x7F == b0) by (bit_vector)
            requires
                b0 <= 0x7f,
        ;
        assert(decode_first_scalar(b) == b[0] as u32);
        assert((b[0] as u32) as char == b[0] as char);
    }
}

/// Appends octets as characters.
pub fn push_ascii(out: &mut Vec<char>, b: &[u8])
    ensures
        final(out)@ == old(out)@ + ascii_chars(b@),
{
    let ghost start = out@;
    let mut i: usize = 0;
    while i < b.len()
        invariant
            i <= b@.len(),
            out@ == start + ascii_chars(b@.take(i as int)),
            start == old(out)@,
        decreases b.len() - i,
    {
        out.push(b[i] as char);
        i = i + 1;
        assert(out@ =~= start + ascii_chars(b@.take(i as int)));
    }
    assert(b@.take(b@.len() as int) =~= b@);
}

/// The decimal digits of `n`, as characters.
pub open spec fn decimal_text(n: nat) -> Seq<char> {
    ascii_chars(crate::text::decimal(n))
}

/// Appends the decimal digits of `n`.
pub fn push_decimal(out: &mut Vec<char>, n: u64)
    ensures
        final(out)@ == old(out)@ + decimal_text(n as nat),
{
    let d = crate::text::decimal_bytes(n);
    push_ascii(out, d.as_slice());
}


/// Appends the characters of `s`.
pub fn push_str(out: &mut Vec<char>, s: &str)
    ensures
        final(out)@ == old(out)@ + s@,
{
    let cs = chars_of(s);
    crate::text::push_all_chars(out, cs.as_slice());
}

/// Whether two texts are equal.
pub fn slices_eq(a: &[char], b: &[char]) -> (r: bool)
    ensures
        r == (a@ == b@),
{
    if a.len() != b.len() {
        return false;
    }
    let mut i: usize = 0;
    while i < a.len()
        invariant
            i <= a@.len() == b@.len(),
            forall|j: int| 0 <= j < i ==> a@[j] == b@[j],
        decreases a.len() - i,
    {
        if a[i] != b[i] {
            return false;
        }
        i = i + 1;
    }
    assert(a@ =~= b@);
    true
}

/// Whether a text is exactly the characters of `lit`.
pub fn text_is(a: &[char], lit: &str) -> (r: bool)
    ensures
        r == (a@ == lit@),
{
    let b = chars_of(lit);
    slices_eq(a, b.as_slice())
}

/// Whether `s` starts with `prefix`.
pub fn starts_with_chars(s: &[char], prefix: &[char]) -> (r: bool)
    ensures
        r == (s@.len() >= prefix@.len() && s@.take(prefix@.len() as int) == prefix@),
{
    if s.len() < prefix.len() {
        return false;
    }
    let head = &s[0..prefix.len()];
    assert(head@ =~= s@.take(prefix@.len() as int));
    slices_eq(head, prefix)
}


/// Lower-case hex digits of `n`, without leading zeros.
pub open spec fn hex_text(n: nat) -> Seq<char>
    decreases n,
{
    if n < 16 {
        seq![crate::text::hex_digit(n as u8, false) as char]
    } else {
        hex_text(n / 16).push(crate::text::hex_digit((n % 16) as u8, false) as char)
    }
}

pub fn push_hex(out: &mut Vec<char>, n: u32)
    ensures
        final(out)@ == old(out)@ + hex_text(n as nat),
    decreases n,
{
    if n < 16 {
        out.push(crate::text::hex_digit_of(n as u8, false) as char);
    } else {
        push_hex(out, n / 16);
        out.push(crate::text::hex_digit_of((n % 16) as u8, false) as char);
        assert(final(out)@ =~= old(out)@ + hex_text(n as nat));
    }
}

/// How `{:?}` shows one character inside a string: `\`, `"`, and the ASCII
/// controls escaped, everything else as itself.
pub open spec fn debug_char(c: char) -> Seq<char> {
    if c == '\\' {
        seq!['\\', '\\']
    } else if c == '"' {
        seq!['\\', '"']
    } else if c == '\n' {
        seq!['\\', 'n']
    } else if c == '\r' {
        seq!['\\', 'r']
    } else if c == '\t' {
        seq!['\\', 't']
    } else if c == '\0' {
        seq!['\\', '0']
    } else if (c as u32) < 32 || (c as u32) == 127 {
        seq!['\\', 'u', '{'] + hex_text(c as u32 as nat) + seq!['}']
    } else {
        seq![c]
    }
}

/// The escaped characters of `s`.
pub open spec fn debug_body(s: Seq<char>) -> Seq<char>
    decreases s.len(),
{
    if s.len() == 0 {
        Seq::empty()
    } else {
        debug_body(s.drop_last()) + debug_char(s.last())
    }
}

/// A text as `{:?}` shows it: in double quotes, escaped.
pub open spec fn debug_quoted(s: Seq<char>) -> Seq<char> {
    seq!['"'] + debug_body(s) + seq!['"']
}

/// Appends `s` as `{:?}` shows it.
pub fn push_debug_quoted(out: &mut Vec<char>, s: &str)
    ensures
        final(out)@ == old(out)@ + debug_quoted(s@),
{
    let cs = chars_of(s);
    let ghost start = out@;
    out.push('"');
    let mut i: usize = 0;
    assert(cs@.take(0) =~= Seq::<char>::empty());
    assert(out@ =~= start + seq!['"'] + debug_body(cs@.take(0)));
    while i < cs.len()
        invariant
            i <= cs@.len(),
            out@ == start + seq!['"'] + debug_body(cs@.take(i as int)),
        decreases cs.len() - i,
    {
        let c = cs[i];
        assert(cs@.take(i + 1).drop_last() =~= cs@.take(i as int));
        assert(cs@.take(i + 1).last() == c);
        let ghost before = out@;
        if c == '\\' {
            out.push('\\');
            out.push('\\');
        } else if c == '"' {
            out.push('\\');
            out.push('"');
        } else if c == '\n' {
            out.push('\\');
            out.push('n');
        } else if c == '\r' {
            out.push('\\');
            out.push('r');
        } else if c == '\t' {
            out.push('\\');
            out.push('t');
        } else if c == '\0' {
            out.push('\\');
            out.push('0');
        } else if (c as u32) < 32 || (c as u32) == 127 {
            out.push('\\');
            out.push('u');
            out.push('{');
            push_hex(out, c as u32);
            out.push('}');
        } else {
            out.push(c);
        }
        assert(out@ =~= before + debug_char(c));
        i = i + 1;
    }
    out.push('"');
    assert(cs@.take(cs@.len() as int) =~= cs@);
    assert(out@ =~= start + debug_quoted(s@));
}

} // verus!
