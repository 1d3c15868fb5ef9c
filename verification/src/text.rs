//! Text helpers: comparing strings, decimal integers as bytes, and the two
//! conversions from bytes to `String` that the standard library offers.

use vstd::prelude::*;
use vstd::utf8::*;

verus! {

/// Is `b` an ASCII decimal digit?
pub open spec fn is_digit(b: u8) -> bool {
    0x30 <= b <= 0x39
}

/// The ASCII byte of the digit `d`, for `d` below ten.
pub open spec fn digit_byte(d: nat) -> u8
    recommends
        d < 10,
{
    (0x30 + d) as u8
}

/// The number that the digit byte `b` stands for.
pub open spec fn digit_value(b: u8) -> nat
    recommends
        is_digit(b),
{
    (b - 0x30) as nat
}

/// Is every byte of `s` an ASCII decimal digit?
pub open spec fn all_digits(s: Seq<u8>) -> bool {
    forall|k: int| 0 <= k < s.len() ==> is_digit(#[trigger] s[k])
}

/// The decimal digits of `n`, most significant first, without leading zeros.
pub open spec fn decimal_digits(n: nat) -> Seq<u8>
    decreases n,
{
    if n < 10 {
        seq![digit_byte(n)]
    } else {
        decimal_digits(n / 10).push(digit_byte(n % 10))
    }
}

/// The decimal text of `i`: a minus sign for a negative number, then its digits.
pub open spec fn decimal_text(i: int) -> Seq<u8> {
    if i < 0 {
        seq![0x2Du8] + decimal_digits((-i) as nat)
    } else {
        decimal_digits(i as nat)
    }
}

/// The number that a run of decimal digits stands for.
pub open spec fn digits_value(s: Seq<u8>) -> nat
    decreases s.len(),
{
    if s.len() == 0 {
        0
    } else {
        digits_value(s.drop_last()) * 10 + digit_value(s.last())
    }
}

/// Does `s` begin with a plus or a minus sign?
pub open spec fn has_sign(s: Seq<u8>) -> bool {
    s.len() > 0 && (s[0] == 0x2D || s[0] == 0x2B)
}

/// The integer that `s` is the decimal text of: an optional sign, then one or
/// more digits, with a value that a 64-bit signed integer can hold. `None` for
/// every other byte string.
pub open spec fn parsed_integer(s: Seq<u8>) -> Option<i64> {
    let digits = if has_sign(s) {
        s.subrange(1, s.len() as int)
    } else {
        s
    };
    let magnitude = digits_value(digits) as int;
    let value = if has_sign(s) && s[0] == 0x2D {
        -magnitude
    } else {
        magnitude
    };
    if digits.len() == 0 || !all_digits(digits) || value < i64::MIN || value > i64::MAX {
        None
    } else {
        Some(value as i64)
    }
}

/// The ASCII lower-case form of a byte string: `A` to `Z` become `a` to `z`,
/// every other byte stays.
pub open spec fn ascii_lowercase(s: Seq<u8>) -> Seq<u8> {
    Seq::new(s.len(), |k: int| lower_byte(s[k]))
}

/// The ASCII lower-case form of one byte.
pub open spec fn lower_byte(b: u8) -> u8 {
    if 0x41 <= b <= 0x5A {
        (b + 0x20) as u8
    } else {
        b
    }
}

/// A value of a run of digits is at least the value of each of its prefixes.
pub proof fn lemma_digits_value_prefix(s: Seq<u8>, k: int)
    requires
        0 <= k <= s.len(),
    ensures
        digits_value(s.subrange(0, k)) <= digits_value(s),
    decreases s.len() - k,
{
    if k == s.len() {
        assert(s.subrange(0, k) =~= s);
    } else {
        lemma_digits_value_prefix(s.drop_last(), k);
        assert(s.drop_last().subrange(0, k) =~= s.subrange(0, k));
    }
}

/// Is every byte of `s` an ASCII character?
pub open spec fn is_ascii_bytes(s: Seq<u8>) -> bool {
    forall|k: int| 0 <= k < s.len() ==> #[trigger] s[k] <= 0x7F
}

/// A string of ASCII characters is valid UTF-8.
pub proof fn lemma_ascii_is_utf8(s: Seq<u8>)
    requires
        is_ascii_bytes(s),
    ensures
        valid_utf8(s),
{
    assert(s.subrange(0, 0) =~= Seq::<u8>::empty());
    assert(partial_valid_utf8(s, 0));
    assert forall|i: int| 0 <= i < s.len() implies #[trigger] is_leading_byte_width_1(s[i]) by {
        assert(s[i] <= 0x7F);
    }
    partial_valid_utf8_extend_ascii_block(s, 0, s.len() as int);
    assert(s.subrange(0, s.len() as int) =~= s);
}

/// The decimal text of an integer is made of ASCII characters.
pub proof fn lemma_decimal_text_is_ascii(i: int)
    ensures
        is_ascii_bytes(decimal_text(i)),
{
    if i < 0 {
        lemma_decimal_digits((-i) as nat);
        let digits = decimal_digits((-i) as nat);
        assert forall|k: int| 0 <= k < decimal_text(i).len() implies #[trigger] decimal_text(i)[k]
            <= 0x7F by {
            if k > 0 {
                assert(is_digit(digits[k - 1]));
            }
        }
    } else {
        lemma_decimal_digits(i as nat);
        let digits = decimal_digits(i as nat);
        assert forall|k: int| 0 <= k < digits.len() implies #[trigger] digits[k] <= 0x7F by {
            assert(is_digit(digits[k]));
        }
    }
}

/// The decimal digits of a number are digits, at least one, and stand for that
/// number.
pub proof fn lemma_decimal_digits(n: nat)
    ensures
        decimal_digits(n).len() > 0,
        all_digits(decimal_digits(n)),
        digits_value(decimal_digits(n)) == n,
    decreases n,
{
    let d = decimal_digits(n);
    if n < 10 {
        assert(d.drop_last() =~= Seq::<u8>::empty());
        assert(digits_value(d.drop_last()) == 0);
    } else {
        lemma_decimal_digits(n / 10);
        assert(d.drop_last() =~= decimal_digits(n / 10));
        assert(d.last() == digit_byte(n % 10));
    }
}

/// Are the two byte strings equal?
pub fn bytes_eq(a: &[u8], b: &[u8]) -> (r: bool)
    ensures
        r == (a@ == b@),
{
    if a.len() != b.len() {
        return false;
    }
    let mut i: usize = 0;
    while i < a.len()
        invariant
            i <= a.len(),
            a.len() == b.len(),
            a@.subrange(0, i as int) == b@.subrange(0, i as int),
        decreases a.len() - i,
    {
        if a[i] != b[i] {
            return false;
        }
        assert(a@.subrange(0, i + 1) =~= a@.subrange(0, i as int).push(a@[i as int]));
        assert(b@.subrange(0, i + 1) =~= b@.subrange(0, i as int).push(b@[i as int]));
        i += 1;
    }
    assert(a@ =~= a@.subrange(0, i as int));
    assert(b@ =~= b@.subrange(0, i as int));
    true
}

/// Appends the bytes of `s` to `out`.
pub fn extend_bytes(out: &mut Vec<u8>, s: &[u8])
    ensures
        final(out)@ == old(out)@ + s@,
{
    let mut i: usize = 0;
    while i < s.len()
        invariant
            i <= s.len(),
            out@ == old(out)@ + s@.subrange(0, i as int),
        decreases s.len() - i,
    {
        out.push(s[i]);
        assert(out@ =~= old(out)@ + s@.subrange(0, i + 1));
        i += 1;
    }
    assert(s@.subrange(0, i as int) =~= s@);
}

/// Are the two strings equal, character by character?
pub fn str_eq(a: &str, b: &str) -> (r: bool)
    ensures
        r == (a@ == b@),
{
    let r = bytes_eq(a.as_bytes(), b.as_bytes());
    proof {
        encode_utf8_decode_utf8(a@);
        encode_utf8_decode_utf8(b@);
    }
    r
}

/// Appends the decimal digits of `n` to `out`.
fn push_decimal_digits(out: &mut Vec<u8>, n: u64)
    ensures
        final(out)@ == old(out)@ + decimal_digits(n as nat),
    decreases n,
{
    if n >= 10 {
        push_decimal_digits(out, n / 10);
    }
    let digit: u8 = (n % 10) as u8;
    out.push(0x30 + digit);
    assert(out@ =~= old(out)@ + decimal_digits(n as nat));
}

/// The decimal text of `i`.
pub fn format_integer(i: i64) -> (r: Vec<u8>)
    ensures
        r@ == decimal_text(i as int),
{
    let mut out: Vec<u8> = Vec::new();
    if i < 0 {
        out.push(0x2D);
        let magnitude: u64 = if i == i64::MIN {
            0x8000_0000_0000_0000
        } else {
            (-i) as u64
        };
        push_decimal_digits(&mut out, magnitude);
    } else {
        push_decimal_digits(&mut out, i as u64);
    }
    out
}

/// The integer that `s` is the decimal text of, if it is one.
pub fn parse_integer(s: &[u8]) -> (r: Option<i64>)
    ensures
        r == parsed_integer(s@),
{
    let signed = s.len() > 0 && (s[0] == 0x2D || s[0] == 0x2B);
    let negative = signed && s[0] == 0x2D;
    let start: usize = if signed {
        1
    } else {
        0
    };
    let ghost digits = s@.subrange(start as int, s@.len() as int);
    assert(!signed ==> digits =~= s@);
    if start == s.len() {
        return None;
    }
    // The largest magnitude that fits: 2^63 below zero, 2^63 - 1 above.
    let limit: u64 = if negative {
        0x8000_0000_0000_0000
    } else {
        0x7FFF_FFFF_FFFF_FFFF
    };
    let mut magnitude: u64 = 0;
    let mut i: usize = start;
    while i < s.len()
        invariant
            start <= i <= s.len(),
            digits == s@.subrange(start as int, s@.len() as int),
            !signed ==> digits == s@,
            all_digits(digits.subrange(0, i - start)),
            magnitude == digits_value(digits.subrange(0, i - start)),
            magnitude <= limit,
            signed == has_sign(s@),
            negative == (has_sign(s@) && s@[0] == 0x2D),
            start == if signed { 1usize } else { 0usize },
            limit == if negative { 0x8000_0000_0000_0000u64 } else { 0x7FFF_FFFF_FFFF_FFFFu64 },
        decreases s.len() - i,
    {
        let b = s[i];
        if b < 0x30 || b > 0x39 {
            assert(digits[i - start] == b);
            return None;
        }
        let digit: u64 = (b - 0x30) as u64;
        let ghost longer = digits.subrange(0, i - start + 1);
        assert(longer.drop_last() =~= digits.subrange(0, i - start));
        assert(longer.last() == b);
        if magnitude > (limit - digit) / 10 {
            proof {
                assert(digits_value(longer) > limit);
                lemma_digits_value_prefix(digits, i - start + 1);
            }
            return None;
        }
        magnitude = magnitude * 10 + digit;
        i += 1;
    }
    assert(digits.subrange(0, i - start) =~= digits);
    if negative {
        if magnitude == 0x8000_0000_0000_0000 {
            Some(i64::MIN)
        } else {
            Some(-(magnitude as i64))
        }
    } else {
        Some(magnitude as i64)
    }
}

/// The ASCII lower-case form of `s`.
pub fn to_ascii_lowercase(s: &[u8]) -> (r: Vec<u8>)
    ensures
        r@ == ascii_lowercase(s@),
{
    let mut out: Vec<u8> = Vec::new();
    let mut i: usize = 0;
    while i < s.len()
        invariant
            i <= s.len(),
            out@ == ascii_lowercase(s@.subrange(0, i as int)),
        decreases s.len() - i,
    {
        let b = s[i];
        let lower: u8 = if 0x41 <= b && b <= 0x5A {
            b + 0x20
        } else {
            b
        };
        out.push(lower);
        assert(out@ =~= ascii_lowercase(s@.subrange(0, i + 1)));
        i += 1;
    }
    assert(s@.subrange(0, i as int) =~= s@);
    out
}

/// The text that `String::from_utf8_lossy` makes of a byte string. For valid
/// UTF-8 it is the decoded text (see [`utf8_lossy`]); elsewhere each malformed
/// part is replaced, in a way that is left to the standard library.
pub uninterp spec fn lossy_text(bytes: Seq<u8>) -> Seq<char>;

/// `String::from_utf8_lossy`, made into an owned `String`. Not proved: the result
/// is a function of the bytes alone, and for valid UTF-8 it is the text that the
/// bytes encode, unchanged.
#[verifier::external_body]
pub(crate) fn utf8_lossy(bytes: &[u8]) -> (s: String)
    ensures
        s@ == lossy_text(bytes@),
        valid_utf8(bytes@) ==> s@ == decode_utf8(bytes@),
{
    String::from_utf8_lossy(bytes).into_owned()
}

/// `String::from_utf8`. Not proved: it succeeds exactly on valid UTF-8, and the
/// string is then the text that the bytes encode.
#[verifier::external_body]
pub(crate) fn string_from_utf8(bytes: Vec<u8>) -> (r: Option<String>)
    ensures
        r is Some <==> valid_utf8(bytes@),
        r matches Some(s) ==> s@ == decode_utf8(bytes@),
{
    match String::from_utf8(bytes) {
        Ok(s) => Some(s),
        Err(_) => None,
    }
}

} // verus!
