use vstd::prelude::*;
use crate::ascii::{chars_of, is_ascii_bytes, string_from_ascii};
use vstd::string::StringSliceAdditionalSpecFns;

verus! {

/// A hexadecimal digit, in either case.
pub open spec fn is_hex_digit(c: char) -> bool {
    ('0' <= c && c <= '9') || ('a' <= c && c <= 'f') || ('A' <= c && c <= 'F')
}

/// The value of a hexadecimal digit.
pub open spec fn hex_value(c: char) -> u8 {
    if '0' <= c && c <= '9' {
        (c as u32 - '0' as u32) as u8
    } else if 'a' <= c && c <= 'f' {
        (c as u32 - 'a' as u32 + 10) as u8
    } else {
        (c as u32 - 'A' as u32 + 10) as u8
    }
}

/// The ASCII code of the lower-case digit for a value below 16.
pub open spec fn hex_digit_code(n: u8) -> u8 {
    if n < 10 {
        (n + 48) as u8
    } else {
        (n + 87) as u8
    }
}

/// Two lower-case hexadecimal digits for each byte of `b`, high nibble first.
pub open spec fn hex_codes(b: Seq<u8>) -> Seq<u8> {
    Seq::new(
        2 * b.len(),
        |i: int|
            if i % 2 == 0 {
                hex_digit_code(b[i / 2] / 16)
            } else {
                hex_digit_code(b[i / 2] % 16)
            },
    )
}

/// The bytes written by the hexadecimal text `s`, two digits to a byte.
pub open spec fn hex_decoded(s: Seq<char>) -> Seq<u8> {
    Seq::new(s.len() / 2, |i: int| (hex_value(s[2 * i]) * 16 + hex_value(s[2 * i + 1])) as u8)
}

/// The value of one hexadecimal digit.
fn from_hex_char(c: char) -> (r: u8)
    requires
        is_hex_digit(c),
    ensures
        r == hex_value(c),
        r < 16,
{
    let v = c as u32;
    if '0' <= c && c <= '9' {
        (v - '0' as u32) as u8
    } else if 'a' <= c && c <= 'f' {
        (v - 'a' as u32 + 10) as u8
    } else {
        (v - 'A' as u32 + 10) as u8
    }
}

/// Decodes hexadecimal text, two digits to a byte, high nibble first.
pub fn from_hex(s: &str) -> (r: Vec<u8>)
    requires
        forall|i: int| 0 <= i < s@.len() ==> is_hex_digit(#[trigger] s@[i]),
        s@.len() % 2 == 0,
    ensures
        r@ == hex_decoded(s@),
{
    proof {
        assert(vstd::utf8::is_ascii_chars(s@));
        vstd::utf8::is_ascii_chars_encode_utf8(s@);
    }
    let bytes = s.as_bytes();
    let len = bytes.len();
    let n = len / 2;
    let mut r: Vec<u8> = Vec::new();
    for k in 0..n
        invariant
            bytes@ == s.spec_bytes(),
            bytes@.len() == s@.len(),
            forall|i: int| 0 <= i < s@.len() ==> #[trigger] s@[i] as u8 == bytes@[i],
            forall|i: int| 0 <= i < s@.len() ==> is_hex_digit(#[trigger] s@[i]),
            n == s@.len() / 2,
            len == bytes@.len(),
            2 * n <= len,
            r@.len() == k,
            forall|j: int| 0 <= j < k ==> #[trigger] r@[j] == hex_decoded(s@)[j],
    {
        let c0 = bytes[2 * k] as char;
        let c1 = bytes[2 * k + 1] as char;
        assert(c0 == s@[2 * k as int]);
        assert(c1 == s@[2 * k + 1]);
        let hi = from_hex_char(c0);
        let lo = from_hex_char(c1);
        r.push((hi << 4) | lo);
        assert((hi << 4u8) | lo == hi * 16 + lo) by (bit_vector)
            requires
                hi < 16,
                lo < 16,
        ;
    }
    assert(r@ =~= hex_decoded(s@));
    r
}

/// Encodes bytes as lower-case hexadecimal text, two digits to a byte.
pub fn to_hex(input: &[u8]) -> (r: String)
    ensures
        r@ == chars_of(hex_codes(input@)),
{
    let mut codes: Vec<u8> = Vec::new();
    for k in 0..input.len()
        invariant
            codes@.len() == 2 * k,
            forall|j: int| 0 <= j < 2 * k ==> #[trigger] codes@[j] == hex_codes(input@)[j],
    {
        let b = input[k];
        let hi = b >> 4;
        let lo = b & 0x0f;
        assert(hi == b / 16 && lo == b % 16) by (bit_vector)
            requires
                hi == b >> 4u8,
                lo == b & 0x0fu8,
        ;
        codes.push(if hi < 10 { hi + 48 } else { hi + 87 });
        codes.push(if lo < 10 { lo + 48 } else { lo + 87 });
    }
    assert(codes@ =~= hex_codes(input@));
    assert(is_ascii_bytes(codes@));
    string_from_ascii(codes)
}

} // verus!
