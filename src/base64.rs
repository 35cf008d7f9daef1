use vstd::prelude::*;
use crate::ascii::{chars_of, is_ascii_bytes, string_from_ascii};
use vstd::string::StringSliceAdditionalSpecFns;

verus! {

/// The base64 alphabet: the character for each six-bit value.
pub const BASE64_TABLE: [u8; 64] = [
    // A to Z
    0x41, 0x42, 0x43, 0x44, 0x45, 0x46, 0x47, 0x48, 0x49, 0x4a, 0x4b, 0x4c, 0x4d,
    0x4e, 0x4f, 0x50, 0x51, 0x52, 0x53, 0x54, 0x55, 0x56, 0x57, 0x58, 0x59, 0x5a,
    // a to z
    0x61, 0x62, 0x63, 0x64, 0x65, 0x66, 0x67, 0x68, 0x69, 0x6a, 0x6b, 0x6c, 0x6d,
    0x6e, 0x6f, 0x70, 0x71, 0x72, 0x73, 0x74, 0x75, 0x76, 0x77, 0x78, 0x79, 0x7a,
    // 0 to 9, '+', '/'
    0x30, 0x31, 0x32, 0x33, 0x34, 0x35, 0x36, 0x37, 0x38, 0x39, 0x2b, 0x2f,
];

/// The padding character.
pub const PAD: u8 = 0x3d; // '='

// ---------------------------------------------------------------------------
// Decoding model
// ---------------------------------------------------------------------------

/// Spaces and newlines are skipped by decoding.
pub open spec fn is_skipped(b: u8) -> bool {
    b == 0x20 || b == 0x0a  // ' ' or '\n'
}

/// The bytes that decoding reads: all but spaces and newlines, in order.
pub open spec fn kept_bytes(s: Seq<u8>) -> Seq<u8>
    decreases s.len(),
{
    if s.len() == 0 {
        Seq::empty()
    } else if is_skipped(s.last()) {
        kept_bytes(s.drop_last())
    } else {
        kept_bytes(s.drop_last()).push(s.last())
    }
}

/// The number of padding characters in `s`.
pub open spec fn pad_count(s: Seq<u8>) -> nat
    decreases s.len(),
{
    if s.len() == 0 {
        0
    } else if s.last() == PAD {
        pad_count(s.drop_last()) + 1
    } else {
        pad_count(s.drop_last())
    }
}

/// The position of a character in the alphabet; a padding character reads as
/// 0, and a character outside the alphabet as 64.
pub open spec fn sextet(b: u8) -> u8 {
    if b == PAD {
        0
    } else if 0x41 <= b && b <= 0x5a {
        // 'A' to 'Z'
        (b - 0x41) as u8
    } else if 0x61 <= b && b <= 0x7a {
        // 'a' to 'z'
        (b - 0x61 + 26) as u8
    } else if 0x30 <= b && b <= 0x39 {
        // '0' to '9'
        (b - 0x30 + 52) as u8
    } else if b == 0x2b {
        // '+'
        62
    } else if b == 0x2f {
        // '/'
        63
    } else {
        64
    }
}

/// Byte `j` (0, 1 or 2) of the group that the four values `v0`..`v3` encode.
pub open spec fn group_byte(v0: u8, v1: u8, v2: u8, v3: u8, j: int) -> u8 {
    if j == 0 {
        (v0 << 2u8) | (v1 >> 4u8)
    } else if j == 1 {
        (v1 << 4u8) | (v2 >> 2u8)
    } else {
        (v2 << 6u8) | v3
    }
}

/// Three bytes for each group of four characters of `k`.
pub open spec fn decoded_groups(k: Seq<u8>) -> Seq<u8> {
    Seq::new(
        3 * (k.len() / 4),
        |i: int|
            {
                let g = i / 3;
                group_byte(
                    sextet(k[4 * g]),
                    sextet(k[4 * g + 1]),
                    sextet(k[4 * g + 2]),
                    sextet(k[4 * g + 3]),
                    i % 3,
                )
            },
    )
}

/// The bytes that the base64 text `s` stands for: its groups decoded, less
/// one byte for each padding character.
pub open spec fn base64_decoded(s: Seq<u8>) -> Seq<u8> {
    let k = kept_bytes(s);
    let d = decoded_groups(k);
    d.subrange(0, d.len() - pad_count(k))
}

/// Text that decoding accepts: whole groups of four, and no more padding than
/// the groups give bytes.
pub open spec fn is_decodable(s: Seq<u8>) -> bool {
    &&& kept_bytes(s).len() % 4 == 0
    &&& pad_count(kept_bytes(s)) <= 3 * (kept_bytes(s).len() / 4)
}

// ---------------------------------------------------------------------------
// Encoding model
// ---------------------------------------------------------------------------

/// Byte `i` of `b`, or 0 past its end.
pub open spec fn padded_at(b: Seq<u8>, i: int) -> u8 {
    if i < b.len() {
        b[i]
    } else {
        0
    }
}

/// Six-bit value `j` (0 to 3) of group `g` of `b`, read as zero-padded.
pub open spec fn sextet_of_group(b: Seq<u8>, g: int, j: int) -> u8 {
    let c0 = padded_at(b, 3 * g);
    let c1 = padded_at(b, 3 * g + 1);
    let c2 = padded_at(b, 3 * g + 2);
    if j == 0 {
        c0 >> 2u8
    } else if j == 1 {
        ((c0 & 3u8) << 4u8) | (c1 >> 4u8)
    } else if j == 2 {
        ((c1 & 15u8) << 2u8) | (c2 >> 6u8)
    } else {
        c2 & 63u8
    }
}

/// The number of padding characters at the end of the encoding of `n` bytes.
pub open spec fn pad_len(n: nat) -> int {
    (3 - n % 3) % 3
}

/// The length of the encoding of `n` bytes.
pub open spec fn encoded_len(n: nat) -> int {
    4 * ((n + 2) / 3) as int
}

/// The characters of the base64 encoding of `b`.
pub open spec fn base64_codes(b: Seq<u8>) -> Seq<u8> {
    let n = encoded_len(b.len());
    Seq::new(
        n as nat,
        |i: int|
            if i >= n - pad_len(b.len()) {
                PAD
            } else {
                BASE64_TABLE[sextet_of_group(b, i / 4, i % 4) as int]
            },
    )
}

// ---------------------------------------------------------------------------
// Alphabet facts
// ---------------------------------------------------------------------------

proof fn lemma_alphabet_index()
    ensures
        forall|j: int| 0 <= j < 64 ==> sextet(#[trigger] BASE64_TABLE[j]) == j,
        forall|b: u8| #[trigger] sextet(b) < 64 && b != PAD ==> BASE64_TABLE[sextet(b) as int] == b,
{
}

proof fn lemma_alphabet_ascii()
    ensures
        forall|j: int| 0 <= j < 64 ==> #[trigger] BASE64_TABLE[j] < 128,
{
}

// ---------------------------------------------------------------------------
// Codec
// ---------------------------------------------------------------------------

/// The six-bit value of a base64 character, found by its position in the
/// alphabet; 64 for a character outside it.
fn alphabet_index(b: u8) -> (r: u8)
    requires
        b != PAD,
    ensures
        r == sextet(b),
{
    proof {
        lemma_alphabet_index();
    }
    let mut idx: usize = 0;
    while idx < 64 && BASE64_TABLE[idx] != b
        invariant
            idx <= 64,
            forall|j: int| 0 <= j < idx ==> BASE64_TABLE[j] != b,
        decreases 64 - idx,
    {
        idx += 1;
    }
    idx as u8
}

/// Decodes base64 text; spaces and newlines are skipped, and each padding
/// character drops one byte from the end.
pub fn from_base64(s: &str) -> (r: Vec<u8>)
    requires
        is_decodable(s.spec_bytes()),
    ensures
        r@ == base64_decoded(s.spec_bytes()),
{
    let bytes = s.as_bytes();
    let mut padding: usize = 0;
    let mut values: Vec<u8> = Vec::new();
    for i in 0..bytes.len()
        invariant
            bytes@ == s.spec_bytes(),
            values@.len() == kept_bytes(bytes@.subrange(0, i as int)).len(),
            forall|j: int|
                0 <= j < values@.len() ==> #[trigger] values@[j] == sextet(
                    kept_bytes(bytes@.subrange(0, i as int))[j],
                ),
            padding == pad_count(kept_bytes(bytes@.subrange(0, i as int))),
            padding <= values@.len(),
            values@.len() <= i,
    {
        let b = bytes[i];
        let ghost prefix = bytes@.subrange(0, i as int);
        let ghost next = bytes@.subrange(0, i + 1);
        let ghost old_kept = kept_bytes(prefix);
        proof {
            assert(next.drop_last() =~= prefix);
            assert(next.last() == b);
            assert(old_kept.push(b).drop_last() =~= old_kept);
        }
        if b != 0x20 && b != 0x0a {
            if b == PAD {
                padding += 1;
                values.push(0);
            } else {
                let v = alphabet_index(b);
                values.push(v);
            }
        }
    }
    assert(bytes@.subrange(0, bytes@.len() as int) == bytes@);
    let ghost k = kept_bytes(bytes@);
    let n_values = values.len();
    let groups = n_values / 4;
    let mut result: Vec<u8> = Vec::new();
    for g in 0..groups
        invariant
            n_values == values@.len(),
            groups == k.len() / 4,
            values@.len() == k.len(),
            forall|j: int| 0 <= j < values@.len() ==> #[trigger] values@[j] == sextet(k[j]),
            result@.len() == 3 * g,
            forall|j: int| 0 <= j < 3 * g ==> #[trigger] result@[j] == decoded_groups(k)[j],
    {
        let v0 = values[4 * g];
        let v1 = values[4 * g + 1];
        let v2 = values[4 * g + 2];
        let v3 = values[4 * g + 3];
        result.push(v0 << 2 | v1 >> 4);
        result.push(v1 << 4 | v2 >> 2);
        result.push(v2 << 6 | v3);
    }
    assert(result@ =~= decoded_groups(k));
    let len = result.len();
    result.truncate(len - padding);
    result
}

/// The four characters of group `g` of `input`, read as zero-padded.
fn encode_group(input: &[u8], g: usize) -> (r: [u8; 4])
    requires
        3 * g < input@.len(),
    ensures
        forall|m: int| 0 <= m < 4 ==> #[trigger] r[m] == BASE64_TABLE[sextet_of_group(input@, g as int, m) as int],
        forall|m: int| 0 <= m < 4 ==> #[trigger] r[m] < 128,
{
    proof {
        lemma_alphabet_ascii();
    }
    let len = input.len();
    let c0 = input[3 * g];
    let c1 = if 3 * g + 1 < len {
        input[3 * g + 1]
    } else {
        0
    };
    let c2 = if 3 * g + 2 < len {
        input[3 * g + 2]
    } else {
        0
    };
    let first = c0 >> 2;
    let second = (c0 & 0b00000011) << 4 | c1 >> 4;
    let third = (c1 & 0b00001111) << 2 | c2 >> 6;
    let fourth = c2 & 0b00111111;
    assert(first < 64 && second < 64 && third < 64 && fourth < 64) by (bit_vector)
        requires
            first == c0 >> 2u8,
            second == (c0 & 3u8) << 4u8 | c1 >> 4u8,
            third == (c1 & 15u8) << 2u8 | c2 >> 6u8,
            fourth == c2 & 63u8,
    ;
    [
        BASE64_TABLE[first as usize],
        BASE64_TABLE[second as usize],
        BASE64_TABLE[third as usize],
        BASE64_TABLE[fourth as usize],
    ]
}

/// Encodes bytes as base64 text, padded with '=' to whole groups of four.
pub fn to_base64(input: &[u8]) -> (r: String)
    requires
        encoded_len(input@.len()) <= usize::MAX,
    ensures
        r@ == chars_of(base64_codes(input@)),
{
    let len = input.len();
    let padding = len % 3;
    let groups = len / 3 + if padding > 0 {
        1usize
    } else {
        0usize
    };
    let mut result: Vec<u8> = Vec::new();
    for g in 0..groups
        invariant
            len == input@.len(),
            groups == (len + 2) / 3,
            4 * groups <= usize::MAX,
            result@.len() == 4 * g,
            is_ascii_bytes(result@),
            forall|j: int|
                0 <= j < 4 * g ==> #[trigger] result@[j] == BASE64_TABLE[sextet_of_group(
                    input@,
                    j / 4,
                    j % 4,
                ) as int],
    {
        assert(3 * g < len);
        let chars = encode_group(input, g);
        let ghost before = result@;
        result.push(chars[0]);
        result.push(chars[1]);
        result.push(chars[2]);
        result.push(chars[3]);
        proof {
            let gi = g as int;
            assert forall|j: int| 0 <= j < 4 * gi + 4 implies #[trigger] result@[j]
                == BASE64_TABLE[sextet_of_group(input@, j / 4, j % 4) as int] by {
                if j >= 4 * gi {
                    assert(j / 4 == gi);
                    assert(result@[j] == chars[j % 4]);
                } else {
                    assert(result@[j] == before[j]);
                }
            }
        }
    }
    let l = result.len();
    if padding == 2 {
        result.set(l - 1, PAD);
    } else if padding == 1 {
        result.set(l - 1, PAD);
        result.set(l - 2, PAD);
    }
    assert(result@ =~= base64_codes(input@));
    string_from_ascii(result)
}

} // verus!
