use vstd::prelude::*;

verus! {

/// The cipher state: a 4x4 byte matrix stored row by row, so byte `i` sits in
/// row `i / 4` and column `i % 4`.
pub type State = [u8; 16];

/// A 128-bit key as four big-endian words; word `c` is added to column `c`.
pub type Key = [u32; 4];

/// Round constants of the key schedule: successive powers of the field
/// generator, left-aligned in the top byte.
pub const ROUND_CONSTANTS: [u32; 10] = [
    0x01000000, 0x02000000, 0x04000000, 0x08000000, 0x10000000,
    0x20000000, 0x40000000, 0x80000000, 0x1B000000, 0x36000000,
];

/// The substitution table; the high nibble of a byte picks the row and the
/// low nibble the column.
pub const S_BOX: [u8; 256] = [
    0x63, 0x7c, 0x77, 0x7b, 0xf2, 0x6b, 0x6f, 0xc5, 0x30, 0x01, 0x67, 0x2b, 0xfe, 0xd7, 0xab, 0x76,
    0xca, 0x82, 0xc9, 0x7d, 0xfa, 0x59, 0x47, 0xf0, 0xad, 0xd4, 0xa2, 0xaf, 0x9c, 0xa4, 0x72, 0xc0,
    0xb7, 0xfd, 0x93, 0x26, 0x36, 0x3f, 0xf7, 0xcc, 0x34, 0xa5, 0xe5, 0xf1, 0x71, 0xd8, 0x31, 0x15,
    0x04, 0xc7, 0x23, 0xc3, 0x18, 0x96, 0x05, 0x9a, 0x07, 0x12, 0x80, 0xe2, 0xeb, 0x27, 0xb2, 0x75,
    0x09, 0x83, 0x2c, 0x1a, 0x1b, 0x6e, 0x5a, 0xa0, 0x52, 0x3b, 0xd6, 0xb3, 0x29, 0xe3, 0x2f, 0x84,
    0x53, 0xd1, 0x00, 0xed, 0x20, 0xfc, 0xb1, 0x5b, 0x6a, 0xcb, 0xbe, 0x39, 0x4a, 0x4c, 0x58, 0xcf,
    0xd0, 0xef, 0xaa, 0xfb, 0x43, 0x4d, 0x33, 0x85, 0x45, 0xf9, 0x02, 0x7f, 0x50, 0x3c, 0x9f, 0xa8,
    0x51, 0xa3, 0x40, 0x8f, 0x92, 0x9d, 0x38, 0xf5, 0xbc, 0xb6, 0xda, 0x21, 0x10, 0xff, 0xf3, 0xd2,
    0xcd, 0x0c, 0x13, 0xec, 0x5f, 0x97, 0x44, 0x17, 0xc4, 0xa7, 0x7e, 0x3d, 0x64, 0x5d, 0x19, 0x73,
    0x60, 0x81, 0x4f, 0xdc, 0x22, 0x2a, 0x90, 0x88, 0x46, 0xee, 0xb8, 0x14, 0xde, 0x5e, 0x0b, 0xdb,
    0xe0, 0x32, 0x3a, 0x0a, 0x49, 0x06, 0x24, 0x5c, 0xc2, 0xd3, 0xac, 0x62, 0x91, 0x95, 0xe4, 0x79,
    0xe7, 0xc8, 0x37, 0x6d, 0x8d, 0xd5, 0x4e, 0xa9, 0x6c, 0x56, 0xf4, 0xea, 0x65, 0x7a, 0xae, 0x08,
    0xba, 0x78, 0x25, 0x2e, 0x1c, 0xa6, 0xb4, 0xc6, 0xe8, 0xdd, 0x74, 0x1f, 0x4b, 0xbd, 0x8b, 0x8a,
    0x70, 0x3e, 0xb5, 0x66, 0x48, 0x03, 0xf6, 0x0e, 0x61, 0x35, 0x57, 0xb9, 0x86, 0xc1, 0x1d, 0x9e,
    0xe1, 0xf8, 0x98, 0x11, 0x69, 0xd9, 0x8e, 0x94, 0x9b, 0x1e, 0x87, 0xe9, 0xce, 0x55, 0x28, 0xdf,
    0x8c, 0xa1, 0x89, 0x0d, 0xbf, 0xe6, 0x42, 0x68, 0x41, 0x99, 0x2d, 0x0f, 0xb0, 0x54, 0xbb, 0x16,
];

// ---------------------------------------------------------------------------
// Mathematical model
// ---------------------------------------------------------------------------

/// The substitution of one byte.
pub open spec fn sbox(b: u8) -> u8 {
    S_BOX[b as int]
}

/// Byte `i` of a word, most significant first.
pub open spec fn word_byte(w: u32, i: int) -> u8 {
    if i == 0 {
        (w >> 24u32) as u8
    } else if i == 1 {
        (w >> 16u32) as u8
    } else if i == 2 {
        (w >> 8u32) as u8
    } else {
        w as u8
    }
}

/// The word whose bytes, most significant first, are `b0`, `b1`, `b2`, `b3`.
pub open spec fn word_of(b0: u8, b1: u8, b2: u8, b3: u8) -> u32 {
    (b0 as u32) << 24u32 | (b1 as u32) << 16u32 | (b2 as u32) << 8u32 | (b3 as u32)
}

/// Each byte of a word replaced through the substitution table.
pub open spec fn sub_word(w: u32) -> u32 {
    word_of(
        sbox(word_byte(w, 0)),
        sbox(word_byte(w, 1)),
        sbox(word_byte(w, 2)),
        sbox(word_byte(w, 3)),
    )
}

/// A word rotated left by one byte.
pub open spec fn rot_word(w: u32) -> u32 {
    (w << 8u32) | (w >> 24u32)
}

/// The round key that follows `prev`, with round constant `rcon`.
pub open spec fn next_round_key(prev: Seq<u32>, rcon: u32) -> Seq<u32> {
    let w0 = sub_word(rot_word(prev[3])) ^ prev[0] ^ rcon;
    let w1 = w0 ^ prev[1];
    let w2 = w1 ^ prev[2];
    let w3 = w2 ^ prev[3];
    seq![w0, w1, w2, w3]
}

/// Round key `r` of the schedule of `key`; round key 0 is the key itself.
pub open spec fn round_key(key: Seq<u32>, r: nat) -> Seq<u32>
    decreases r,
{
    if r == 0 {
        key
    } else {
        next_round_key(round_key(key, (r - 1) as nat), ROUND_CONSTANTS[r - 1])
    }
}


/// Every byte of the state replaced through the substitution table.
pub open spec fn sub_state(s: Seq<u8>) -> Seq<u8> {
    Seq::new(16, |i: int| sbox(s[i]))
}

/// Row `r` of the state rotated left by `r` positions.
pub open spec fn shifted_rows(s: Seq<u8>) -> Seq<u8> {
    Seq::new(16, |i: int| s[(i / 4) * 4 + (i % 4 + i / 4) % 4])
}

/// Multiplication by 2 in the field of 256 elements: a left shift, reduced by
/// 0x1B when the high bit was set.
pub open spec fn xtime(b: u8) -> u8 {
    if b & 0x80u8 == 0 {
        b << 1u8
    } else {
        (b << 1u8) ^ 0x1bu8
    }
}

/// Multiplication by 3 in the field of 256 elements.
pub open spec fn mul3(b: u8) -> u8 {
    xtime(b) ^ b
}

/// One byte of a mixed column: `2 * a0 + 3 * a1 + a2 + a3` in the field of 256
/// elements, where `a0` is the byte of the same row and `a1`, `a2`, `a3` follow
/// it cyclically down the column.
pub open spec fn mix_byte(a0: u8, a1: u8, a2: u8, a3: u8) -> u8 {
    xtime(a0) ^ mul3(a1) ^ a2 ^ a3
}

/// Byte of row `r`, column `c` after column mixing: the column times the
/// polynomial with coefficients {3, 1, 1, 2}.
pub open spec fn mixed_byte(s: Seq<u8>, r: int, c: int) -> u8 {
    let (a0, a1, a2, a3) = (s[c], s[4 + c], s[8 + c], s[12 + c]);
    if r == 0 {
        mix_byte(a0, a1, a2, a3)
    } else if r == 1 {
        mix_byte(a1, a2, a3, a0)
    } else if r == 2 {
        mix_byte(a2, a3, a0, a1)
    } else {
        mix_byte(a3, a0, a1, a2)
    }
}

/// Every column of the state mixed.
pub open spec fn mixed_columns(s: Seq<u8>) -> Seq<u8> {
    Seq::new(16, |i: int| mixed_byte(s, i / 4, i % 4))
}

/// Column `c` of the state XORed with the big-endian bytes of word `c` of `k`.
pub open spec fn with_round_key(s: Seq<u8>, k: Seq<u32>) -> Seq<u8> {
    Seq::new(16, |i: int| s[i] ^ word_byte(k[i % 4], i / 4))
}

/// One of the nine middle rounds.
pub open spec fn middle_round(s: Seq<u8>, k: Seq<u32>) -> Seq<u8> {
    with_round_key(mixed_columns(shifted_rows(sub_state(s))), k)
}

/// The state after the initial key addition and `n` middle rounds.
pub open spec fn state_after(input: Seq<u8>, key: Seq<u32>, n: nat) -> Seq<u8>
    decreases n,
{
    if n == 0 {
        with_round_key(input, round_key(key, 0))
    } else {
        middle_round(state_after(input, key, (n - 1) as nat), round_key(key, n))
    }
}

/// The encryption of the block `input` under `key`.
pub open spec fn cipher(input: Seq<u8>, key: Seq<u32>) -> Seq<u8> {
    with_round_key(shifted_rows(sub_state(state_after(input, key, 9))), round_key(key, 10))
}

// ---------------------------------------------------------------------------
// Byte and word helpers
// ---------------------------------------------------------------------------

proof fn lemma_byte_of_word(b0: u8, b1: u8, b2: u8, b3: u8)
    ensures
        word_byte(word_of(b0, b1, b2, b3), 0) == b0,
        word_byte(word_of(b0, b1, b2, b3), 1) == b1,
        word_byte(word_of(b0, b1, b2, b3), 2) == b2,
        word_byte(word_of(b0, b1, b2, b3), 3) == b3,
{
    let w = word_of(b0, b1, b2, b3);
    assert(w == (b0 as u32) << 24u32 | (b1 as u32) << 16u32 | (b2 as u32) << 8u32 | (b3 as u32));
    assert((w >> 24u32) as u8 == b0 && (w >> 16u32) as u8 == b1 && (w >> 8u32) as u8 == b2
        && w as u8 == b3) by (bit_vector)
        requires
            w == (b0 as u32) << 24u32 | (b1 as u32) << 16u32 | (b2 as u32) << 8u32 | (b3 as u32),
    ;
}

/// The four bytes of a word, most significant first.
fn word_to_bytes(w: u32) -> (r: [u8; 4])
    ensures
        forall|i: int| 0 <= i < 4 ==> r[i] == word_byte(w, i),
{
    [(w >> 24) as u8, (w >> 16) as u8, (w >> 8) as u8, w as u8]
}

/// The word made of four bytes, most significant first.
fn word_from_bytes(b: [u8; 4]) -> (r: u32)
    ensures
        r == word_of(b[0], b[1], b[2], b[3]),
{
    (b[0] as u32) << 24 | (b[1] as u32) << 16 | (b[2] as u32) << 8 | (b[3] as u32)
}

// ---------------------------------------------------------------------------
// Substitution and key schedule
// ---------------------------------------------------------------------------

/// Replaces each byte of `word` through the substitution table.
pub fn sub_bytes(word: u32) -> (r: u32)
    ensures
        r == sub_word(word),
{
    let mut bs: [u8; 4] = word_to_bytes(word);
    for i in 0..4
        invariant
            forall|j: int| 0 <= j < i ==> bs[j] == sbox(word_byte(word, j)),
            forall|j: int| i <= j < 4 ==> bs[j] == word_byte(word, j),
    {
        let b = bs[i];
        let row = b >> 4;
        let column = b & 0x0f;
        assert(row < 16 && column < 16 && row * 16 + column == b) by (bit_vector)
            requires
                row == b >> 4,
                column == b & 0x0f,
        ;
        let idx = row * 16 + column;
        bs[i] = S_BOX[idx as usize];
    }
    word_from_bytes(bs)
}

/// Expands `key` into the eleven round keys of the cipher.
pub fn expand_key(key: &Key) -> (keys: Vec<Key>)
    ensures
        keys@.len() == 11,
        forall|r: int| 0 <= r < 11 ==> (#[trigger] keys@[r])@ == round_key(key@, r as nat),
{
    let mut keys: Vec<Key> = Vec::new();
    keys.push(*key);
    for k in 1..11
        invariant
            keys@.len() == k,
            forall|r: int| 0 <= r < k ==> (#[trigger] keys@[r])@ == round_key(key@, r as nat),
    {
        let prev: Key = keys[k - 1];
        let last = prev[3];
        let first_word = sub_bytes((last << 8) | (last >> 24)) ^ prev[0] ^ ROUND_CONSTANTS[k - 1];
        let mut next: Key = [first_word, 0, 0, 0];
        for i in 1..4
            invariant
                next[0] == first_word,
                forall|j: int| 1 <= j < i ==> next[j] == next[j - 1] ^ prev[j],
        {
            next[i] = next[i - 1] ^ prev[i];
        }
        assert(next@ =~= next_round_key(prev@, ROUND_CONSTANTS[k - 1]));
        keys.push(next);
    }
    keys
}

// ---------------------------------------------------------------------------
// Round transform
// ---------------------------------------------------------------------------

/// Rotates row `r` of the state left by `r` positions.
pub fn shift_rows(state: &mut State)
    ensures
        final(state)@ == shifted_rows(old(state)@),
{
    let s = *state;
    *state = [
        s[0], s[1], s[2], s[3],
        s[5], s[6], s[7], s[4],
        s[10], s[11], s[8], s[9],
        s[15], s[12], s[13], s[14],
    ];
    assert(state@ =~= shifted_rows(s@));
}

/// Multiplies a byte by 2 in the field of 256 elements.
fn double(b: u8) -> (r: u8)
    ensures
        r == xtime(b),
{
    let h = (b >> 7) & 1;
    assert(h <= 1) by (bit_vector)
        requires
            h == (b >> 7u8) & 1u8,
    ;
    let r = (b << 1) ^ (h * 0x1b);
    assert(r == xtime(b)) by (bit_vector)
        requires
            h == (b >> 7u8) & 1u8,
            r == (b << 1u8) ^ ((h * 0x1bu8) as u8),
    ;
    r
}

/// Mixes each column of the state.
pub fn mix_columns(state: &mut State)
    ensures
        final(state)@ == mixed_columns(old(state)@),
{
    let ghost s0 = state@;
    for ncol in 0..4
        invariant
            s0.len() == 16,
            forall|i: int| 0 <= i < 16 && i % 4 < ncol ==> state@[i] == mixed_byte(s0, i / 4, i % 4),
            forall|i: int| 0 <= i < 16 && i % 4 >= ncol ==> state@[i] == s0[i],
    {
        let column = [state[ncol], state[4 + ncol], state[8 + ncol], state[12 + ncol]];
        let mut double_column = column;
        for nrow in 0..4
            invariant
                forall|j: int| 0 <= j < nrow ==> double_column[j] == xtime(column[j]),
        {
            double_column[nrow] = double(column[nrow]);
        }
        state[ncol] = double_column[0] ^ (double_column[1] ^ column[1]) ^ column[2] ^ column[3];
        state[4 + ncol] = double_column[1] ^ (double_column[2] ^ column[2]) ^ column[3]
            ^ column[0];
        state[8 + ncol] = double_column[2] ^ (double_column[3] ^ column[3]) ^ column[0]
            ^ column[1];
        state[12 + ncol] = double_column[3] ^ (double_column[0] ^ column[0]) ^ column[1]
            ^ column[2];
    }
    assert(state@ =~= mixed_columns(s0));
}

/// XORs column `c` of the state with the big-endian bytes of `key[c]`.
pub fn add_round_key(state: &mut State, key: Key)
    ensures
        final(state)@ == with_round_key(old(state)@, key@),
{
    let ghost s0 = state@;
    for ncol in 0..4
        invariant
            s0.len() == 16,
            forall|i: int|
                0 <= i < 16 && i % 4 < ncol ==> state@[i] == s0[i] ^ word_byte(key[i % 4], i / 4),
            forall|i: int| 0 <= i < 16 && i % 4 >= ncol ==> state@[i] == s0[i],
    {
        let key_bytes: [u8; 4] = word_to_bytes(key[ncol]);
        let column = [state[ncol], state[4 + ncol], state[8 + ncol], state[12 + ncol]];
        for i in 0..4
            invariant
                ncol < 4,
                s0.len() == 16,
                forall|j: int|
                    0 <= j < 16 && j % 4 < ncol ==> state@[j] == s0[j] ^ word_byte(key[j % 4], j / 4),
                forall|j: int|
                    0 <= j < 16 && j % 4 == ncol && j / 4 < i ==> state@[j] == column[j / 4]
                        ^ key_bytes[j / 4],
                forall|j: int|
                    0 <= j < 16 && j % 4 >= ncol && !(j % 4 == ncol && j / 4 < i) ==> state@[j]
                        == s0[j],
        {
            state[i * 4 + ncol] = column[i] ^ key_bytes[i];
        }
    }
    assert(state@ =~= with_round_key(s0, key@));
}

/// Replaces every byte of the state through the substitution table, one
/// column word at a time.
fn substitute_state(state: &mut State)
    ensures
        final(state)@ == sub_state(old(state)@),
{
    let ghost s0 = state@;
    for column in 0..4
        invariant
            s0.len() == 16,
            forall|i: int| 0 <= i < 16 && i % 4 < column ==> state@[i] == sbox(s0[i]),
            forall|i: int| 0 <= i < 16 && i % 4 >= column ==> state@[i] == s0[i],
    {
        let word = word_from_bytes(
            [state[column], state[4 + column], state[8 + column], state[12 + column]],
        );
        let new_column = word_to_bytes(sub_bytes(word));
        proof {
            lemma_byte_of_word(s0[column as int], s0[4 + column], s0[8 + column], s0[12 + column]);
            let w = sub_word(word);
            lemma_byte_of_word(
                sbox(word_byte(word, 0)),
                sbox(word_byte(word, 1)),
                sbox(word_byte(word, 2)),
                sbox(word_byte(word, 3)),
            );
        }
        for i in 0..4
            invariant
                column < 4,
                s0.len() == 16,
                forall|j: int| 0 <= j < 16 && j % 4 < column ==> state@[j] == sbox(s0[j]),
                forall|j: int|
                    0 <= j < 16 && j % 4 == column && j / 4 < i ==> state@[j] == new_column[j / 4],
                forall|j: int|
                    0 <= j < 16 && j % 4 >= column && !(j % 4 == column && j / 4 < i) ==> state@[j]
                        == s0[j],
        {
            state[i * 4 + column] = new_column[i];
        }
    }
    assert(state@ =~= sub_state(s0));
}

// ---------------------------------------------------------------------------
// Cipher driver
// ---------------------------------------------------------------------------

/// Encrypts one 16-byte block under a 128-bit key with the ten rounds of AES-128.
pub fn encrypt(input: State, key: Key) -> (output: State)
    ensures
        output@ == cipher(input@, key@),
{
    let mut state = input;
    let keys = expand_key(&key);

    add_round_key(&mut state, keys[0]);

    for round in 1..10
        invariant
            keys@.len() == 11,
            forall|r: int| 0 <= r < 11 ==> (#[trigger] keys@[r])@ == round_key(key@, r as nat),
            state@ == state_after(input@, key@, (round - 1) as nat),
    {
        substitute_state(&mut state);
        shift_rows(&mut state);
        mix_columns(&mut state);
        add_round_key(&mut state, keys[round]);
    }

    substitute_state(&mut state);
    shift_rows(&mut state);
    add_round_key(&mut state, keys[10]);
    state
}

// ---------------------------------------------------------------------------
// Laws
// ---------------------------------------------------------------------------

/// The byte that the substitution table sends to `c`.
pub open spec fn sbox_preimage(c: u8) -> u8 {
    let table: [u8; 256] = [
        0x52, 0x09, 0x6a, 0xd5, 0x30, 0x36, 0xa5, 0x38, 0xbf, 0x40, 0xa3, 0x9e, 0x81, 0xf3, 0xd7, 0xfb,
        0x7c, 0xe3, 0x39, 0x82, 0x9b, 0x2f, 0xff, 0x87, 0x34, 0x8e, 0x43, 0x44, 0xc4, 0xde, 0xe9, 0xcb,
        0x54, 0x7b, 0x94, 0x32, 0xa6, 0xc2, 0x23, 0x3d, 0xee, 0x4c, 0x95, 0x0b, 0x42, 0xfa, 0xc3, 0x4e,
        0x08, 0x2e, 0xa1, 0x66, 0x28, 0xd9, 0x24, 0xb2, 0x76, 0x5b, 0xa2, 0x49, 0x6d, 0x8b, 0xd1, 0x25,
        0x72, 0xf8, 0xf6, 0x64, 0x86, 0x68, 0x98, 0x16, 0xd4, 0xa4, 0x5c, 0xcc, 0x5d, 0x65, 0xb6, 0x92,
        0x6c, 0x70, 0x48, 0x50, 0xfd, 0xed, 0xb9, 0xda, 0x5e, 0x15, 0x46, 0x57, 0xa7, 0x8d, 0x9d, 0x84,
        0x90, 0xd8, 0xab, 0x00, 0x8c, 0xbc, 0xd3, 0x0a, 0xf7, 0xe4, 0x58, 0x05, 0xb8, 0xb3, 0x45, 0x06,
        0xd0, 0x2c, 0x1e, 0x8f, 0xca, 0x3f, 0x0f, 0x02, 0xc1, 0xaf, 0xbd, 0x03, 0x01, 0x13, 0x8a, 0x6b,
        0x3a, 0x91, 0x11, 0x41, 0x4f, 0x67, 0xdc, 0xea, 0x97, 0xf2, 0xcf, 0xce, 0xf0, 0xb4, 0xe6, 0x73,
        0x96, 0xac, 0x74, 0x22, 0xe7, 0xad, 0x35, 0x85, 0xe2, 0xf9, 0x37, 0xe8, 0x1c, 0x75, 0xdf, 0x6e,
        0x47, 0xf1, 0x1a, 0x71, 0x1d, 0x29, 0xc5, 0x89, 0x6f, 0xb7, 0x62, 0x0e, 0xaa, 0x18, 0xbe, 0x1b,
        0xfc, 0x56, 0x3e, 0x4b, 0xc6, 0xd2, 0x79, 0x20, 0x9a, 0xdb, 0xc0, 0xfe, 0x78, 0xcd, 0x5a, 0xf4,
        0x1f, 0xdd, 0xa8, 0x33, 0x88, 0x07, 0xc7, 0x31, 0xb1, 0x12, 0x10, 0x59, 0x27, 0x80, 0xec, 0x5f,
        0x60, 0x51, 0x7f, 0xa9, 0x19, 0xb5, 0x4a, 0x0d, 0x2d, 0xe5, 0x7a, 0x9f, 0x93, 0xc9, 0x9c, 0xef,
        0xa0, 0xe0, 0x3b, 0x4d, 0xae, 0x2a, 0xf5, 0xb0, 0xc8, 0xeb, 0xbb, 0x3c, 0x83, 0x53, 0x99, 0x61,
        0x17, 0x2b, 0x04, 0x7e, 0xba, 0x77, 0xd6, 0x26, 0xe1, 0x69, 0x14, 0x63, 0x55, 0x21, 0x0c, 0x7d,
    ];
    table[c as int]
}

/// The substitution table is a bijection on bytes: no two bytes have the same
/// image, and every byte `c` is the image of `sbox_preimage(c)`.
pub proof fn lemma_sbox_bijective()
    ensures
        forall|a: u8, b: u8| #[trigger] sbox(a) == #[trigger] sbox(b) ==> a == b,
        forall|c: u8| sbox(#[trigger] sbox_preimage(c)) == c,
{
}

/// Shifting the rows four times in a row gives back the state it started from: the
/// rotation of each row has a period that divides four.
pub proof fn lemma_shift_rows_period(s: Seq<u8>)
    requires
        s.len() == 16,
    ensures
        shifted_rows(shifted_rows(shifted_rows(shifted_rows(s)))) == s,
{
    assert(shifted_rows(shifted_rows(shifted_rows(shifted_rows(s)))) =~= s);
}

/// Encryption depends on the block and the key alone: blocks and keys that
/// are equal give equal ciphertexts, whatever was encrypted before.
pub proof fn lemma_encrypt_deterministic(input1: State, key1: Key, input2: State, key2: Key)
    requires
        input1@ == input2@,
        key1@ == key2@,
    ensures
        cipher(input1@, key1@) == cipher(input2@, key2@),
{
}

} // verus!
