use vstd::prelude::*;
use crate::score::{english_score, is_scorable, score_string, MAX_SCORED_LEN};
use crate::util::{bit_distance, fixed_xor, hamming_distance, transpose};
use vstd::slice::{slice_subrange, slice_to_vec};

verus! {

/// `input` with every byte XORed with `k`.
pub open spec fn xor_with(input: Seq<u8>, k: u8) -> Seq<u8> {
    Seq::new(input.len(), |i: int| input[i] ^ k)
}

/// `input` XORed with `key` repeated over its whole length.
pub open spec fn repeated_xor(input: Seq<u8>, key: Seq<u8>) -> Seq<u8> {
    Seq::new(input.len(), |i: int| input[i] ^ key[i % key.len() as int])
}

/// `k` is the first byte below 128 whose XOR with `chunk` scores lowest.
pub open spec fn is_best_key(chunk: Seq<u8>, k: u8) -> bool {
    &&& k < 128
    &&& forall|j: u8| j < 128 ==> english_score(xor_with(chunk, k)) <= english_score(
        #[trigger] xor_with(chunk, j),
    )
    &&& forall|j: u8| j < k ==> english_score(xor_with(chunk, k)) < english_score(
        #[trigger] xor_with(chunk, j),
    )
}

/// XORs `input` with `key` repeated over its whole length.
pub fn repeating_key_xor(input: &[u8], key: &[u8]) -> (r: Vec<u8>)
    requires
        key@.len() > 0,
    ensures
        r@ == repeated_xor(input@, key@),
{
    let key_len = key.len();
    let mut repeated: Vec<u8> = Vec::new();
    for i in 0..input.len()
        invariant
            key_len == key@.len(),
            key_len > 0,
            repeated@.len() == i,
            forall|j: int| 0 <= j < i ==> #[trigger] repeated@[j] == key@[j % key_len as int],
    {
        repeated.push(key[i % key_len]);
    }
    let r = fixed_xor(input, repeated.as_slice());
    assert(r@ =~= repeated_xor(input@, key@));
    r
}

/// `input` XORed with the single byte `k`.
fn single_byte_xor(input: &[u8], k: u8) -> (r: Vec<u8>)
    ensures
        r@ == xor_with(input@, k),
{
    let mut repeated: Vec<u8> = Vec::new();
    for i in 0..input.len()
        invariant
            repeated@.len() == i,
            forall|j: int| 0 <= j < i ==> #[trigger] repeated@[j] == k,
    {
        repeated.push(k);
    }
    let r = fixed_xor(input, repeated.as_slice());
    assert(r@ =~= xor_with(input@, k));
    r
}

/// `input` XORed with each key byte from `first` up to, not including, `end`.
pub fn single_byte_candidates(input: &[u8], first: u8, end: u8) -> (r: Vec<Vec<u8>>)
    requires
        first <= end,
    ensures
        r@.len() == end - first,
        forall|j: int| 0 <= j < r@.len() ==> (#[trigger] r@[j])@ == xor_with(input@, (first + j) as u8),
{
    let mut r: Vec<Vec<u8>> = Vec::new();
    for k in first..end
        invariant
            first <= k <= end,
            r@.len() == k - first,
            forall|j: int| 0 <= j < r@.len() ==> (#[trigger] r@[j])@ == xor_with(input@, (first + j) as u8),
    {
        r.push(single_byte_xor(input, k));
    }
    r
}

/// The first byte below 128 whose XOR with `chunk` reads most like English.
pub fn best_single_byte_key(chunk: &[u8]) -> (r: u8)
    requires
        is_scorable(chunk@),
    ensures
        is_best_key(chunk@, r),
{
    let mut best: u8 = 0;
    let mut best_score = score_string(single_byte_xor(chunk, 0).as_slice());
    for k in 1..128u8
        invariant
            is_scorable(chunk@),
            best < k,
            best_score == english_score(xor_with(chunk@, best)),
            forall|j: u8| j < k ==> english_score(xor_with(chunk@, best)) <= english_score(
                #[trigger] xor_with(chunk@, j),
            ),
            forall|j: u8| j < best ==> english_score(xor_with(chunk@, best)) < english_score(
                #[trigger] xor_with(chunk@, j),
            ),
    {
        let candidate = single_byte_xor(chunk, k);
        let score = score_string(candidate.as_slice());
        if score < best_score {
            best = k;
            best_score = score;
        }
    }
    best
}

/// The bit distance between the first `key_size` bytes of `input` and the
/// `key_size` bytes that start at `offset + key_size`.
pub open spec fn block_distance(input: Seq<u8>, key_size: int, offset: int) -> nat {
    bit_distance(
        input.subrange(0, key_size),
        input.subrange(offset + key_size, offset + 2 * key_size),
        key_size,
    )
}

/// The block distances summed over the offsets from `offset` on, in steps of
/// `key_size`, while `offset` stays below `input.len() - 2 * key_size`.
pub open spec fn distance_from(input: Seq<u8>, key_size: int, offset: int) -> nat
    decreases input.len() - offset,
{
    if key_size > 0 && offset < input.len() - 2 * key_size {
        block_distance(input, key_size, offset) + distance_from(input, key_size, offset + key_size)
    } else {
        0
    }
}

/// The number of offsets that `distance_from` sums over.
pub open spec fn blocks_from(input: Seq<u8>, key_size: int, offset: int) -> nat
    decreases input.len() - offset,
{
    if key_size > 0 && offset < input.len() - 2 * key_size {
        1 + blocks_from(input, key_size, offset + key_size)
    } else {
        0
    }
}

/// The rank of a key size for repeating-key XOR: the bit distance between
/// blocks, scaled by 10000, per byte and per block, rounded down. Lower ranks
/// are likelier key sizes.
pub open spec fn key_size_rank(input: Seq<u8>, key_size: int) -> int {
    (10000 * distance_from(input, key_size, 0)) as int / key_size / blocks_from(input, key_size, 0) as int
}

/// Inputs long enough for every key size up to 40 to be ranked, and short
/// enough for the scaled distances to fit a machine word.
pub open spec fn is_rankable(input: Seq<u8>) -> bool {
    80 < input.len() && 80000 * input.len() <= usize::MAX
}

proof fn lemma_bit_distance_bound(a: Seq<u8>, b: Seq<u8>, n: int)
    requires
        0 <= n <= a.len(),
        n <= b.len(),
    ensures
        bit_distance(a, b, n) <= 8 * n,
    decreases n,
{
    if n > 0 {
        lemma_bit_distance_bound(a, b, n - 1);
        crate::util::lemma_popcount_bound(a[n - 1] ^ b[n - 1]);
    }
}

proof fn lemma_blocks_positive(input: Seq<u8>, key_size: int)
    requires
        0 < key_size,
        2 * key_size < input.len(),
    ensures
        blocks_from(input, key_size, 0) > 0,
{
}

/// Ranks `key_size` as a candidate key size of the repeating-key XOR that
/// produced `input`.
pub fn key_size_distance(input: &[u8], key_size: usize) -> (r: usize)
    requires
        0 < key_size,
        2 * key_size < input@.len(),
        80000 * input@.len() <= usize::MAX,
    ensures
        r == key_size_rank(input@, key_size as int),
{
    let len = input.len();
    let ks = key_size;
    let mut i: usize = 0;
    let mut offset: usize = 0;
    let mut total: usize = 0;
    while offset < len - 2 * ks
        invariant
            len == input@.len(),
            0 < ks,
            2 * ks < len,
            80000 * len <= usize::MAX,
            offset <= len,
            i <= offset,
            total + 10000 * distance_from(input@, ks as int, offset as int) == 10000
                * distance_from(input@, ks as int, 0),
            i + blocks_from(input@, ks as int, offset as int) == blocks_from(input@, ks as int, 0),
            total <= 80000 * offset,
        decreases len - offset,
    {
        let chunk_1 = slice_subrange(input, 0, ks);
        let chunk_2 = slice_subrange(input, offset + ks, offset + 2 * ks);
        let d = hamming_distance(chunk_1, chunk_2);
        proof {
            lemma_bit_distance_bound(chunk_1@, chunk_2@, ks as int);
        }
        total += 10000 * d;
        i += 1;
        offset += ks;
    }
    proof {
        lemma_blocks_positive(input@, ks as int);
    }
    total / ks / i
}

/// The key size from 2 to 40 with the lowest rank; the smallest of equals.
pub fn best_key_size(input: &[u8]) -> (r: usize)
    requires
        is_rankable(input@),
    ensures
        2 <= r <= 40,
        forall|k: int| 2 <= k <= 40 ==> key_size_rank(input@, r as int) <= #[trigger] key_size_rank(input@, k),
        forall|k: int| 2 <= k < r ==> key_size_rank(input@, r as int) < #[trigger] key_size_rank(input@, k),
{
    let mut best: usize = 2;
    let mut best_rank = key_size_distance(input, 2);
    for key_size in 3..41
        invariant
            is_rankable(input@),
            2 <= best < key_size,
            best_rank == key_size_rank(input@, best as int),
            forall|k: int| 2 <= k < key_size ==> key_size_rank(input@, best as int) <= #[trigger] key_size_rank(input@, k),
            forall|k: int| 2 <= k < best ==> key_size_rank(input@, best as int) < #[trigger] key_size_rank(input@, k),
    {
        let rank = key_size_distance(input, key_size);
        if rank < best_rank {
            best = key_size;
            best_rank = rank;
        }
    }
    best
}

/// The number of rows of `key_size` bytes that `len` bytes fill, the last
/// one possibly short.
pub open spec fn row_count(len: int, key_size: int) -> int {
    len / key_size + if len % key_size > 0 {
        1int
    } else {
        0int
    }
}

/// Column `c` of `input` cut into rows of `key_size` bytes, with a space
/// where the last row is too short.
pub open spec fn column_of(input: Seq<u8>, key_size: int, c: int) -> Seq<u8> {
    Seq::new(
        row_count(input.len() as int, key_size) as nat,
        |j: int|
            if c + key_size * j < input.len() {
                input[c + key_size * j]
            } else {
                0x20
            },
    )
}

/// The shorter of the key size and the input: the number of columns.
pub open spec fn column_count(input: Seq<u8>, key_size: int) -> int {
    if key_size <= input.len() {
        key_size
    } else {
        input.len() as int
    }
}

proof fn lemma_row_count(len: int, key_size: int)
    requires
        0 < key_size,
        0 < len,
    ensures
        0 < row_count(len, key_size) <= len,
{
    let q = len / key_size;
    let r = len % key_size;
    assert(len == key_size * q + r && 0 <= r < key_size && 0 <= q) by (nonlinear_arith)
        requires
            0 < key_size,
            0 < len,
            q == len / key_size,
            r == len % key_size,
    ;
    assert(q + r <= len && (r == 0 ==> q > 0)) by (nonlinear_arith)
        requires
            len == key_size * q + r,
            0 <= q,
            0 <= r,
            0 < key_size,
            0 < len,
    ;
}

proof fn lemma_rows(len: int, key_size: int, j: int)
    requires
        0 < key_size,
        0 < len,
        0 <= j < row_count(len, key_size),
    ensures
        0 <= key_size * j < len,
        key_size * (j + 1) == key_size * j + key_size,
{
    let q = len / key_size;
    let r = len % key_size;
    assert(len == key_size * q + r && 0 <= r < key_size) by (nonlinear_arith)
        requires
            0 < key_size,
            q == len / key_size,
            r == len % key_size,
    ;
    assert(0 <= key_size * j < len) by (nonlinear_arith)
        requires
            len == key_size * q + r,
            0 <= r < key_size,
            0 <= j,
            j < q || (j == q && r > 0),
    ;
    assert(key_size * (j + 1) == key_size * j + key_size) by (nonlinear_arith);
}

/// Recovers the key of a repeating-key XOR of English text, given its size:
/// for each column of the input cut into rows of `key_size` bytes, the byte
/// below 128 that makes the column read most like English.
pub fn recover_repeating_key(input: &[u8], key_size: usize) -> (key: Vec<u8>)
    requires
        0 < key_size,
        0 < input@.len() <= MAX_SCORED_LEN,
    ensures
        key@.len() == column_count(input@, key_size as int),
        forall|c: int|
            0 <= c < key@.len() ==> is_best_key(column_of(input@, key_size as int, c), #[trigger] key@[c]),
{
    let len = input.len();
    let ks = key_size;
    let n_rows = len / ks + if len % ks > 0 {
        1usize
    } else {
        0usize
    };
    let mut rows: Vec<Vec<u8>> = Vec::new();
    for j in 0..n_rows
        invariant
            len == input@.len(),
            0 < ks,
            0 < len <= MAX_SCORED_LEN,
            n_rows == row_count(len as int, ks as int),
            rows@.len() == j,
            forall|m: int|
                0 <= m < j ==> (#[trigger] rows@[m])@ == input@.subrange(
                    ks * m,
                    if ks * m + ks <= len {
                        ks * m + ks
                    } else {
                        len as int
                    },
                ),
    {
        proof {
            lemma_rows(len as int, ks as int, j as int);
        }
        let start = ks * j;
        let end = if len - start >= ks {
            start + ks
        } else {
            len
        };
        rows.push(slice_to_vec(slice_subrange(input, start, end)));
    }
    proof {
        lemma_row_count(len as int, ks as int);
    }
    let columns = transpose(rows, 0x20);
    let mut key: Vec<u8> = Vec::new();
    for c in 0..columns.len()
        invariant
            len == input@.len(),
            0 < ks,
            0 < len <= MAX_SCORED_LEN,
            n_rows == row_count(len as int, ks as int),
            0 < n_rows <= len,
            rows@.len() == n_rows,
            columns@.len() == rows@[0]@.len(),
            forall|m: int|
                0 <= m < n_rows ==> (#[trigger] rows@[m])@ == input@.subrange(
                    ks * m,
                    if ks * m + ks <= len {
                        ks * m + ks
                    } else {
                        len as int
                    },
                ),
            forall|i: int| 0 <= i < columns@.len() ==> (#[trigger] columns@[i])@.len() == rows@.len(),
            forall|i: int, j: int|
                0 <= i < columns@.len() && 0 <= j < rows@.len() ==> if i < rows@[j]@.len() {
                    cloned(rows@[j]@[i], #[trigger] columns@[i]@[j])
                } else {
                    cloned(0x20u8, columns@[i]@[j])
                },
            key@.len() == c,
            forall|m: int|
                0 <= m < c ==> is_best_key(column_of(input@, ks as int, m), #[trigger] key@[m]),
    {
        let column = columns[c].as_slice();
        assert(column@ =~= column_of(input@, ks as int, c as int)) by {
            assert forall|j: int| 0 <= j < column@.len() implies column@[j] == column_of(
                input@,
                ks as int,
                c as int,
            )[j] by {
                lemma_rows(len as int, ks as int, j);
            }
        }
        key.push(best_single_byte_key(column));
    }
    key
}

} // verus!
