use vstd::prelude::*;

verus! {

/// The shorter of two lengths.
pub open spec fn min_len(a: Seq<u8>, b: Seq<u8>) -> int {
    if a.len() <= b.len() {
        a.len() as int
    } else {
        b.len() as int
    }
}

/// Bit `i` of a byte, counted from the least significant.
pub open spec fn bit(b: u8, i: nat) -> nat {
    ((b >> (i as u8)) & 1u8) as nat
}

/// The number of set bits among the `i` lowest bits of a byte.
pub open spec fn ones_below(b: u8, i: nat) -> nat
    decreases i,
{
    if i == 0 {
        0
    } else {
        ones_below(b, (i - 1) as nat) + bit(b, (i - 1) as nat)
    }
}

/// The number of set bits of a byte.
pub open spec fn popcount(b: u8) -> nat {
    ones_below(b, 8)
}

/// The number of differing bits between the first `n` bytes of `a` and `b`.
pub open spec fn bit_distance(a: Seq<u8>, b: Seq<u8>, n: int) -> nat
    decreases n,
{
    if n <= 0 {
        0
    } else {
        bit_distance(a, b, n - 1) + popcount(a[n - 1] ^ b[n - 1])
    }
}

/// XORs `a` and `b` byte by byte, up to the length of the shorter one.
pub fn fixed_xor(a: &[u8], b: &[u8]) -> (r: Vec<u8>)
    ensures
        r@.len() == min_len(a@, b@),
        forall|i: int| 0 <= i < r@.len() ==> #[trigger] r@[i] == a@[i] ^ b@[i],
{
    let n = if a.len() <= b.len() {
        a.len()
    } else {
        b.len()
    };
    let mut r: Vec<u8> = Vec::new();
    for i in 0..n
        invariant
            n == min_len(a@, b@),
            r@.len() == i,
            forall|j: int| 0 <= j < i ==> #[trigger] r@[j] == a@[j] ^ b@[j],
    {
        r.push(a[i] ^ b[i]);
    }
    r
}

proof fn lemma_ones_below_bound(b: u8, i: nat)
    requires
        i <= 8,
    ensures
        ones_below(b, i) <= i,
    decreases i,
{
    if i > 0 {
        lemma_ones_below_bound(b, (i - 1) as nat);
        let k = (i - 1) as u8;
        assert((b >> k) & 1u8 <= 1) by (bit_vector);
    }
}

/// A byte has at most eight set bits.
pub proof fn lemma_popcount_bound(b: u8)
    ensures
        popcount(b) <= 8,
{
    lemma_ones_below_bound(b, 8);
}

/// Counts the set bits of a byte.
fn count_ones(b: u8) -> (r: u32)
    ensures
        r == popcount(b),
        r <= 8,
{
    let mut n: u32 = 0;
    for i in 0..8u8
        invariant
            n == ones_below(b, i as nat),
            n <= i,
    {
        let low = (b >> i) & 1;
        assert(low <= 1) by (bit_vector)
            requires
                low == (b >> i) & 1u8,
        ;
        n = n + low as u32;
    }
    n
}

/// The number of bits in which `s1` and `s2` differ, over the length of the
/// shorter one.
pub fn hamming_distance(s1: &[u8], s2: &[u8]) -> (r: usize)
    requires
        8 * min_len(s1@, s2@) <= usize::MAX,
    ensures
        r == bit_distance(s1@, s2@, min_len(s1@, s2@)),
{
    let n = if s1.len() <= s2.len() {
        s1.len()
    } else {
        s2.len()
    };
    let mut total: usize = 0;
    for i in 0..n
        invariant
            n == min_len(s1@, s2@),
            8 * n <= usize::MAX,
            total == bit_distance(s1@, s2@, i as int),
            total <= 8 * i,
    {
        let ones = count_ones(s1[i] ^ s2[i]);
        total = total + ones as usize;
    }
    total
}

/// Reads `v` as rows and returns its columns, as many as the first row is
/// long; a row that is too short to reach a column contributes `fill` there.
pub fn transpose<T: Clone>(v: Vec<Vec<T>>, fill: T) -> (r: Vec<Vec<T>>)
    requires
        v@.len() > 0,
    ensures
        r@.len() == v@[0]@.len(),
        forall|i: int| 0 <= i < r@.len() ==> (#[trigger] r@[i])@.len() == v@.len(),
        forall|i: int, j: int|
            0 <= i < r@.len() && 0 <= j < v@.len() ==> if i < v@[j]@.len() {
                cloned(v@[j]@[i], #[trigger] r@[i]@[j])
            } else {
                cloned(fill, r@[i]@[j])
            },
{
    let width = v[0].len();
    let mut r: Vec<Vec<T>> = Vec::new();
    for i in 0..width
        invariant
            width == v@[0]@.len(),
            r@.len() == i,
            forall|k: int| 0 <= k < i ==> (#[trigger] r@[k])@.len() == v@.len(),
            forall|k: int, j: int|
                0 <= k < i && 0 <= j < v@.len() ==> if k < v@[j]@.len() {
                    cloned(v@[j]@[k], #[trigger] r@[k]@[j])
                } else {
                    cloned(fill, r@[k]@[j])
                },
    {
        let mut column: Vec<T> = Vec::new();
        for j in 0..v.len()
            invariant
                column@.len() == j,
                forall|m: int|
                    0 <= m < j ==> if i < v@[m]@.len() {
                        cloned(v@[m]@[i as int], #[trigger] column@[m])
                    } else {
                        cloned(fill, column@[m])
                    },
        {
            let inner = &v[j];
            if i < inner.len() {
                column.push(inner[i].clone());
            } else {
                column.push(fill.clone());
            }
        }
        r.push(column);
    }
    r
}
}
