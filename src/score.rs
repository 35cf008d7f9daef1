use vstd::prelude::*;

verus! {

/// The characters that English text is scored on: the space and the
/// upper-case letters, most frequent first.
pub const SCORED_CHARS: [u8; 27] = [
    // ' ', 'E', 'A', 'R', 'I', 'O', 'T', 'N', 'S', 'L', 'C', 'U', 'D', 'P',
    // 'M', 'H', 'G', 'B', 'F', 'Y', 'W', 'K', 'V', 'X', 'Z', 'J', 'Q'
    0x20, 0x45, 0x41, 0x52, 0x49, 0x4f, 0x54, 0x4e, 0x53, 0x4c, 0x43, 0x55, 0x44, 0x50,
    0x4d, 0x48, 0x47, 0x42, 0x46, 0x59, 0x57, 0x4b, 0x56, 0x58, 0x5a, 0x4a, 0x51,
];

/// The expected frequency of each character of `SCORED_CHARS` in English text,
/// on the scale that `score_string` compares against.
pub const EXPECTED_RATES: [u32; 27] = [
    130000, 111607, 84966, 75809, 75448, 71635, 69509, 66544, 57351, 54893, 45388, 36308,
    33844, 31671, 30129, 30034, 24705, 20720, 18121, 17779, 12899, 11016, 10074, 2902, 2722,
    1965, 1962,
];

/// The longest input that `score_string` rates.
pub const MAX_SCORED_LEN: usize = 20_000_000;

/// An ASCII letter or digit, or ASCII white space (space, tab, line feed,
/// form feed, carriage return).
pub open spec fn is_counted(b: u8) -> bool {
    (0x30 <= b && b <= 0x39) || (0x41 <= b && b <= 0x5a) || (0x61 <= b && b <= 0x7a) || b == 0x20
        || b == 0x09 || b == 0x0a || b == 0x0c || b == 0x0d
}

/// A byte with an ASCII lower-case letter made upper case.
pub open spec fn to_upper(b: u8) -> u8 {
    if 0x61 <= b && b <= 0x7a {
        (b - 32) as u8
    } else {
        b
    }
}

/// How many of the first `n` bytes of `s` are counted and stand for `c`
/// once made upper case.
pub open spec fn occurrences(s: Seq<u8>, c: u8, n: int) -> nat
    decreases n,
{
    if n <= 0 {
        0
    } else {
        occurrences(s, c, n - 1) + if is_counted(s[n - 1]) && to_upper(s[n - 1]) == c {
            1nat
        } else {
            0nat
        }
    }
}

/// How many of the first `n` bytes of `s` are not counted.
pub open spec fn uncounted(s: Seq<u8>, n: int) -> nat
    decreases n,
{
    if n <= 0 {
        0
    } else {
        uncounted(s, n - 1) + if is_counted(s[n - 1]) {
            0nat
        } else {
            1nat
        }
    }
}

/// How far the rate of character `k` of `SCORED_CHARS` in `s` (per hundred
/// bytes, rounded down) lies from its expected rate.
pub open spec fn char_deviation(s: Seq<u8>, k: int) -> nat {
    let rate = (100 * occurrences(s, SCORED_CHARS[k], s.len() as int)) as int / (s.len() as int);
    let expected = EXPECTED_RATES[k] as int;
    if rate >= expected {
        (rate - expected) as nat
    } else {
        (expected - rate) as nat
    }
}

/// The deviations of the first `k` scored characters, summed.
pub open spec fn total_deviation(s: Seq<u8>, k: int) -> nat
    decreases k,
{
    if k <= 0 {
        0
    } else {
        total_deviation(s, k - 1) + char_deviation(s, k - 1)
    }
}

/// How unlike English text `s` is: 100 for each point of deviation from the
/// expected character rates, and 100 for each byte that is neither an ASCII
/// letter, digit nor white space. Lower is more English.
pub open spec fn english_score(s: Seq<u8>) -> nat {
    total_deviation(s, 27) * 100 + uncounted(s, s.len() as int) * 100
}

/// A text that `score_string` rates.
pub open spec fn is_scorable(s: Seq<u8>) -> bool {
    0 < s.len() <= MAX_SCORED_LEN
}

proof fn lemma_occurrences_bound(s: Seq<u8>, c: u8, n: int)
    requires
        0 <= n <= s.len(),
    ensures
        occurrences(s, c, n) <= n,
    decreases n,
{
    if n > 0 {
        lemma_occurrences_bound(s, c, n - 1);
    }
}

proof fn lemma_deviation_bound(s: Seq<u8>, k: int)
    requires
        is_scorable(s),
        0 <= k <= 27,
    ensures
        total_deviation(s, k) <= 130100 * k,
    decreases k,
{
    if k > 0 {
        lemma_deviation_bound(s, k - 1);
        let n = occurrences(s, SCORED_CHARS[k - 1], s.len() as int);
        lemma_occurrences_bound(s, SCORED_CHARS[k - 1], s.len() as int);
        assert((100 * n) as int / (s.len() as int) <= 100) by (nonlinear_arith)
            requires
                n <= s.len(),
                s.len() > 0,
        ;
        assert(EXPECTED_RATES[k - 1] <= 130000);
    }
}

/// Rates how unlike English text `s` is; lower is more English.
pub fn score_string(s: &[u8]) -> (r: usize)
    requires
        is_scorable(s@),
    ensures
        r == english_score(s@),
{
    let len = s.len();
    let mut counts: [usize; 256] = [0; 256];
    let mut non_ascii: usize = 0;
    for i in 0..len
        invariant
            len == s@.len(),
            len <= MAX_SCORED_LEN,
            forall|c: u8| #[trigger] counts[c as int] == occurrences(s@, c, i as int),
            forall|c: u8| #[trigger] counts[c as int] <= i,
            non_ascii == uncounted(s@, i as int),
            non_ascii <= i,
    {
        let c = s[i];
        let counted = (0x30 <= c && c <= 0x39) || (0x41 <= c && c <= 0x5a) || (0x61 <= c && c
            <= 0x7a) || c == 0x20 || c == 0x09 || c == 0x0a || c == 0x0c || c == 0x0d;
        if counted {
            let key = if 0x61 <= c && c <= 0x7a {
                c - 32
            } else {
                c
            };
            counts[key as usize] = counts[key as usize] + 1;
        } else {
            non_ascii += 1;
        }
        assert forall|b: u8| #[trigger] counts[b as int] == occurrences(s@, b, i + 1) by {}
    }
    let mut diff: usize = 0;
    for k in 0..27
        invariant
            len == s@.len(),
            0 < len <= MAX_SCORED_LEN,
            forall|c: u8| #[trigger] counts[c as int] == occurrences(s@, c, len as int),
            forall|c: u8| #[trigger] counts[c as int] <= len,
            diff == total_deviation(s@, k as int),
    {
        proof {
            lemma_deviation_bound(s@, k as int);
        }
        let actual = counts[SCORED_CHARS[k] as usize];
        assert(100 * actual <= 100 * len);
        let rate = 100 * actual / len;
        assert(rate <= 100) by (nonlinear_arith)
            requires
                rate as int == (100 * actual) as int / (len as int),
                actual <= len,
                len > 0,
        ;
        let expected = EXPECTED_RATES[k] as usize;
        let deviation = if rate >= expected {
            rate - expected
        } else {
            expected - rate
        };
        diff = diff + deviation;
    }
    proof {
        lemma_deviation_bound(s@, 27);
    }
    diff * 100 + non_ascii * 100
}

/// The first of `strings` with the lowest score.
pub fn best_string<'a>(strings: &'a Vec<Vec<u8>>) -> (r: &'a [u8])
    requires
        strings@.len() > 0,
        forall|i: int| 0 <= i < strings@.len() ==> is_scorable(#[trigger] strings@[i]@),
    ensures
        exists|i: int|
            0 <= i < strings@.len() && r@ == strings@[i]@ && (forall|j: int|
                0 <= j < strings@.len() ==> english_score(strings@[i]@) <= english_score(
                    #[trigger] strings@[j]@,
                )) && (forall|j: int|
                0 <= j < i ==> english_score(strings@[i]@) < english_score(
                    #[trigger] strings@[j]@,
                )),
{
    let mut best: usize = 0;
    let mut best_score = score_string(strings[0].as_slice());
    for i in 1..strings.len()
        invariant
            strings@.len() > 0,
            forall|m: int| 0 <= m < strings@.len() ==> is_scorable(#[trigger] strings@[m]@),
            best < i,
            best_score == english_score(strings@[best as int]@),
            forall|j: int|
                0 <= j < i ==> english_score(strings@[best as int]@) <= english_score(
                    #[trigger] strings@[j]@,
                ),
            forall|j: int|
                0 <= j < best ==> english_score(strings@[best as int]@) < english_score(
                    #[trigger] strings@[j]@,
                ),
    {
        let score = score_string(strings[i].as_slice());
        if score < best_score {
            best = i;
            best_score = score;
        }
    }
    strings[best].as_slice()
}

} // verus!
