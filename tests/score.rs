use cryptopals::score::{best_string, score_string};

#[test]
fn score_string_of_single_space() {
    // Space: rate 100 against 130000; every letter: rate 0 against its own rate.
    let letters: u32 = 111607 + 84966 + 75809 + 75448 + 71635 + 69509 + 66544 + 57351
        + 54893 + 45388 + 36308 + 33844 + 31671 + 30129 + 30034 + 24705 + 20720 + 18121
        + 17779 + 12899 + 11016 + 10074 + 2902 + 2722 + 1965 + 1962;
    let expected = ((130000 - 100) + letters) as usize * 100;
    assert_eq!(expected, score_string(b" "));
}

#[test]
fn score_string_counts_other_bytes() {
    let base = score_string(b"ab");
    // Two punctuation bytes keep every rate at zero for 'A' and 'B' but add 200.
    let with_other = score_string(b"a!");
    assert_ne!(base, with_other);
    assert_eq!(score_string(b"A!") , with_other);
}

#[test]
fn score_string_ignores_case() {
    assert_eq!(score_string(b"Hello World"), score_string(b"hELLO wORLD"));
}

#[test]
fn best_string_prefers_letters() {
    let strings = vec![b"!!!!".to_vec(), b"eeee".to_vec(), b"zzzz".to_vec()];
    assert_eq!(b"eeee", best_string(&strings));
    // Every expected rate exceeds 100, so any one repeated letter scores the same.
    assert_eq!(score_string(b"eeee"), score_string(b"zzzz"));
    // "zzzz" lies 100 closer to the rate of 'Z'; "!!!!" has four other bytes.
    assert_eq!(score_string(b"zzzz") + 100 * 100 + 400, score_string(b"!!!!"));
}

#[test]
fn best_string_takes_first_of_equal_scores() {
    let strings = vec![b"abc".to_vec(), b"ABC".to_vec()];
    let best = best_string(&strings);
    assert_eq!(b"abc", best);
    assert!(std::ptr::eq(best.as_ptr(), strings[0].as_ptr()));
}
