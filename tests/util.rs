use cryptopals::util::{fixed_xor, hamming_distance, transpose};

#[test]
fn hamming_distance_test() {
    assert_eq!(37, hamming_distance(b"this is a test", b"wokka wokka!!!"));
}

#[test]
fn hamming_distance_stops_at_shorter_input() {
    assert_eq!(8, hamming_distance(&[0xff, 0xff], &[0x00]));
    assert_eq!(0, hamming_distance(&[], &[1, 2, 3]));
}

#[test]
fn fixed_xor_known_vector() {
    let a = [0x1c, 0x01, 0x11, 0x00];
    let b = [0x68, 0x69, 0x74, 0x20];
    assert_eq!(vec![0x74, 0x68, 0x65, 0x20], fixed_xor(&a, &b));
}

#[test]
fn fixed_xor_stops_at_shorter_input() {
    assert_eq!(vec![3], fixed_xor(&[1, 2, 3], &[2]));
    assert_eq!(Vec::<u8>::new(), fixed_xor(&[], &[2]));
}

#[test]
fn transpose_fills_short_rows() {
    let rows = vec![vec![1u8, 2, 3], vec![4, 5], vec![6, 7, 8]];
    let columns = transpose(rows, 0);
    assert_eq!(vec![vec![1, 4, 6], vec![2, 5, 7], vec![3, 0, 8]], columns);
}

#[test]
fn transpose_uses_first_row_width() {
    let rows = vec![vec![1u8], vec![2, 3]];
    assert_eq!(vec![vec![1, 2]], transpose(rows, 9));
}
