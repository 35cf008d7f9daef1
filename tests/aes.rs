use cryptopals::aes::{
    add_round_key, encrypt, expand_key, mix_columns, shift_rows, sub_bytes, Key, State, S_BOX,
};

#[test]
fn sub_bytes_test() {
    assert_eq!(0xd4e0b81e, sub_bytes(0x19a09ae9));
}

#[test]
fn expand_key_test() {
    let start_key: Key = [0x2b7e1516, 0x28aed2a6, 0xabf71588, 0x09cf4f3c];
    let keys = expand_key(&start_key);
    assert_eq!(11, keys.len());
    // Second key set.
    assert_eq!(0xa0fafe17, keys[1][0]);
    assert_eq!(0x88542cb1, keys[1][1]);
    assert_eq!(0x23a33939, keys[1][2]);
    assert_eq!(0x2a6c7605, keys[1][3]);
    // Very last one.
    assert_eq!(0xb6630ca6, keys[10][3]);
}

#[test]
fn shift_rows_test() {
    let mut input = [
        0xd4, 0xe0, 0xb8, 0x1e,
        0x27, 0xbf, 0xb4, 0x41,
        0x11, 0x98, 0x5d, 0x52,
        0xae, 0xf1, 0xe5, 0x30,
    ];
    let expected = [
        0xd4, 0xe0, 0xb8, 0x1e,
        0xbf, 0xb4, 0x41, 0x27,
        0x5d, 0x52, 0x11, 0x98,
        0x30, 0xae, 0xf1, 0xe5,
    ];
    shift_rows(&mut input);
    assert_eq!(expected, input);
}

#[test]
fn mix_columns_test() {
    let mut input = [
        0xd4, 0xe0, 0xb8, 0x1e,
        0xbf, 0xb4, 0x41, 0x27,
        0x5d, 0x52, 0x11, 0x98,
        0x30, 0xae, 0xf1, 0xe5,
    ];
    let expected = [
        0x04, 0xe0, 0x48, 0x28,
        0x66, 0xcb, 0xf8, 0x06,
        0x81, 0x19, 0xd3, 0x26,
        0xe5, 0x9a, 0x7a, 0x4c,
    ];
    mix_columns(&mut input);
    assert_eq!(expected, input);
}

#[test]
fn add_round_key_test() {
    let mut input = [
        0x04, 0xe0, 0x48, 0x28,
        0x66, 0xcb, 0xf8, 0x06,
        0x81, 0x19, 0xd3, 0x26,
        0xe5, 0x9a, 0x7a, 0x4c,
    ];
    let key: Key = [0xa0fafe17, 0x88542cb1, 0x23a33939, 0x2a6c7605];
    let expected = [
        0xa4, 0x68, 0x6b, 0x02,
        0x9c, 0x9f, 0x5b, 0x6a,
        0x7f, 0x35, 0xea, 0x50,
        0xf2, 0x2b, 0x43, 0x49,
    ];
    add_round_key(&mut input, key);
    assert_eq!(expected, input);
}

#[test]
fn encrypt_test() {
    let input = [
        0x32, 0x88, 0x31, 0xe0,
        0x43, 0x5a, 0x31, 0x37,
        0xf6, 0x30, 0x98, 0x07,
        0xa8, 0x8d, 0xa2, 0x34,
    ];
    let key: Key = [0x2b7e1516, 0x28aed2a6, 0xabf71588, 0x09cf4f3c];
    let expected = [
        0x39, 0x02, 0xdc, 0x19,
        0x25, 0xdc, 0x11, 0x6a,
        0x84, 0x09, 0x85, 0x0b,
        0x1d, 0xfb, 0x97, 0x32,
    ];
    assert_eq!(expected, encrypt(input, key));
}

#[test]
fn sbox_is_a_bijection_on_bytes() {
    let mut seen = [false; 256];
    for b in 0..=255u8 {
        let image = (sub_bytes(b as u32) & 0xff) as u8;
        assert_eq!(S_BOX[b as usize], image);
        assert!(!seen[image as usize]);
        seen[image as usize] = true;
    }
    assert!(seen.iter().all(|&s| s));
}

#[test]
fn sub_bytes_uses_each_byte_position() {
    assert_eq!(0x63636363, sub_bytes(0x00000000));
    assert_eq!(0x16161616, sub_bytes(0xffffffff));
    assert_eq!(0x637c777b, sub_bytes(0x00010203));
}

#[test]
fn key_schedule_has_eleven_keys_for_any_key() {
    for key in [[0u32; 4], [u32::MAX; 4], [1, 2, 3, 4]] {
        let keys = expand_key(&key);
        assert_eq!(11, keys.len());
        assert_eq!(key, keys[0]);
    }
}

#[test]
fn key_schedule_of_zero_key() {
    let keys = expand_key(&[0, 0, 0, 0]);
    assert_eq!([0x62636363, 0x62636363, 0x62636363, 0x62636363], keys[1]);
    assert_eq!([0xb4ef5bcb, 0x3e92e211, 0x23e951cf, 0x6f8f188e], keys[10]);
}

#[test]
fn shift_rows_four_times_is_identity() {
    let start: State = [
        0, 1, 2, 3, 4, 5, 6, 7, 8, 9, 10, 11, 12, 13, 14, 15,
    ];
    let mut state = start;
    shift_rows(&mut state);
    assert_eq!([0, 1, 2, 3, 5, 6, 7, 4, 10, 11, 8, 9, 15, 12, 13, 14], state);
    shift_rows(&mut state);
    shift_rows(&mut state);
    assert_ne!(start, state);
    shift_rows(&mut state);
    assert_eq!(start, state);
}

#[test]
fn mix_columns_reduces_high_bit() {
    // A column of 0x80 bytes: 2 * 0x80 = 0x1b, 3 * 0x80 = 0x9b.
    let mut state: State = [0; 16];
    for r in 0..4 {
        state[r * 4] = 0x80;
    }
    mix_columns(&mut state);
    for r in 0..4 {
        assert_eq!(0x1b ^ 0x9b ^ 0x80 ^ 0x80, state[r * 4]);
        assert_eq!(0, state[r * 4 + 1]);
    }
}

#[test]
fn add_round_key_twice_restores_state() {
    let start: State = [7; 16];
    let key: Key = [0x01020304, 0x05060708, 0x090a0b0c, 0x0d0e0f10];
    let mut state = start;
    add_round_key(&mut state, key);
    assert_eq!([6, 2, 14, 10, 5, 1, 13, 9, 4, 0, 12, 8, 3, 15, 11, 23], state);
    add_round_key(&mut state, key);
    assert_eq!(start, state);
}

#[test]
fn encrypt_fips_appendix_c_vector() {
    // Plaintext 00112233..ff, key 00010203..0f, laid out row by row.
    let mut input: State = [0; 16];
    let mut expected: State = [0; 16];
    let plain: [u8; 16] = [
        0x00, 0x11, 0x22, 0x33, 0x44, 0x55, 0x66, 0x77,
        0x88, 0x99, 0xaa, 0xbb, 0xcc, 0xdd, 0xee, 0xff,
    ];
    let cipher: [u8; 16] = [
        0x69, 0xc4, 0xe0, 0xd8, 0x6a, 0x7b, 0x04, 0x30,
        0xd8, 0xcd, 0xb7, 0x80, 0x70, 0xb4, 0xc5, 0x5a,
    ];
    for i in 0..16 {
        input[(i % 4) * 4 + i / 4] = plain[i];
        expected[(i % 4) * 4 + i / 4] = cipher[i];
    }
    let key: Key = [0x00010203, 0x04050607, 0x08090a0b, 0x0c0d0e0f];
    assert_eq!(expected, encrypt(input, key));
}

#[test]
fn encrypt_is_deterministic() {
    let input: State = [0x5a; 16];
    let key: Key = [0xdeadbeef, 0x01234567, 0x89abcdef, 0x0badf00d];
    let first = encrypt(input, key);
    let _other = encrypt([0; 16], [0; 4]);
    let second = encrypt(input, key);
    assert_eq!(first, second);
    assert_ne!(input, first);
}
