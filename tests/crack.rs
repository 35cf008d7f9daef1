use cryptopals::crack::{
    best_key_size, best_single_byte_key, key_size_distance, recover_repeating_key,
    repeating_key_xor, single_byte_candidates,
};
use cryptopals::hex::to_hex;

#[test]
fn repeating_key_xor_known_vector() {
    let input = b"Burning 'em, if you ain't quick and nimble\nI go crazy when I hear a cymbal";
    let expected = "0b3637272a2b2e63622c2e69692a23693a2a3c6324202d623d63343c2a26226324272765272\
a282b2f20430a652e2c652a3124333a653e2b2027630c692b20283165286326302e27282f";
    assert_eq!(expected, to_hex(&repeating_key_xor(input, b"ICE")));
}

#[test]
fn repeating_key_xor_twice_restores_input() {
    let input = b"attack at dawn".to_vec();
    let once = repeating_key_xor(&input, b"key");
    assert_ne!(input, once);
    assert_eq!(input, repeating_key_xor(&once, b"key"));
}

#[test]
fn single_byte_candidates_cover_the_range() {
    let candidates = single_byte_candidates(&[0x00, 0x0f], 1, 4);
    assert_eq!(vec![vec![1, 0x0e], vec![2, 0x0d], vec![3, 0x0c]], candidates);
    assert!(single_byte_candidates(&[1, 2], 5, 5).is_empty());
}

#[test]
fn best_single_byte_key_recovers_english_key() {
    let plain = b"Now that the party is jumping with the bass kicked in and the vegas are pumpin";
    let hidden: Vec<u8> = plain.iter().map(|b| b ^ 0x58).collect();
    assert_eq!(0x58, best_single_byte_key(&hidden));
}

#[test]
fn key_size_distance_known_value() {
    // 84 bytes of zeros against key size 2: every block matches the first.
    let zeros = [0u8; 84];
    assert_eq!(0, key_size_distance(&zeros, 2));
    // Alternating 0x00 / 0xff with key size 3: 26 blocks, of which the 13 that
    // start at an odd index differ from the first block in all 24 bits.
    let alternating: Vec<u8> = (0..84).map(|i| if i % 2 == 0 { 0x00 } else { 0xff }).collect();
    assert_eq!(0, key_size_distance(&alternating, 2));
    assert_eq!(10000 * 24 * 13 / 3 / 26, key_size_distance(&alternating, 3));
}

#[test]
fn best_key_size_prefers_period() {
    let alternating: Vec<u8> = (0..84).map(|i| if i % 2 == 0 { 0x00 } else { 0xff }).collect();
    assert_eq!(2, best_key_size(&alternating));
}

#[test]
fn recover_repeating_key_from_english() {
    let plain = b"I'm back and I'm ringin' the bell A rockin' on the mike while the fly girls yell \
In ecstasy in the back of me Well that's my DJ Deshay cuttin' all them Z's";
    let hidden = repeating_key_xor(plain, b"ICE");
    let key = recover_repeating_key(&hidden, 3);
    assert_eq!(b"ICE".to_vec(), key);
    assert_eq!(plain.to_vec(), repeating_key_xor(&hidden, &key));
}

#[test]
fn recover_repeating_key_with_key_longer_than_input() {
    let key = recover_repeating_key(b"ab", 5);
    assert_eq!(2, key.len());
}
