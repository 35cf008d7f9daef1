use cryptopals::base64::{from_base64, to_base64};
use cryptopals::hex::{from_hex, to_hex};

#[test]
fn from_base64_test() {
    assert_eq!("any carnal pleas", from_base64("YW55IGNhcm5hbCBwbGVhcw==")
               .iter()
               .map(|&b| b as char)
               .collect::<String>());
    assert_eq!("any carnal pleasu", from_base64("YW55IGNhcm5hbCBwbGVhc3U=")
               .iter()
               .map(|&b| b as char)
               .collect::<String>());
    assert_eq!("any carnal pleasur", from_base64("YW55IGNhcm5hbCBwbGVhc3Vy")
               .iter()
               .map(|&b| b as char)
               .collect::<String>());
    assert_eq!("any carnal pleasure", from_base64("YW55IGNhcm5hbCBwbGVhc3VyZQ==")
               .iter()
               .map(|&b| b as char)
               .collect::<String>());
    assert_eq!("any carnal pleasure.", from_base64("YW55IGNhcm5hbCBwbGVhc3VyZS4=")
               .iter()
               .map(|&b| b as char)
               .collect::<String>());
}

#[test]
fn to_base64_test() {
    assert_eq!("YW55IGNhcm5hbCBwbGVhc3VyZS4=", to_base64(b"any carnal pleasure."));
    assert_eq!("YW55IGNhcm5hbCBwbGVhc3VyZQ==", to_base64(b"any carnal pleasure"));
    assert_eq!("YW55IGNhcm5hbCBwbGVhc3Vy", to_base64(b"any carnal pleasur"));
    assert_eq!("YW55IGNhcm5hbCBwbGVhc3U=", to_base64(b"any carnal pleasu"));
    assert_eq!("YW55IGNhcm5hbCBwbGVhcw==", to_base64(b"any carnal pleas"));
}

#[test]
fn base64_empty_input() {
    assert_eq!("", to_base64(b""));
    assert_eq!(Vec::<u8>::new(), from_base64(""));
}

#[test]
fn from_base64_skips_spaces_and_newlines() {
    assert_eq!(b"Man".to_vec(), from_base64("TW\nF u"));
    assert_eq!(vec![0xfb, 0xff], from_base64("+/8="));
}

#[test]
fn base64_round_trip_of_all_bytes() {
    let bytes: Vec<u8> = (0..=255u8).collect();
    let text = to_base64(&bytes);
    assert_eq!(344, text.len());
    assert_eq!(bytes, from_base64(&text));
}

#[test]
fn to_hex_writes_lower_case_digits() {
    assert_eq!("00ff1a9c", to_hex(&[0x00, 0xff, 0x1a, 0x9c]));
    assert_eq!("", to_hex(&[]));
}

#[test]
fn from_hex_reads_either_case() {
    assert_eq!(vec![0x49, 0x27, 0xab, 0xcd], from_hex("4927abCD"));
    assert_eq!(Vec::<u8>::new(), from_hex(""));
}

#[test]
fn hex_round_trip() {
    let bytes: Vec<u8> = (0..=255u8).collect();
    assert_eq!(bytes, from_hex(&to_hex(&bytes)));
}
