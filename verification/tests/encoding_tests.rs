use bid::encoding::{decode, decode_symbol, encode, encode_symbol};
use bid::BidError;

#[test]
fn test_encode_zeros() {
    let bytes = [0u8; 20];
    let encoded = encode(&bytes);
    assert_eq!(&encoded, b"00000000000000000000000000000000");
}

#[test]
fn test_encode_max() {
    let bytes = [0xFF; 20];
    let encoded = encode(&bytes);
    assert_eq!(&encoded, b"ZZZZZZZZZZZZZZZZZZZZZZZZZZZZZZZZ");
}

#[test]
fn test_roundtrip() {
    let bytes: [u8; 20] = [
        0x01, 0x86, 0xA0, 0x7B, 0x12, 0x34, 0x56, 0x78, 0x9A, 0xBC, 0xDE, 0xF0, 0x12, 0x34, 0x56,
        0x78, 0x9A, 0xBC, 0xDE, 0xF0,
    ];
    let encoded = encode(&bytes);
    let decoded = decode(&encoded).unwrap();
    assert_eq!(decoded, bytes);
}

#[test]
fn test_case_insensitive_decode() {
    let bytes: [u8; 20] = [
        0x01, 0x86, 0xA0, 0x7B, 0x12, 0x34, 0x56, 0x78, 0x9A, 0xBC, 0xDE, 0xF0, 0x12, 0x34, 0x56,
        0x78, 0x9A, 0xBC, 0xDE, 0xF0,
    ];
    let encoded = encode(&bytes);
    let lower: [u8; 32] = encoded.map(|b| b.to_ascii_lowercase());
    let decoded = decode(&lower).unwrap();
    assert_eq!(decoded, bytes);
}

#[test]
fn test_invalid_character() {
    let mut input = [b'0'; 32];
    input[31] = b'I';
    assert!(decode(&input).is_err());

    input[31] = b'L';
    assert!(decode(&input).is_err());

    input[31] = b'O';
    assert!(decode(&input).is_err());

    input[31] = b'U';
    assert!(decode(&input).is_err());
}

#[test]
fn test_all_characters_encode_decode() {
    let alphabet = b"0123456789ABCDEFGHJKMNPQRSTVWXYZ";
    for (i, &ch) in alphabet.iter().enumerate() {
        assert_eq!(encode_symbol(i as u8), ch);
        let bits = decode_symbol(ch);
        assert_eq!(bits, Some(i as u8), "mismatch for character '{}'", ch as char);
    }
}

#[test]
fn test_lexicographic_order_matches_byte_order() {
    let mut a = [0u8; 20];
    let mut b = [0u8; 20];
    a[0] = 0x01;
    b[0] = 0x02;

    let ea = encode(&a);
    let eb = encode(&b);
    assert!(ea < eb, "encoded order must match byte order");
}

// ── Further cases ────────────────────────────────────────────────────

#[test]
fn encode_known_value() {
    let bytes: [u8; 20] = [
        0x01, 0x86, 0xA0, 0x7B, 0x12, 0x34, 0x56, 0x78, 0x9A, 0xBC, 0xDE, 0xF0, 0x12, 0x34, 0x56,
        0x78, 0x9A, 0xBC, 0xDE, 0xF0,
    ];
    // 0x0186A07B12 = 0b00000 00110 00011 01010 00000 11110 11000 10010
    assert_eq!(&encode(&bytes)[0..8], b"063A0YRJ");
}

#[test]
fn encode_order_in_a_later_group() {
    let mut a = [0u8; 20];
    let mut b = [0u8; 20];
    a[19] = 0x01;
    b[13] = 0x01;
    assert!(encode(&a) < encode(&b));
}

#[test]
fn decode_symbol_rejects_and_folds() {
    for ch in [b'I', b'L', b'O', b'U', b'i', b'l', b'o', b'u', b'-', b' ', 0x7F, 0x80, 0xFF] {
        assert_eq!(decode_symbol(ch), None);
    }
    assert_eq!(decode_symbol(b'z'), Some(31));
    assert_eq!(decode_symbol(b'h'), Some(17));
    assert_eq!(decode_symbol(b'j'), Some(18));
}

#[test]
fn decode_reports_first_bad_position() {
    let mut input = [b'0'; 32];
    input[20] = b'u';
    input[5] = 0xC3;
    match decode(&input) {
        Err(BidError::InvalidString(m)) => assert_eq!(m, "non-ASCII byte at position 5"),
        other => panic!("unexpected {:?}", other),
    }
    input[5] = b'0';
    match decode(&input) {
        Err(BidError::InvalidString(m)) => assert_eq!(m, "invalid character 'u' at position 20"),
        other => panic!("unexpected {:?}", other),
    }
}

#[test]
fn decode_mixed_case() {
    let upper = encode(&[0xA5; 20]);
    let mut mixed = upper;
    for i in (0..32).step_by(2) {
        mixed[i] = mixed[i].to_ascii_lowercase();
    }
    assert_eq!(decode(&mixed).unwrap(), [0xA5; 20]);
}
