use bid::{fnv1a_32, Bid, BidError, Generator};

#[test]
fn test_tagged() {
    let mut gen = Generator::new();
    let bid = Bid::tagged("usr", &mut gen).unwrap();
    assert!(!bid.is_nil());
    assert_ne!(bid.tag_hash(), 0);
    assert_eq!(bid.to_string().len(), 32);
}

#[test]
fn test_untagged() {
    let mut gen = Generator::new();
    let bid = Bid::new(&mut gen).unwrap();
    assert_eq!(bid.tag_hash(), 0);
    assert_eq!(bid.to_string().len(), 32);
}

#[test]
fn test_different_tags_produce_different_ids() {
    let mut gen = Generator::new();
    let a = Bid::tagged("usr", &mut gen).unwrap();
    let b = Bid::tagged("post", &mut gen).unwrap();
    // Tag hashes are definitely different
    assert_ne!(a.tag_hash(), b.tag_hash());
    // And therefore the Bids are different
    assert_ne!(a, b);
}

#[test]
fn test_tag_hash_is_deterministic() {
    assert_eq!(Bid::hash_tag("usr"), Bid::hash_tag("usr"));
    assert_ne!(Bid::hash_tag("usr"), Bid::hash_tag("post"));
}

#[test]
fn test_from_parts_and_accessors() {
    let hash = fnv1a_32(b"usr");
    let ts: u64 = 1_700_000_000_000;
    let random = [1, 2, 3, 4, 5, 6, 7, 8, 9, 10];
    let bid = Bid::from_parts(hash, ts, &random);

    assert_eq!(bid.tag_hash(), hash);
    assert_eq!(bid.timestamp_ms(), ts);
    assert_eq!(bid.random(), random);
}

#[test]
fn test_nil() {
    let bid = Bid::nil();
    assert!(bid.is_nil());
    assert_eq!(bid.tag_hash(), 0);
    assert_eq!(bid.timestamp_ms(), 0);
    assert_eq!(bid.to_string(), "00000000000000000000000000000000");
}

#[test]
fn test_tagged_display_format() {
    let mut gen = Generator::new();
    let bid = Bid::tagged("usr", &mut gen).unwrap();
    let tagged = format!("usr-{}", bid.to_string());
    assert!(tagged.starts_with("usr-"));
    assert_eq!(tagged.len(), 36); // "usr-" (4) + 32 base32
}

#[test]
fn test_parse_bare() {
    let mut gen = Generator::new();
    let bid = Bid::tagged("usr", &mut gen).unwrap();
    let s = bid.to_string();
    let parsed: Bid = s.parse().unwrap();
    assert_eq!(parsed, bid);
}

#[test]
fn test_parse_with_prefix() {
    let mut gen = Generator::new();
    let bid = Bid::tagged("usr", &mut gen).unwrap();
    let tagged = format!("usr-{}", bid.to_string());
    let parsed: Bid = tagged.parse().unwrap();
    assert_eq!(parsed, bid);
}

#[test]
fn test_parse_any_prefix() {
    let mut gen = Generator::new();
    let bid = Bid::tagged("usr", &mut gen).unwrap();
    let s = bid.to_string();
    let parsed: Bid = format!("anything-{s}").parse().unwrap();
    assert_eq!(parsed, bid);
}

#[test]
fn test_parse_case_insensitive() {
    let mut gen = Generator::new();
    let bid = Bid::tagged("usr", &mut gen).unwrap();
    let lower = bid.to_string().to_lowercase();
    let parsed: Bid = lower.parse().unwrap();
    assert_eq!(parsed, bid);
}

#[test]
fn test_parse_invalid() {
    assert!("tooshort".parse::<Bid>().is_err());
    assert!("".parse::<Bid>().is_err());
    assert!("usr-tooshort".parse::<Bid>().is_err());
}

#[test]
fn test_ord_groups_by_tag_hash() {
    // Different tag hashes sort by hash value
    let hash_a = Bid::hash_tag("aaa");
    let hash_b = Bid::hash_tag("bbb");

    let a = Bid::from_parts(hash_a, 2000, &[0; 10]);
    let b = Bid::from_parts(hash_b, 1000, &[0; 10]);

    // Sort by tag hash first, regardless of timestamp
    if hash_a < hash_b {
        assert!(a < b);
    } else {
        assert!(a > b);
    }
}

#[test]
fn test_ord_chronological_within_same_tag() {
    let hash = Bid::hash_tag("usr");
    let earlier = Bid::from_parts(hash, 1000, &[0; 10]);
    let later = Bid::from_parts(hash, 2000, &[0; 10]);
    assert!(earlier < later);
}

#[test]
fn test_bytes_roundtrip() {
    let mut gen = Generator::new();
    let bid = Bid::tagged("usr", &mut gen).unwrap();
    let bytes: [u8; 20] = bid.into();
    let back = Bid::from(bytes);
    assert_eq!(bid, back);
}

// ── Further cases ────────────────────────────────────────────────────

#[test]
fn fnv1a_known_values() {
    assert_eq!(fnv1a_32(b""), 0x811c_9dc5);
    assert_eq!(fnv1a_32(b"a"), 0xe40c_292c);
    assert_eq!(fnv1a_32(b"foobar"), 0xbf9c_f968);
    assert_eq!(Bid::hash_tag("foobar"), 0xbf9c_f968);
}

#[test]
fn from_parts_layout_is_big_endian() {
    let random = [10, 11, 12, 13, 14, 15, 16, 17, 18, 19];
    let bid = Bid::from_parts(0x0102_0304, 0x0506_0708_090A, &random);
    assert_eq!(
        bid.to_bytes(),
        [1, 2, 3, 4, 5, 6, 7, 8, 9, 10, 10, 11, 12, 13, 14, 15, 16, 17, 18, 19]
    );
    assert_eq!(bid.as_bytes(), &bid.to_bytes());
    let as_ref: &[u8] = bid.as_ref();
    assert_eq!(as_ref.len(), 20);
}

#[test]
fn from_parts_keeps_low_48_bits_of_timestamp() {
    let bid = Bid::from_parts(7, 0xABCD_0000_0000_0001, &[0; 10]);
    assert_eq!(bid.timestamp_ms(), 1);
    assert_eq!(bid.tag_hash(), 7);
}

#[test]
fn nil_is_only_all_zero() {
    assert!(!Bid::from_parts(0, 0, &[0, 0, 0, 0, 0, 0, 0, 0, 0, 1]).is_nil());
    assert!(Bid::from_parts(0, 0, &[0; 10]).is_nil());
}

#[test]
fn to_string_of_known_bytes() {
    let bid = Bid::from([0xFF; 20]);
    assert_eq!(bid.to_string(), "ZZZZZZZZZZZZZZZZZZZZZZZZZZZZZZZZ");
    let one = Bid::from_parts(0, 0, &[0, 0, 0, 0, 0, 0, 0, 0, 0, 1]);
    assert_eq!(one.to_string(), "00000000000000000000000000000001");
}

#[test]
fn parse_reports_length_of_the_id_part() {
    match Bid::parse_str("usr-tooshort") {
        Err(BidError::InvalidLength(n)) => assert_eq!(n, 8),
        other => panic!("unexpected {:?}", other),
    }
    match Bid::parse_str("") {
        Err(BidError::InvalidLength(n)) => assert_eq!(n, 0),
        other => panic!("unexpected {:?}", other),
    }
    // Only the first '-' ends the prefix.
    let s = format!("a-b-{}", Bid::nil().to_string());
    match Bid::parse_str(&s) {
        Err(BidError::InvalidLength(n)) => assert_eq!(n, 34),
        other => panic!("unexpected {:?}", other),
    }
}

#[test]
fn parse_reports_bad_character() {
    let s = "0000000000000000000000000000000U";
    match Bid::parse_str(s) {
        Err(BidError::InvalidString(m)) => assert_eq!(m, "invalid character 'U' at position 31"),
        other => panic!("unexpected {:?}", other),
    }
    let s = "usr-00000000000I000000000000000000";
    match Bid::parse_str(s) {
        Err(BidError::InvalidLength(n)) => assert_eq!(n, 30),
        other => panic!("unexpected {:?}", other),
    }
    let s = "usr-00000000000I00000000000000000000";
    match Bid::parse_str(s) {
        Err(BidError::InvalidString(m)) => assert_eq!(m, "invalid character 'I' at position 11"),
        other => panic!("unexpected {:?}", other),
    }
}

#[test]
fn parse_reports_non_ascii_byte() {
    // "é" is two bytes, so 30 ASCII characters and it make 32 bytes.
    let s = "é000000000000000000000000000000";
    assert_eq!(s.len(), 32);
    match Bid::parse_str(s) {
        Err(BidError::InvalidString(m)) => assert_eq!(m, "non-ASCII byte at position 0"),
        other => panic!("unexpected {:?}", other),
    }
}

#[test]
fn parse_known_text() {
    let bid: Bid = "usr-zzzzzzzzzzzzzzzzzzzzzzzzzzzzzzzz".parse().unwrap();
    assert_eq!(bid.to_bytes(), [0xFF; 20]);
}

#[test]
fn tagged_puts_hash_in_front() {
    let mut gen = Generator::new();
    let bid = Bid::tagged("post", &mut gen).unwrap();
    assert_eq!(bid.tag_hash(), Bid::hash_tag("post"));
    assert_eq!(bid.tag_hash(), fnv1a_32(b"post"));
}
