use bid::generator::{current_timestamp_ms, generate, increment_random, timestamp_from_millis};
use bid::{Bid, BidError, Generator};

#[test]
fn test_generate_returns_ok() {
    let mut gen = Generator::new();
    let bid = generate(&mut gen).unwrap();
    assert!(!bid.is_nil());
}

#[test]
fn test_monotonic_ordering() {
    let mut gen = Generator::new();
    let mut prev = generate(&mut gen).unwrap();
    for _ in 0..1000 {
        let next = generate(&mut gen).unwrap();
        assert!(next > prev, "IDs must be strictly increasing");
        prev = next;
    }
}

#[test]
fn test_timestamp_is_reasonable() {
    let mut gen = Generator::new();
    let bid = generate(&mut gen).unwrap();
    let ms = bid.timestamp_ms();
    assert!(ms > 1_704_067_200_000);
    assert!(ms < 4_102_444_800_000);
}

#[test]
fn test_increment_random() {
    let mut r = [0u8; 10];
    increment_random(&mut r).unwrap();
    assert_eq!(r, [0, 0, 0, 0, 0, 0, 0, 0, 0, 1]);

    let mut r = [0, 0, 0, 0, 0, 0, 0, 0, 0, 0xFF];
    increment_random(&mut r).unwrap();
    assert_eq!(r, [0, 0, 0, 0, 0, 0, 0, 0, 1, 0]);
}

#[test]
fn test_increment_random_overflow() {
    let mut r = [0xFF; 10];
    assert!(increment_random(&mut r).is_err());
}

// ── Further cases ────────────────────────────────────────────────────

#[test]
fn increment_carries_through_several_bytes() {
    let mut r = [0, 0, 0, 0, 0, 7, 0xFF, 0xFF, 0xFF, 0xFF];
    increment_random(&mut r).unwrap();
    assert_eq!(r, [0, 0, 0, 0, 0, 8, 0, 0, 0, 0]);
}

#[test]
fn increment_overflow_wraps_to_zero() {
    let mut r = [0xFF; 10];
    assert!(matches!(increment_random(&mut r), Err(BidError::MonotonicOverflow)));
    assert_eq!(r, [0; 10]);
}

#[test]
fn advance_takes_fresh_random_on_a_later_millisecond() {
    let mut gen = Generator::new();
    let fresh = [9, 8, 7, 6, 5, 4, 3, 2, 1, 0];
    let bid = gen.advance(1_000, fresh).unwrap();
    assert_eq!(bid, Bid::from_parts(0, 1_000, &fresh));
}

#[test]
fn advance_increments_within_a_millisecond() {
    let mut gen = Generator::new();
    let first = gen.advance(1_000, [0, 0, 0, 0, 0, 0, 0, 0, 0, 0xFE]).unwrap();
    let second = gen.advance(1_000, [0xAA; 10]).unwrap();
    let third = gen.advance(1_000, [0xAA; 10]).unwrap();
    assert_eq!(second, Bid::from_parts(0, 1_000, &[0, 0, 0, 0, 0, 0, 0, 0, 0, 0xFF]));
    assert_eq!(third, Bid::from_parts(0, 1_000, &[0, 0, 0, 0, 0, 0, 0, 0, 1, 0]));
    assert!(first < second && second < third);
}

#[test]
fn advance_keeps_last_millisecond_when_clock_goes_back() {
    let mut gen = Generator::new();
    gen.advance(5_000, [0; 10]).unwrap();
    let bid = gen.advance(4_000, [0x11; 10]).unwrap();
    assert_eq!(bid.timestamp_ms(), 5_000);
    assert_eq!(bid.random(), [0, 0, 0, 0, 0, 0, 0, 0, 0, 1]);
}

#[test]
fn advance_overflows_within_a_millisecond() {
    let mut gen = Generator::new();
    let first = gen.advance(5_000, [0xFF; 10]).unwrap();
    assert!(matches!(gen.advance(5_000, [0; 10]), Err(BidError::MonotonicOverflow)));
    // The generator is unchanged, so it keeps failing within that millisecond
    // and when the clock goes back.
    assert!(matches!(gen.advance(5_000, [0; 10]), Err(BidError::MonotonicOverflow)));
    assert!(matches!(gen.advance(4_000, [0; 10]), Err(BidError::MonotonicOverflow)));
    // Once the clock moves on, identifiers resume, above the earlier ones.
    let next = gen.advance(5_001, [0; 10]).unwrap();
    assert_eq!(next, Bid::from_parts(0, 5_001, &[0; 10]));
    assert!(first < next);
}

#[test]
fn timestamp_from_millis_cuts_to_64_bits() {
    assert_eq!(timestamp_from_millis(Some(1_700_000_000_123)), Some(1_700_000_000_123));
    assert_eq!(timestamp_from_millis(Some((1u128 << 64) + 7)), Some(7));
    assert_eq!(timestamp_from_millis(None), None);
}

#[test]
fn clock_reads_the_present() {
    let (reading, _) = current_timestamp_ms();
    let ms = reading.unwrap();
    assert!(ms > 1_704_067_200_000);
    assert!(ms < 4_102_444_800_000);
}

#[test]
fn fresh_generators_draw_random_bytes() {
    let mut g1 = Generator::new();
    let mut g2 = Generator::new();
    let a = generate(&mut g1).unwrap();
    let b = generate(&mut g2).unwrap();
    // 80 random bits: equal components, or all-zero ones, would mean no randomness was drawn.
    assert_ne!(a.random(), b.random());
    assert_ne!(a.random(), [0; 10]);
}
