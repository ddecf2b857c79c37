//! Crockford Base32 for 160-bit values: 20 bytes become 32 characters.
//!
//! The bytes are read as four 40-bit big-endian groups of five bytes; each
//! group gives eight 5-bit digits, most significant first, and each digit is
//! written with the alphabet `0123456789ABCDEFGHJKMNPQRSTVWXYZ` (no I, L, O
//! or U). Decoding accepts either case.

use crate::bytes::{be_value, differs_first_at, lemma_be_value_bound, lemma_be_value_concat, lex_lt};
use vstd::arithmetic::div_mod::{
    lemma_div_denominator,
    lemma_fundamental_div_mod_converse_div,
    lemma_hoist_over_denominator,
    lemma_mod_multiples_vanish,
};
use vstd::arithmetic::power2::{lemma_pow2_adds, lemma_pow2_pos, lemma2_to64, pow2};
use vstd::bits::lemma_u64_shr_is_div;
use crate::error::BidError;
use crate::text::{decimal, push_char, push_decimal};
use vstd::prelude::*;

verus! {

/// The alphabet symbol (an ASCII byte) of a 5-bit digit:
/// `0123456789ABCDEFGHJKMNPQRSTVWXYZ` read left to right.
pub open spec fn symbol(v: u8) -> u8 {
    if v < 10 {
        (v + 48) as u8
    } else if v < 18 {
        (v + 55) as u8
    } else if v < 20 {
        (v + 56) as u8
    } else if v < 22 {
        (v + 57) as u8
    } else if v < 27 {
        (v + 58) as u8
    } else {
        (v + 59) as u8
    }
}

/// An ASCII letter folded to upper case; other bytes are left alone.
pub open spec fn ascii_upper(b: u8) -> u8 {
    if 97 <= b <= 122 {
        (b - 32) as u8
    } else {
        b
    }
}

/// An ASCII letter folded to lower case; other bytes are left alone.
pub open spec fn ascii_lower(b: u8) -> u8 {
    if 65 <= b <= 90 {
        (b + 32) as u8
    } else {
        b
    }
}

/// The digit that an ASCII byte stands for, in either case, or `None` for a
/// byte outside the alphabet.
pub open spec fn symbol_value(b: u8) -> Option<u8> {
    let u = ascii_upper(b);
    if 48 <= u <= 57 {
        Some((u - 48) as u8)
    } else if 65 <= u <= 72 {
        Some((u - 55) as u8)
    } else if u == 74 || u == 75 {
        Some((u - 56) as u8)
    } else if u == 77 || u == 78 {
        Some((u - 57) as u8)
    } else if 80 <= u <= 84 {
        Some((u - 58) as u8)
    } else if 86 <= u <= 90 {
        Some((u - 59) as u8)
    } else {
        None
    }
}

/// The 40-bit big-endian value of bytes `5g .. 5g + 5`.
pub open spec fn group_value(b: Seq<u8>, g: int) -> u64 {
    ((b[5 * g] as u64) << 32u64) | ((b[5 * g + 1] as u64) << 24u64) | ((b[5 * g + 2] as u64)
        << 16u64) | ((b[5 * g + 3] as u64) << 8u64) | (b[5 * g + 4] as u64)
}

/// The shift of digit `j` (0 is the most significant) within a 40-bit group.
pub open spec fn digit_shift(j: int) -> u64 {
    (35 - 5 * j) as u64
}

/// The 5-bit digit at position `i` of the 32 that 20 bytes make.
pub open spec fn digit(b: Seq<u8>, i: int) -> u8 {
    ((group_value(b, i / 8) >> digit_shift(i % 8)) & 0x1Fu64) as u8
}

/// The 32 characters that encode 20 bytes.
pub open spec fn spec_encode(b: Seq<u8>) -> Seq<u8> {
    Seq::new(32, |i: int| symbol(digit(b, i)))
}

/// Digit `i` (0 the most significant) of the 160-bit number that 20 bytes
/// denote (big-endian), written with 32 base-32 digits.
pub open spec fn number_digit(b: Seq<u8>, i: int) -> nat {
    (be_value(b) / pow2((5 * (31 - i)) as nat)) % 32
}

/// Whether a byte is accepted by the decoder.
pub open spec fn is_valid_symbol(b: u8) -> bool {
    b < 128 && symbol_value(b) is Some
}

/// `p` is the first position of `input` that holds a rejected byte.
pub open spec fn first_bad(input: Seq<u8>, p: int) -> bool {
    &&& 0 <= p < input.len()
    &&& !is_valid_symbol(input[p])
    &&& forall|j: int| 0 <= j < p ==> is_valid_symbol(#[trigger] input[j])
}

/// The digit of an accepted byte.
pub open spec fn value_of(b: u8) -> u64 {
    symbol_value(b)->0 as u64
}

/// The 40-bit value that characters `8g .. 8g + 8` spell.
pub open spec fn spelled_group(c: Seq<u8>, g: int) -> u64 {
    (value_of(c[8 * g]) << 35u64) | (value_of(c[8 * g + 1]) << 30u64) | (value_of(c[8 * g + 2])
        << 25u64) | (value_of(c[8 * g + 3]) << 20u64) | (value_of(c[8 * g + 4]) << 15u64) | (
    value_of(c[8 * g + 5]) << 10u64) | (value_of(c[8 * g + 6]) << 5u64) | value_of(c[8 * g + 7])
}

/// The 20 bytes that 32 accepted characters decode to.
pub open spec fn decoded_bytes(c: Seq<u8>) -> Seq<u8> {
    Seq::new(20, |k: int| (spelled_group(c, k / 5) >> ((32 - 8 * (k % 5)) as u64)) as u8)
}

/// What decoding 32 characters gives: the bytes, or the first rejected position.
pub open spec fn spec_decode(c: Seq<u8>) -> Result<Seq<u8>, int> {
    if forall|i: int| 0 <= i < c.len() ==> is_valid_symbol(#[trigger] c[i]) {
        Ok(decoded_bytes(c))
    } else {
        Err(choose|p: int| first_bad(c, p))
    }
}

/// The message that reports the rejected byte at position `p`.
pub open spec fn bad_symbol_message(c: Seq<u8>, p: int) -> Seq<char> {
    if c[p] >= 128 {
        "non-ASCII byte at position "@ + decimal(p as nat)
    } else {
        "invalid character '"@ + seq![c[p] as char] + "' at position "@ + decimal(p as nat)
    }
}

/// The alphabet symbol of a 5-bit digit.
pub fn encode_symbol(v: u8) -> (c: u8)
    requires
        v < 32,
    ensures
        c == symbol(v),
{
    if v < 10 {
        v + 48
    } else if v < 18 {
        v + 55
    } else if v < 20 {
        v + 56
    } else if v < 22 {
        v + 57
    } else if v < 27 {
        v + 58
    } else {
        v + 59
    }
}

/// The digit that a byte stands for, in either case, or `None` outside the alphabet.
pub fn decode_symbol(b: u8) -> (r: Option<u8>)
    ensures
        r == symbol_value(b),
{
    let u = if 97 <= b && b <= 122 {
        b - 32
    } else {
        b
    };
    if 48 <= u && u <= 57 {
        Some(u - 48)
    } else if 65 <= u && u <= 72 {
        Some(u - 55)
    } else if u == 74 || u == 75 {
        Some(u - 56)
    } else if u == 77 || u == 78 {
        Some(u - 57)
    } else if 80 <= u && u <= 84 {
        Some(u - 58)
    } else if 86 <= u && u <= 90 {
        Some(u - 59)
    } else {
        None
    }
}

/// Encode 20 bytes (160 bits) as 32 Crockford Base32 characters.
pub fn encode(bytes: &[u8; 20]) -> (out: [u8; 32])
    ensures
        out@ == spec_encode(bytes@),
{
    let mut out = [0u8; 32];
    let mut group: usize = 0;
    while group < 4
        invariant
            group <= 4,
            out@.len() == 32,
            forall|i: int| 0 <= i < 8 * group ==> out@[i] == symbol(digit(bytes@, i)),
        decreases 4 - group,
    {
        let base = group * 5;
        let b0 = bytes[base] as u64;
        let b1 = bytes[base + 1] as u64;
        let b2 = bytes[base + 2] as u64;
        let b3 = bytes[base + 3] as u64;
        let b4 = bytes[base + 4] as u64;
        let val = (b0 << 32u64) | (b1 << 24u64) | (b2 << 16u64) | (b3 << 8u64) | b4;
        assert(val == group_value(bytes@, group as int));
        let ghost before = out@;
        let out_base = group * 8;
        proof {
            lemma_digits_small(val);
        }
        out[out_base] = encode_symbol(((val >> 35u64) & 0x1F) as u8);
        out[out_base + 1] = encode_symbol(((val >> 30u64) & 0x1F) as u8);
        out[out_base + 2] = encode_symbol(((val >> 25u64) & 0x1F) as u8);
        out[out_base + 3] = encode_symbol(((val >> 20u64) & 0x1F) as u8);
        out[out_base + 4] = encode_symbol(((val >> 15u64) & 0x1F) as u8);
        out[out_base + 5] = encode_symbol(((val >> 10u64) & 0x1F) as u8);
        out[out_base + 6] = encode_symbol(((val >> 5u64) & 0x1F) as u8);
        out[out_base + 7] = encode_symbol((val & 0x1F) as u8);
        assert forall|i: int| 0 <= i < 8 * (group + 1) implies out@[i] == symbol(
            digit(bytes@, i),
        ) by {
            if i >= 8 * group {
                let j = i - 8 * group;
                assert(i / 8 == group as int);
                assert(i % 8 == j);
                assert(val & 0x1Fu64 == (val >> 0u64) & 0x1Fu64) by (bit_vector);
            } else {
                assert(out@[i] == before[i]);
            }
        }
        group = group + 1;
    }
    assert(out@ =~= spec_encode(bytes@));
    out
}

/// Every digit of a value is below 32.
proof fn lemma_digits_small(val: u64)
    ensures
        (val >> 35u64) & 0x1F < 32,
        (val >> 30u64) & 0x1F < 32,
        (val >> 25u64) & 0x1F < 32,
        (val >> 20u64) & 0x1F < 32,
        (val >> 15u64) & 0x1F < 32,
        (val >> 10u64) & 0x1F < 32,
        (val >> 5u64) & 0x1F < 32,
        val & 0x1F < 32,
{
    assert((val >> 35u64) & 0x1F < 32) by (bit_vector);
    assert((val >> 30u64) & 0x1F < 32) by (bit_vector);
    assert((val >> 25u64) & 0x1F < 32) by (bit_vector);
    assert((val >> 20u64) & 0x1F < 32) by (bit_vector);
    assert((val >> 15u64) & 0x1F < 32) by (bit_vector);
    assert((val >> 10u64) & 0x1F < 32) by (bit_vector);
    assert((val >> 5u64) & 0x1F < 32) by (bit_vector);
    assert(val & 0x1F < 32) by (bit_vector);
}

/// The rejected position of a string, if it has one, is unique.
pub proof fn lemma_first_bad_unique(c: Seq<u8>, p: int, q: int)
    requires
        first_bad(c, p),
        first_bad(c, q),
    ensures
        p == q,
{
    if p < q {
        assert(is_valid_symbol(c[p]));
    } else if q < p {
        assert(is_valid_symbol(c[q]));
    }
}

/// Decoding fails exactly at the first rejected position.
pub proof fn lemma_decode_fails_at_first_bad(c: Seq<u8>, p: int)
    requires
        first_bad(c, p),
    ensures
        spec_decode(c) == Err::<Seq<u8>, int>(p),
{
    let q = choose|q: int| first_bad(c, q);
    lemma_first_bad_unique(c, p, q);
}

/// Reads the character at `pos` as a 5-bit digit, or reports why it cannot be one.
fn symbol_bits(input: &[u8; 32], pos: usize) -> (r: Result<u64, BidError>)
    requires
        pos < 32,
        forall|j: int| 0 <= j < pos ==> is_valid_symbol(#[trigger] input@[j]),
    ensures
        match r {
            Ok(v) => is_valid_symbol(input@[pos as int]) && v == value_of(input@[pos as int]) && v < 32,
            Err(e) => {
                &&& first_bad(input@, pos as int)
                &&& spec_decode(input@) == Err::<Seq<u8>, int>(pos as int)
                &&& e matches BidError::InvalidString(m)
                &&& m@ == bad_symbol_message(input@, pos as int)
            },
        },
{
    let byte = input[pos];
    if byte >= 128 {
        let mut m = String::new();
        m.append("non-ASCII byte at position ");
        push_decimal(&mut m, pos);
        proof {
            lemma_decode_fails_at_first_bad(input@, pos as int);
        }
        return Err(BidError::InvalidString(m));
    }
    match decode_symbol(byte) {
        Some(bits) => {
            assert(bits < 32) by {
                reveal_with_fuel(symbol_value, 1);
            }
            Ok(bits as u64)
        },
        None => {
            let mut m = String::new();
            m.append("invalid character '");
            push_char(&mut m, byte as char);
            m.append("' at position ");
            push_decimal(&mut m, pos);
            proof {
                lemma_decode_fails_at_first_bad(input@, pos as int);
            }
            Err(BidError::InvalidString(m))
        },
    }
}

/// Decode 32 Crockford Base32 characters to 20 bytes; either case is accepted.
pub fn decode(input: &[u8; 32]) -> (r: Result<[u8; 20], BidError>)
    ensures
        r is Ok <==> spec_decode(input@) is Ok,
        match r {
            Ok(out) => spec_decode(input@) == Ok::<Seq<u8>, int>(out@),
            Err(e) => {
                &&& spec_decode(input@) matches Err(p)
                &&& e matches BidError::InvalidString(m)
                &&& m@ == bad_symbol_message(input@, p)
            },
        },
{
    let mut out = [0u8; 20];
    let mut group: usize = 0;
    while group < 4
        invariant
            group <= 4,
            out@.len() == 20,
            forall|j: int| 0 <= j < 8 * group ==> is_valid_symbol(#[trigger] input@[j]),
            forall|k: int| 0 <= k < 5 * group ==> out@[k] == decoded_bytes(input@)[k],
        decreases 4 - group,
    {
        let base = group * 8;
        let v0 = symbol_bits(input, base)?;
        let v1 = symbol_bits(input, base + 1)?;
        let v2 = symbol_bits(input, base + 2)?;
        let v3 = symbol_bits(input, base + 3)?;
        let v4 = symbol_bits(input, base + 4)?;
        let v5 = symbol_bits(input, base + 5)?;
        let v6 = symbol_bits(input, base + 6)?;
        let v7 = symbol_bits(input, base + 7)?;
        let val = (v0 << 35u64) | (v1 << 30u64) | (v2 << 25u64) | (v3 << 20u64) | (v4 << 15u64) | (
        v5 << 10u64) | (v6 << 5u64) | v7;
        assert(val == spelled_group(input@, group as int));
        let ghost before = out@;
        let out_base = group * 5;
        out[out_base] = (val >> 32u64) as u8;
        out[out_base + 1] = (val >> 24u64) as u8;
        out[out_base + 2] = (val >> 16u64) as u8;
        out[out_base + 3] = (val >> 8u64) as u8;
        out[out_base + 4] = val as u8;
        assert forall|k: int| 0 <= k < 5 * (group + 1) implies out@[k] == decoded_bytes(
            input@,
        )[k] by {
            if k >= 5 * group {
                assert(k / 5 == group as int);
                assert(val == (val >> 0u64)) by (bit_vector);
            } else {
                assert(out@[k] == before[k]);
            }
        }
        group = group + 1;
    }
    assert(out@ =~= decoded_bytes(input@));
    Ok(out)
}

// ── Laws ─────────────────────────────────────────────────────────────

/// The symbol of each digit decodes back to that digit, and is upper case.
pub proof fn lemma_symbol_decodes(v: u8)
    requires
        v < 32,
    ensures
        symbol_value(symbol(v)) == Some(v),
        is_valid_symbol(symbol(v)),
        ascii_upper(symbol(v)) == symbol(v),
{
}

/// An accepted byte is, up to case, the symbol of its digit.
pub proof fn lemma_value_symbol(b: u8)
    requires
        symbol_value(b) is Some,
    ensures
        symbol_value(b)->0 < 32,
        symbol(symbol_value(b)->0) == ascii_upper(b),
{
}

/// The alphabet is in ascending byte order.
pub proof fn lemma_symbol_ascending(u: u8, v: u8)
    requires
        u < v < 32,
    ensures
        symbol(u) < symbol(v),
{
}

/// Folding case changes neither whether a byte is accepted nor its digit.
pub proof fn lemma_symbol_case_fold(b: u8)
    ensures
        symbol_value(ascii_lower(b)) == symbol_value(b),
        symbol_value(ascii_upper(b)) == symbol_value(b),
        is_valid_symbol(ascii_lower(b)) == is_valid_symbol(b),
        is_valid_symbol(ascii_upper(b)) == is_valid_symbol(b),
{
}

/// A masked 5-bit digit is below 32 and survives a round trip through `u8`.
proof fn lemma_digit_fits(x: u64, s: u64)
    by (bit_vector)
    ensures
        (x >> s) & 0x1Fu64 < 32,
        ((((x >> s) & 0x1Fu64) as u8) as u64) == (x >> s) & 0x1Fu64,
{
}

/// Splitting five bytes into eight 5-bit digits and joining them again gives
/// the five bytes back.
proof fn lemma_group_bytes_round_trip(b0: u8, b1: u8, b2: u8, b3: u8, b4: u8, x: u64, y: u64)
    by (bit_vector)
    requires
        x == ((b0 as u64) << 32u64) | ((b1 as u64) << 24u64) | ((b2 as u64) << 16u64) | ((b3 as u64)
            << 8u64) | (b4 as u64),
        y == (((x >> 35u64) & 0x1Fu64) << 35u64) | (((x >> 30u64) & 0x1Fu64) << 30u64) | (((x
            >> 25u64) & 0x1Fu64) << 25u64) | (((x >> 20u64) & 0x1Fu64) << 20u64) | (((x >> 15u64)
            & 0x1Fu64) << 15u64) | (((x >> 10u64) & 0x1Fu64) << 10u64) | (((x >> 5u64) & 0x1Fu64)
            << 5u64) | ((x >> 0u64) & 0x1Fu64),
    ensures
        ((y >> 32u64) as u8) == b0,
        ((y >> 24u64) as u8) == b1,
        ((y >> 16u64) as u8) == b2,
        ((y >> 8u64) as u8) == b3,
        ((y >> 0u64) as u8) == b4,
{
}

/// Joining eight 5-bit digits into five bytes and splitting them again gives
/// the eight digits back.
proof fn lemma_group_digits_round_trip(
    d0: u64,
    d1: u64,
    d2: u64,
    d3: u64,
    d4: u64,
    d5: u64,
    d6: u64,
    d7: u64,
    y: u64,
    x: u64,
)
    by (bit_vector)
    requires
        d0 < 32,
        d1 < 32,
        d2 < 32,
        d3 < 32,
        d4 < 32,
        d5 < 32,
        d6 < 32,
        d7 < 32,
        y == (d0 << 35u64) | (d1 << 30u64) | (d2 << 25u64) | (d3 << 20u64) | (d4 << 15u64) | (d5
            << 10u64) | (d6 << 5u64) | d7,
        x == ((((y >> 32u64) as u8) as u64) << 32u64) | ((((y >> 24u64) as u8) as u64) << 24u64) | ((((y
            >> 16u64) as u8) as u64) << 16u64) | ((((y >> 8u64) as u8) as u64) << 8u64) | (((y
            >> 0u64) as u8) as u64),
    ensures
        (x >> 35u64) & 0x1Fu64 == d0,
        (x >> 30u64) & 0x1Fu64 == d1,
        (x >> 25u64) & 0x1Fu64 == d2,
        (x >> 20u64) & 0x1Fu64 == d3,
        (x >> 15u64) & 0x1Fu64 == d4,
        (x >> 10u64) & 0x1Fu64 == d5,
        (x >> 5u64) & 0x1Fu64 == d6,
        (x >> 0u64) & 0x1Fu64 == d7,
{
}

/// Character `8g + j` of an encoding spells digit `j` of group `g`.
proof fn lemma_encoded_digit(b: Seq<u8>, g: int, j: int)
    requires
        b.len() == 20,
        0 <= g < 4,
        0 <= j < 8,
    ensures
        value_of(spec_encode(b)[8 * g + j]) == (group_value(b, g) >> digit_shift(j)) & 0x1Fu64,
{
    assert((8 * g + j) / 8 == g);
    assert((8 * g + j) % 8 == j);
    lemma_digit_fits(group_value(b, g), digit_shift(j));
    lemma_symbol_decodes(digit(b, 8 * g + j));
}

/// Group `g` of the bytes comes back unchanged from decoding their encoding.
proof fn lemma_group_decodes(b: Seq<u8>, g: int)
    requires
        b.len() == 20,
        0 <= g < 4,
    ensures
        forall|r: int|
            0 <= r < 5 ==> #[trigger] decoded_bytes(spec_encode(b))[5 * g + r] == b[5 * g + r],
{
    let c = spec_encode(b);
    let x = group_value(b, g);
    lemma_encoded_digit(b, g, 0);
    lemma_encoded_digit(b, g, 1);
    lemma_encoded_digit(b, g, 2);
    lemma_encoded_digit(b, g, 3);
    lemma_encoded_digit(b, g, 4);
    lemma_encoded_digit(b, g, 5);
    lemma_encoded_digit(b, g, 6);
    lemma_encoded_digit(b, g, 7);
    assert(c[8 * g + 0] == c[8 * g]);
    let y = spelled_group(c, g);
    lemma_group_bytes_round_trip(b[5 * g], b[5 * g + 1], b[5 * g + 2], b[5 * g + 3], b[5 * g + 4], x, y);
    assert forall|r: int| 0 <= r < 5 implies #[trigger] decoded_bytes(c)[5 * g + r] == b[5 * g + r] by {
        assert((5 * g + r) / 5 == g);
        assert((5 * g + r) % 5 == r);
    }
}

/// Decoding an encoding gives the bytes back.
pub proof fn lemma_decode_encode(b: Seq<u8>)
    requires
        b.len() == 20,
    ensures
        spec_decode(spec_encode(b)) == Ok::<Seq<u8>, int>(b),
{
    let c = spec_encode(b);
    assert forall|i: int| 0 <= i < c.len() implies is_valid_symbol(#[trigger] c[i]) by {
        lemma_digit_fits(group_value(b, i / 8), digit_shift(i % 8));
        lemma_symbol_decodes(digit(b, i));
    }
    lemma_group_decodes(b, 0);
    lemma_group_decodes(b, 1);
    lemma_group_decodes(b, 2);
    lemma_group_decodes(b, 3);
    assert forall|k: int| 0 <= k < 20 implies decoded_bytes(c)[k] == b[k] by {
        let g = k / 5;
        let r = k % 5;
        assert(k == 5 * g + r);
    }
    assert(decoded_bytes(c) =~= b);
}

/// Every character of an encoding is an upper-case alphabet symbol.
pub proof fn lemma_encode_upper_case(b: Seq<u8>)
    ensures
        forall|i: int|
            0 <= i < 32 ==> is_valid_symbol(#[trigger] spec_encode(b)[i]) && ascii_upper(
                spec_encode(b)[i],
            ) == spec_encode(b)[i],
{
    assert forall|i: int| 0 <= i < 32 implies is_valid_symbol(#[trigger] spec_encode(b)[i])
        && ascii_upper(spec_encode(b)[i]) == spec_encode(b)[i] by {
        lemma_digit_fits(group_value(b, i / 8), digit_shift(i % 8));
        lemma_symbol_decodes(digit(b, i));
    }
}

/// Decoding ignores case: folding every letter of the input to lower (or
/// upper) case decodes to the same bytes, or fails at the same position.
pub proof fn lemma_decode_ignores_case(c: Seq<u8>)
    requires
        c.len() == 32,
    ensures
        spec_decode(c.map_values(|b: u8| ascii_lower(b))) == spec_decode(c),
        spec_decode(c.map_values(|b: u8| ascii_upper(b))) == spec_decode(c),
{
    let lower = c.map_values(|b: u8| ascii_lower(b));
    let upper = c.map_values(|b: u8| ascii_upper(b));
    assert forall|i: int| 0 <= i < c.len() implies symbol_value(#[trigger] lower[i]) == symbol_value(
        c[i],
    ) && is_valid_symbol(lower[i]) == is_valid_symbol(c[i]) by {
        lemma_symbol_case_fold(c[i]);
    }
    assert forall|i: int| 0 <= i < c.len() implies symbol_value(#[trigger] upper[i]) == symbol_value(
        c[i],
    ) && is_valid_symbol(upper[i]) == is_valid_symbol(c[i]) by {
        lemma_symbol_case_fold(c[i]);
    }
    lemma_decode_case_fold(c, lower);
    lemma_decode_case_fold(c, upper);
}

/// Two inputs whose bytes decode alike, position by position, decode alike.
proof fn lemma_decode_case_fold(c: Seq<u8>, f: Seq<u8>)
    requires
        c.len() == 32,
        f.len() == c.len(),
        forall|i: int|
            0 <= i < c.len() ==> symbol_value(#[trigger] f[i]) == symbol_value(c[i])
                && is_valid_symbol(f[i]) == is_valid_symbol(c[i]),
    ensures
        spec_decode(f) == spec_decode(c),
{
    assert forall|i: int| 0 <= i < c.len() implies value_of(#[trigger] f[i]) == value_of(c[i]) by {
        assert(symbol_value(f[i]) == symbol_value(c[i]));
    }
    if forall|i: int| 0 <= i < c.len() ==> is_valid_symbol(#[trigger] c[i]) {
        assert forall|i: int| 0 <= i < f.len() implies is_valid_symbol(#[trigger] f[i]) by {
            assert(is_valid_symbol(c[i]));
        }
        assert forall|g: int| 0 <= g < 4 implies spelled_group(f, g) == spelled_group(c, g) by {
            assert(value_of(f[8 * g]) == value_of(c[8 * g]));
            assert(value_of(f[8 * g + 1]) == value_of(c[8 * g + 1]));
            assert(value_of(f[8 * g + 2]) == value_of(c[8 * g + 2]));
            assert(value_of(f[8 * g + 3]) == value_of(c[8 * g + 3]));
            assert(value_of(f[8 * g + 4]) == value_of(c[8 * g + 4]));
            assert(value_of(f[8 * g + 5]) == value_of(c[8 * g + 5]));
            assert(value_of(f[8 * g + 6]) == value_of(c[8 * g + 6]));
            assert(value_of(f[8 * g + 7]) == value_of(c[8 * g + 7]));
        }
        assert forall|k: int| 0 <= k < 20 implies decoded_bytes(f)[k] == decoded_bytes(c)[k] by {
            assert(spelled_group(f, k / 5) == spelled_group(c, k / 5));
        }
        assert(decoded_bytes(f) =~= decoded_bytes(c));
    } else {
        let p = choose|p: int| first_bad(c, p);
        let i = choose|i: int| 0 <= i < c.len() && !is_valid_symbol(#[trigger] c[i]);
        lemma_first_bad_exists(c, i);
        assert(first_bad(c, p));
        assert(first_bad(f, p)) by {
            assert forall|j: int| 0 <= j < p implies is_valid_symbol(#[trigger] f[j]) by {
                assert(is_valid_symbol(c[j]));
            }
        }
        lemma_decode_fails_at_first_bad(f, p);
    }
}

/// A string with a rejected byte at `i` has a first rejected position.
pub proof fn lemma_first_bad_exists(c: Seq<u8>, i: int)
    requires
        0 <= i < c.len(),
        !is_valid_symbol(c[i]),
    ensures
        exists|p: int| first_bad(c, p),
    decreases i,
{
    if forall|j: int| 0 <= j < i ==> is_valid_symbol(#[trigger] c[j]) {
        assert(first_bad(c, i));
    } else {
        let j = choose|j: int| 0 <= j < i && !is_valid_symbol(#[trigger] c[j]);
        lemma_first_bad_exists(c, j);
    }
}

/// Bytes that come first in lexicographic order make a smaller group value.
proof fn lemma_group_value_order(
    a0: u8,
    a1: u8,
    a2: u8,
    a3: u8,
    a4: u8,
    b0: u8,
    b1: u8,
    b2: u8,
    b3: u8,
    b4: u8,
    x: u64,
    y: u64,
)
    by (bit_vector)
    requires
        x == ((a0 as u64) << 32u64) | ((a1 as u64) << 24u64) | ((a2 as u64) << 16u64) | ((a3 as u64)
            << 8u64) | (a4 as u64),
        y == ((b0 as u64) << 32u64) | ((b1 as u64) << 24u64) | ((b2 as u64) << 16u64) | ((b3 as u64)
            << 8u64) | (b4 as u64),
        a0 < b0 || (a0 == b0 && (a1 < b1 || (a1 == b1 && (a2 < b2 || (a2 == b2 && (a3 < b3 || (a3
            == b3 && a4 < b4))))))),
    ensures
        x < y,
        y < 0x100_0000_0000u64,
{
}

/// A smaller 40-bit value has a digit string that comes first.
proof fn lemma_digits_order(x: u64, y: u64)
    by (bit_vector)
    requires
        x < y,
        y < 0x100_0000_0000u64,
    ensures
        (x >> 35u64) & 0x1Fu64 < (y >> 35u64) & 0x1Fu64 || ((x >> 35u64) & 0x1Fu64 == (y >> 35u64)
            & 0x1Fu64 && ((x >> 30u64) & 0x1Fu64 < (y >> 30u64) & 0x1Fu64 || ((x >> 30u64) & 0x1Fu64
            == (y >> 30u64) & 0x1Fu64 && ((x >> 25u64) & 0x1Fu64 < (y >> 25u64) & 0x1Fu64 || ((x
            >> 25u64) & 0x1Fu64 == (y >> 25u64) & 0x1Fu64 && ((x >> 20u64) & 0x1Fu64 < (y >> 20u64)
            & 0x1Fu64 || ((x >> 20u64) & 0x1Fu64 == (y >> 20u64) & 0x1Fu64 && ((x >> 15u64) & 0x1Fu64
            < (y >> 15u64) & 0x1Fu64 || ((x >> 15u64) & 0x1Fu64 == (y >> 15u64) & 0x1Fu64 && ((x
            >> 10u64) & 0x1Fu64 < (y >> 10u64) & 0x1Fu64 || ((x >> 10u64) & 0x1Fu64 == (y >> 10u64)
            & 0x1Fu64 && ((x >> 5u64) & 0x1Fu64 < (y >> 5u64) & 0x1Fu64 || ((x >> 5u64) & 0x1Fu64
            == (y >> 5u64) & 0x1Fu64 && (x >> 0u64) & 0x1Fu64 < (y >> 0u64) & 0x1Fu64))))))))))))),
{
}

/// The encodings first differ at digit `j` of group `g` when the digits do.
proof fn lemma_encode_differs_at(a: Seq<u8>, b: Seq<u8>, g: int, j: int)
    requires
        a.len() == 20,
        b.len() == 20,
        0 <= g < 4,
        0 <= j < 8,
        forall|i: int| 0 <= i < 5 * g ==> a[i] == b[i],
        forall|t: int|
            0 <= t < j ==> (group_value(a, g) >> digit_shift(t)) & 0x1Fu64 == (group_value(b, g)
                >> digit_shift(t)) & 0x1Fu64,
        (group_value(a, g) >> digit_shift(j)) & 0x1Fu64 < (group_value(b, g) >> digit_shift(j))
            & 0x1Fu64,
    ensures
        lex_lt(spec_encode(a), spec_encode(b)),
{
    let (ea, eb) = (spec_encode(a), spec_encode(b));
    let k = 8 * g + j;
    assert forall|i: int| 0 <= i < k implies ea[i] == eb[i] by {
        let h = i / 8;
        if h < g {
            assert(group_value(a, h) == group_value(b, h)) by {
                assert(a[5 * h] == b[5 * h]);
                assert(a[5 * h + 1] == b[5 * h + 1]);
                assert(a[5 * h + 2] == b[5 * h + 2]);
                assert(a[5 * h + 3] == b[5 * h + 3]);
                assert(a[5 * h + 4] == b[5 * h + 4]);
            }
        } else {
            assert(h == g);
            assert(i % 8 < j);
        }
    }
    assert(k / 8 == g && k % 8 == j);
    lemma_digit_fits(group_value(a, g), digit_shift(j));
    lemma_digit_fits(group_value(b, g), digit_shift(j));
    lemma_symbol_ascending(digit(a, k), digit(b, k));
    assert(differs_first_at(ea, eb, k));
}

/// Encoding keeps order: bytes that come first encode to text that comes first.
pub proof fn lemma_encode_keeps_order(a: Seq<u8>, b: Seq<u8>)
    requires
        a.len() == 20,
        b.len() == 20,
        lex_lt(a, b),
    ensures
        lex_lt(spec_encode(a), spec_encode(b)),
{
    let k = choose|k: int| #[trigger] differs_first_at(a, b, k);
    let g = k / 5;
    let r = k % 5;
    let (x, y) = (group_value(a, g), group_value(b, g));
    assert(a[5 * g + 0] == a[5 * g] && b[5 * g + 0] == b[5 * g]);
    if r == 0 {
    } else if r == 1 {
        assert(a[5 * g] == b[5 * g]);
    } else if r == 2 {
        assert(a[5 * g] == b[5 * g]);
        assert(a[5 * g + 1] == b[5 * g + 1]);
    } else if r == 3 {
        assert(a[5 * g] == b[5 * g]);
        assert(a[5 * g + 1] == b[5 * g + 1]);
        assert(a[5 * g + 2] == b[5 * g + 2]);
    } else {
        assert(a[5 * g] == b[5 * g]);
        assert(a[5 * g + 1] == b[5 * g + 1]);
        assert(a[5 * g + 2] == b[5 * g + 2]);
        assert(a[5 * g + 3] == b[5 * g + 3]);
    }
    lemma_group_value_order(
        a[5 * g],
        a[5 * g + 1],
        a[5 * g + 2],
        a[5 * g + 3],
        a[5 * g + 4],
        b[5 * g],
        b[5 * g + 1],
        b[5 * g + 2],
        b[5 * g + 3],
        b[5 * g + 4],
        x,
        y,
    );
    lemma_digits_order(x, y);
    assert forall|i: int| 0 <= i < 5 * g implies a[i] == b[i] by {}
    assert(digit_shift(0) == 35u64 && digit_shift(1) == 30u64 && digit_shift(2) == 25u64
        && digit_shift(3) == 20u64 && digit_shift(4) == 15u64 && digit_shift(5) == 10u64
        && digit_shift(6) == 5u64 && digit_shift(7) == 0u64);
    if (x >> 35u64) & 0x1Fu64 < (y >> 35u64) & 0x1Fu64 {
        lemma_encode_differs_at(a, b, g, 0);
    } else if (x >> 30u64) & 0x1Fu64 < (y >> 30u64) & 0x1Fu64 {
        lemma_encode_differs_at(a, b, g, 1);
    } else if (x >> 25u64) & 0x1Fu64 < (y >> 25u64) & 0x1Fu64 {
        lemma_encode_differs_at(a, b, g, 2);
    } else if (x >> 20u64) & 0x1Fu64 < (y >> 20u64) & 0x1Fu64 {
        lemma_encode_differs_at(a, b, g, 3);
    } else if (x >> 15u64) & 0x1Fu64 < (y >> 15u64) & 0x1Fu64 {
        lemma_encode_differs_at(a, b, g, 4);
    } else if (x >> 10u64) & 0x1Fu64 < (y >> 10u64) & 0x1Fu64 {
        lemma_encode_differs_at(a, b, g, 5);
    } else if (x >> 5u64) & 0x1Fu64 < (y >> 5u64) & 0x1Fu64 {
        lemma_encode_differs_at(a, b, g, 6);
    } else {
        lemma_encode_differs_at(a, b, g, 7);
    }
}

/// Group `g` of a decoding encodes back to the input's characters, folded to upper case.
proof fn lemma_group_encodes(c: Seq<u8>, g: int)
    requires
        c.len() == 32,
        0 <= g < 4,
        forall|i: int| 0 <= i < 32 ==> is_valid_symbol(#[trigger] c[i]),
    ensures
        forall|j: int|
            0 <= j < 8 ==> #[trigger] spec_encode(decoded_bytes(c))[8 * g + j] == ascii_upper(
                c[8 * g + j],
            ),
{
    let d = decoded_bytes(c);
    let y = spelled_group(c, g);
    let x = group_value(d, g);
    assert forall|r: int| 0 <= r < 5 implies #[trigger] d[5 * g + r] == (y >> ((32 - 8 * r) as u64)) as u8 by {
        assert((5 * g + r) / 5 == g);
        assert((5 * g + r) % 5 == r);
    }
    assert(d[5 * g + 0] == d[5 * g]);
    assert forall|j: int| 0 <= j < 8 implies value_of(#[trigger] c[8 * g + j]) < 32 by {
        lemma_value_symbol(c[8 * g + j]);
    }
    assert(c[8 * g + 0] == c[8 * g]);
    assert(((y >> 0u64) as u8) == (y as u8)) by (bit_vector);
    lemma_group_digits_round_trip(
        value_of(c[8 * g]),
        value_of(c[8 * g + 1]),
        value_of(c[8 * g + 2]),
        value_of(c[8 * g + 3]),
        value_of(c[8 * g + 4]),
        value_of(c[8 * g + 5]),
        value_of(c[8 * g + 6]),
        value_of(c[8 * g + 7]),
        y,
        x,
    );
    assert(digit_shift(0) == 35u64 && digit_shift(1) == 30u64 && digit_shift(2) == 25u64
        && digit_shift(3) == 20u64 && digit_shift(4) == 15u64 && digit_shift(5) == 10u64
        && digit_shift(6) == 5u64 && digit_shift(7) == 0u64);
    assert forall|j: int| 0 <= j < 8 implies #[trigger] spec_encode(d)[8 * g + j] == ascii_upper(
        c[8 * g + j],
    ) by {
        let i = 8 * g + j;
        assert(i / 8 == g && i % 8 == j);
        if j == 0 {
            assert(c[8 * g + 0] == c[8 * g]);
        }
        assert((x >> digit_shift(j)) & 0x1Fu64 == value_of(c[i]));
        lemma_value_symbol(c[i]);
        assert(digit(d, i) == symbol_value(c[i])->0);
    }
}

/// Encoding what a string decodes to gives the string back, in upper case.
pub proof fn lemma_encode_decode(c: Seq<u8>)
    requires
        c.len() == 32,
    ensures
        spec_decode(c) matches Ok(d) ==> spec_encode(d) == c.map_values(|b: u8| ascii_upper(b)),
{
    if spec_decode(c) is Ok {
        if !(forall|i: int| 0 <= i < c.len() ==> is_valid_symbol(#[trigger] c[i])) {
            assert(spec_decode(c) is Err);
        }
        let d = decoded_bytes(c);
        lemma_group_encodes(c, 0);
        lemma_group_encodes(c, 1);
        lemma_group_encodes(c, 2);
        lemma_group_encodes(c, 3);
        assert forall|i: int| 0 <= i < 32 implies spec_encode(d)[i] == ascii_upper(c[i]) by {
            let g = i / 8;
            let j = i % 8;
            assert(i == 8 * g + j);
        }
        assert(spec_encode(d) =~= c.map_values(|b: u8| ascii_upper(b)));
    }
}

/// Group `g` is the number that its five bytes denote.
proof fn lemma_group_is_number(b: Seq<u8>, g: int)
    requires
        b.len() == 20,
        0 <= g < 4,
    ensures
        be_value(b.subrange(5 * g, 5 * g + 5)) == group_value(b, g) as nat,
{
    let s5 = b.subrange(5 * g, 5 * g + 5);
    let s4 = s5.drop_last();
    let s3 = s4.drop_last();
    let s2 = s3.drop_last();
    let s1 = s2.drop_last();
    let s0 = s1.drop_last();
    assert(s0.len() == 0);
    let (b0, b1, b2, b3, b4) = (b[5 * g], b[5 * g + 1], b[5 * g + 2], b[5 * g + 3], b[5 * g + 4]);
    assert(s1.last() == b0 && s2.last() == b1 && s3.last() == b2 && s4.last() == b3 && s5.last()
        == b4);
    assert(be_value(s0) == 0);
    assert(be_value(s1) == be_value(s0) * 256 + s1.last());
    assert(be_value(s2) == be_value(s1) * 256 + b1);
    assert(be_value(s3) == be_value(s2) * 256 + b2);
    assert(be_value(s4) == be_value(s3) * 256 + b3);
    assert(be_value(s5) == be_value(s4) * 256 + b4);
    assert(((b0 as u64) << 32u64) | ((b1 as u64) << 24u64) | ((b2 as u64) << 16u64) | ((b3 as u64)
        << 8u64) | (b4 as u64) == (b0 as u64) * 0x1_0000_0000u64 + (b1 as u64) * 0x100_0000u64 + (
    b2 as u64) * 0x1_0000u64 + (b3 as u64) * 0x100u64 + (b4 as u64)) by (bit_vector);
}

/// The encoding writes, digit by digit, the 160-bit number that the bytes
/// denote in base 32: character `i` is the symbol of its digit `i`, the most
/// significant first.
pub proof fn lemma_encode_is_base32_number(b: Seq<u8>, i: int)
    requires
        b.len() == 20,
        0 <= i < 32,
    ensures
        digit(b, i) as nat == number_digit(b, i),
        spec_encode(b)[i] == symbol(number_digit(b, i) as u8),
{
    lemma2_to64();
    let g = i / 8;
    let j = i % 8;
    let hi = b.subrange(0, 5 * g);
    let mid = b.subrange(5 * g, 5 * g + 5);
    let lo = b.subrange(5 * g + 5, 20);
    assert(b =~= hi + mid + lo);
    lemma_be_value_concat(hi, mid);
    lemma_be_value_concat(hi + mid, lo);
    lemma_be_value_bound(lo);
    lemma_group_is_number(b, g);
    let gv = group_value(b, g);
    let e = 8 * lo.len();
    let t: nat = digit_shift(j) as nat;
    assert(e == 40 * (3 - g));
    assert(t == 35 - 5 * j);
    assert((5 * (31 - i)) as nat == e + t);
    let h = be_value(hi);
    let gn = gv as nat;
    let l = be_value(lo);
    let n = be_value(b);
    lemma_pow2_pos(e);
    lemma_pow2_pos(t);
    lemma_pow2_pos(40);
    lemma_pow2_pos((40 - t) as nat);
    lemma_pow2_pos((35 - t) as nat);
    assert(8 * mid.len() == 40);
    // The number is (h * 2^40 + group) * 2^e + l, with l below 2^e.
    let q = h * pow2(40) + gn;
    assert(n == pow2(e) * q + l) by (nonlinear_arith)
        requires
            n == (h * pow2(40) + gn) * pow2(e) + l,
            q == h * pow2(40) + gn,
    ;
    lemma_fundamental_div_mod_converse_div(n as int, pow2(e) as int, q as int, l as int);
    // Dividing by 2^(e + t) divides q by 2^t.
    lemma_pow2_adds(e, t);
    lemma_div_denominator(n as int, pow2(e) as int, pow2(t) as int);
    assert(n / pow2(e + t) == q / pow2(t));
    // q = group + (h * 2^(40 - t)) * 2^t.
    lemma_pow2_adds((40 - t) as nat, t);
    assert(((40 - t) as nat + t) == 40);
    let k = h * pow2((40 - t) as nat);
    assert(q == gn + k * pow2(t)) by (nonlinear_arith)
        requires
            q == h * pow2(40) + gn,
            k == h * pow2((40 - t) as nat),
            pow2(40) == pow2((40 - t) as nat) * pow2(t),
    ;
    lemma_hoist_over_denominator(gn as int, k as int, pow2(t));
    assert(q / pow2(t) == gn / pow2(t) + k);
    // k is a multiple of 32, so it does not touch the last digit.
    lemma_pow2_adds(5, (35 - t) as nat);
    assert((5 + (35 - t) as nat) == (40 - t) as nat);
    let m = h * pow2((35 - t) as nat);
    assert(k == 32 * m) by (nonlinear_arith)
        requires
            k == h * pow2((40 - t) as nat),
            m == h * pow2((35 - t) as nat),
            pow2((40 - t) as nat) == pow2(5) * pow2((35 - t) as nat),
            pow2(5) == 32,
    ;
    lemma_mod_multiples_vanish(m as int, (gn / pow2(t)) as int, 32);
    assert(number_digit(b, i) == (gn / pow2(t)) % 32);
    // On the 64-bit group, that digit is a shift and a mask.
    let tt = digit_shift(j);
    lemma_u64_shr_is_div(gv, tt);
    let sh = gv >> tt;
    assert(sh & 0x1Fu64 == sh % 32) by (bit_vector);
    assert(i / 8 == g && i % 8 == j);
    lemma_digit_fits(gv, tt);
}

} // verus!
