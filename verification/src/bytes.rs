//! Big-endian byte strings: their numeric value, their lexicographic order,
//! and the fixed-width fields that an identifier is made of.

use vstd::arithmetic::power2::{lemma_pow2_adds, lemma2_to64, pow2};
use vstd::prelude::*;

verus! {

/// The four big-endian bytes of a 32-bit value.
pub open spec fn u32_be_bytes(x: u32) -> Seq<u8> {
    seq![(x >> 24u32) as u8, (x >> 16u32) as u8, (x >> 8u32) as u8, x as u8]
}

/// The low 48 bits of a value as six big-endian bytes.
pub open spec fn u48_be_bytes(x: u64) -> Seq<u8> {
    seq![
        (x >> 40u64) as u8,
        (x >> 32u64) as u8,
        (x >> 24u64) as u8,
        (x >> 16u64) as u8,
        (x >> 8u64) as u8,
        x as u8,
    ]
}

/// The 32-bit value whose big-endian bytes are `s[0..4]`.
pub open spec fn u32_from_be(s: Seq<u8>) -> u32 {
    ((s[0] as u32) << 24u32) | ((s[1] as u32) << 16u32) | ((s[2] as u32) << 8u32) | (s[3] as u32)
}

/// The 48-bit value whose big-endian bytes are `s[0..6]`.
pub open spec fn u48_from_be(s: Seq<u8>) -> u64 {
    ((s[0] as u64) << 40u64) | ((s[1] as u64) << 32u64) | ((s[2] as u64) << 24u64) | ((s[3] as u64)
        << 16u64) | ((s[4] as u64) << 8u64) | (s[5] as u64)
}

/// The number that a big-endian byte string denotes.
pub open spec fn be_value(s: Seq<u8>) -> nat
    decreases s.len(),
{
    if s.len() == 0 {
        0
    } else {
        be_value(s.drop_last()) * 256 + s.last() as nat
    }
}

/// `a` and `b` agree before position `k`, and `a[k] < b[k]`.
pub open spec fn differs_first_at(a: Seq<u8>, b: Seq<u8>, k: int) -> bool {
    &&& 0 <= k < a.len()
    &&& k < b.len()
    &&& a[k] < b[k]
    &&& forall|j: int| 0 <= j < k ==> a[j] == b[j]
}

/// `a` comes strictly before `b` in lexicographic byte order (for strings of
/// one length, which is the only case the library compares).
pub open spec fn lex_lt(a: Seq<u8>, b: Seq<u8>) -> bool {
    exists|k: int| #[trigger] differs_first_at(a, b, k)
}

/// A run of `n` bytes that all equal `v`.
pub open spec fn repeat_byte(v: u8, n: nat) -> Seq<u8> {
    Seq::new(n, |_i: int| v)
}

/// Lexicographic order is kept when both sides get a common prefix.
pub proof fn lemma_lex_lt_common_prefix(p: Seq<u8>, a: Seq<u8>, b: Seq<u8>)
    requires
        lex_lt(a, b),
    ensures
        lex_lt(p + a, p + b),
{
    let k = choose|k: int| #[trigger] differs_first_at(a, b, k);
    let k2 = p.len() + k;
    assert forall|j: int| 0 <= j < k2 implies (p + a)[j] == (p + b)[j] by {
        if j >= p.len() {
            assert(a[j - p.len()] == b[j - p.len()]);
        }
    }
    assert(differs_first_at(p + a, p + b, k2));
}

/// Lexicographic order is kept when both sides, of one length, get suffixes.
pub proof fn lemma_lex_lt_append(a: Seq<u8>, b: Seq<u8>, x: Seq<u8>, y: Seq<u8>)
    requires
        lex_lt(a, b),
    ensures
        lex_lt(a + x, b + y),
{
    let k = choose|k: int| #[trigger] differs_first_at(a, b, k);
    assert forall|j: int| 0 <= j < k implies (a + x)[j] == (b + y)[j] by {
        assert(a[j] == b[j]);
    }
    assert(differs_first_at(a + x, b + y, k));
}

/// Lexicographic order is transitive.
pub proof fn lemma_lex_lt_transitive(a: Seq<u8>, b: Seq<u8>, c: Seq<u8>)
    requires
        lex_lt(a, b),
        lex_lt(b, c),
    ensures
        lex_lt(a, c),
{
    let k1 = choose|k: int| #[trigger] differs_first_at(a, b, k);
    let k2 = choose|k: int| #[trigger] differs_first_at(b, c, k);
    let k = if k1 < k2 {
        k1
    } else {
        k2
    };
    assert forall|j: int| 0 <= j < k implies a[j] == c[j] by {
        assert(a[j] == b[j]);
        assert(b[j] == c[j]);
    }
    assert(differs_first_at(a, c, k));
}

/// Nothing comes before itself.
pub proof fn lemma_lex_lt_irreflexive(a: Seq<u8>)
    ensures
        !lex_lt(a, a),
{
    if lex_lt(a, a) {
        let k = choose|k: int| #[trigger] differs_first_at(a, a, k);
        assert(a[k] < a[k]);
    }
}

/// A smaller 32-bit value has lexicographically smaller big-endian bytes.
pub proof fn lemma_u32_be_bytes_order(x: u32, y: u32)
    requires
        x < y,
    ensures
        lex_lt(u32_be_bytes(x), u32_be_bytes(y)),
{
    let a = u32_be_bytes(x);
    let b = u32_be_bytes(y);
    assert(((x >> 24u32) as u8) < ((y >> 24u32) as u8) || (((x >> 24u32) as u8) == ((y >> 24u32) as u8)
        && (((x >> 16u32) as u8) < ((y >> 16u32) as u8) || (((x >> 16u32) as u8) == ((y
        >> 16u32) as u8) && (((x >> 8u32) as u8) < ((y >> 8u32) as u8) || (((x >> 8u32) as u8) == ((y
        >> 8u32) as u8) && (x as u8) < (y as u8))))))) by (bit_vector)
        requires
            x < y,
    ;
    if a[0] < b[0] {
        assert(differs_first_at(a, b, 0));
    } else if a[1] < b[1] {
        assert(differs_first_at(a, b, 1));
    } else if a[2] < b[2] {
        assert(differs_first_at(a, b, 2));
    } else {
        assert(differs_first_at(a, b, 3));
    }
}

/// A smaller 48-bit value has lexicographically smaller big-endian bytes.
pub proof fn lemma_u48_be_bytes_order(x: u64, y: u64)
    requires
        x < y,
        y < 0x1_0000_0000_0000,
    ensures
        lex_lt(u48_be_bytes(x), u48_be_bytes(y)),
{
    let a = u48_be_bytes(x);
    let b = u48_be_bytes(y);
    assert(((x >> 40u64) as u8) < ((y >> 40u64) as u8) || (((x >> 40u64) as u8) == ((y
        >> 40u64) as u8) && (((x >> 32u64) as u8) < ((y >> 32u64) as u8) || (((x >> 32u64) as u8)
        == ((y >> 32u64) as u8) && (((x >> 24u64) as u8) < ((y >> 24u64) as u8) || (((x
        >> 24u64) as u8) == ((y >> 24u64) as u8) && (((x >> 16u64) as u8) < ((y >> 16u64) as u8)
        || (((x >> 16u64) as u8) == ((y >> 16u64) as u8) && (((x >> 8u64) as u8) < ((y
        >> 8u64) as u8) || (((x >> 8u64) as u8) == ((y >> 8u64) as u8) && (x as u8) < (
    y as u8))))))))))) by (bit_vector)
        requires
            x < y,
            y < 0x1_0000_0000_0000u64,
    ;
    if a[0] < b[0] {
        assert(differs_first_at(a, b, 0));
    } else if a[1] < b[1] {
        assert(differs_first_at(a, b, 1));
    } else if a[2] < b[2] {
        assert(differs_first_at(a, b, 2));
    } else if a[3] < b[3] {
        assert(differs_first_at(a, b, 3));
    } else if a[4] < b[4] {
        assert(differs_first_at(a, b, 4));
    } else {
        assert(differs_first_at(a, b, 5));
    }
}

/// Big-endian bytes of a 32-bit value read back as that value.
pub proof fn lemma_u32_be_round_trip(x: u32)
    ensures
        u32_from_be(u32_be_bytes(x)) == x,
{
    let s = u32_be_bytes(x);
    assert(s[0] == (x >> 24u32) as u8);
    assert(((((x >> 24u32) as u8) as u32) << 24u32) | ((((x >> 16u32) as u8) as u32) << 16u32) | ((((x
        >> 8u32) as u8) as u32) << 8u32) | ((x as u8) as u32) == x) by (bit_vector);
}

/// The bytes of a 32-bit field are those of the value they denote.
pub proof fn lemma_u32_from_be_round_trip(s: Seq<u8>)
    requires
        s.len() == 4,
    ensures
        u32_be_bytes(u32_from_be(s)) == s,
{
    let (b0, b1, b2, b3) = (s[0], s[1], s[2], s[3]);
    let x = u32_from_be(s);
    assert(x == ((b0 as u32) << 24u32) | ((b1 as u32) << 16u32) | ((b2 as u32) << 8u32) | (b3 as u32));
    assert(((x >> 24u32) as u8) == b0 && ((x >> 16u32) as u8) == b1 && ((x >> 8u32) as u8) == b2 && (x as u8)
        == b3) by (bit_vector)
        requires
            x == ((b0 as u32) << 24u32) | ((b1 as u32) << 16u32) | ((b2 as u32) << 8u32) | (b3 as u32),
    ;
    assert(u32_be_bytes(x) =~= s);
}

/// Six big-endian bytes of a value read back as its low 48 bits.
pub proof fn lemma_u48_be_round_trip(x: u64)
    ensures
        u48_from_be(u48_be_bytes(x)) == x & 0xFFFF_FFFF_FFFFu64,
        u48_from_be(u48_be_bytes(x)) == x % 0x1_0000_0000_0000,
{
    let s = u48_be_bytes(x);
    assert(s[0] == (x >> 40u64) as u8);
    assert(((((x >> 40u64) as u8) as u64) << 40u64) | ((((x >> 32u64) as u8) as u64) << 32u64) | ((((x
        >> 24u64) as u8) as u64) << 24u64) | ((((x >> 16u64) as u8) as u64) << 16u64) | ((((x
        >> 8u64) as u8) as u64) << 8u64) | ((x as u8) as u64) == x & 0xFFFF_FFFF_FFFFu64)
        by (bit_vector);
    assert(x & 0xFFFF_FFFF_FFFFu64 == x % 0x1_0000_0000_0000u64) by (bit_vector);
}

/// The bytes of a 48-bit field are those of the value they denote.
pub proof fn lemma_u48_from_be_round_trip(s: Seq<u8>)
    requires
        s.len() == 6,
    ensures
        u48_be_bytes(u48_from_be(s)) == s,
        u48_from_be(s) < 0x1_0000_0000_0000,
{
    let (b0, b1, b2, b3, b4, b5) = (s[0], s[1], s[2], s[3], s[4], s[5]);
    let x = u48_from_be(s);
    assert(((x >> 40u64) as u8) == b0 && ((x >> 32u64) as u8) == b1 && ((x >> 24u64) as u8) == b2 && ((x
        >> 16u64) as u8) == b3 && ((x >> 8u64) as u8) == b4 && (x as u8) == b5 && x
        < 0x1_0000_0000_0000u64) by (bit_vector)
        requires
            x == ((b0 as u64) << 40u64) | ((b1 as u64) << 32u64) | ((b2 as u64) << 24u64) | ((b3 as u64)
                << 16u64) | ((b4 as u64) << 8u64) | (b5 as u64),
    ;
    assert(u48_be_bytes(x) =~= s);
}

/// Adding one to `p + [b] + [0xFF; k]`, with `b < 0xFF`, gives `p + [b + 1] + [0; k]`.
pub proof fn lemma_be_value_carry(p: Seq<u8>, b: u8, k: nat)
    requires
        b < 0xFF,
    ensures
        be_value(p + seq![b] + repeat_byte(0xFF, k)) + 1 == be_value(
            p + seq![(b + 1) as u8] + repeat_byte(0, k),
        ),
    decreases k,
{
    let s = p + seq![b] + repeat_byte(0xFF, k);
    let t = p + seq![(b + 1) as u8] + repeat_byte(0, k);
    if k == 0 {
        assert(s.drop_last() =~= p);
        assert(t.drop_last() =~= p);
    } else {
        lemma_be_value_carry(p, b, (k - 1) as nat);
        assert(s.drop_last() =~= p + seq![b] + repeat_byte(0xFF, (k - 1) as nat));
        assert(t.drop_last() =~= p + seq![(b + 1) as u8] + repeat_byte(0, (k - 1) as nat));
    }
}

/// Strings of one length with different values differ, in the order of
/// their values.
pub proof fn lemma_be_value_order(a: Seq<u8>, b: Seq<u8>)
    requires
        a.len() == b.len(),
        be_value(a) < be_value(b),
    ensures
        lex_lt(a, b),
    decreases a.len(),
{
    let n = a.len();
    let (a1, b1) = (a.drop_last(), b.drop_last());
    if be_value(a1) < be_value(b1) {
        lemma_be_value_order(a1, b1);
        lemma_lex_lt_append(a1, b1, seq![a.last()], seq![b.last()]);
        assert(a1 + seq![a.last()] =~= a);
        assert(b1 + seq![b.last()] =~= b);
    } else if be_value(a1) == be_value(b1) {
        lemma_be_value_injective(a1, b1);
        assert(a.last() < b.last());
        assert forall|j: int| 0 <= j < n - 1 implies a[j] == b[j] by {
            assert(a1[j] == b1[j]);
        }
        assert(differs_first_at(a, b, n - 1));
    } else {
        assert(a.last() < 256 && b.last() >= 0);
        assert(be_value(a) >= be_value(a1) * 256);
        assert(be_value(b1) + 1 <= be_value(a1));
        assert(be_value(b) < (be_value(b1) + 1) * 256);
        assert((be_value(b1) + 1) * 256 <= be_value(a1) * 256) by (nonlinear_arith)
            requires
                be_value(b1) + 1 <= be_value(a1),
        ;
    }
}

/// Strings of one length with one value are one string.
pub proof fn lemma_be_value_injective(a: Seq<u8>, b: Seq<u8>)
    requires
        a.len() == b.len(),
        be_value(a) == be_value(b),
    ensures
        a == b,
    decreases a.len(),
{
    if a.len() > 0 {
        let (a1, b1) = (a.drop_last(), b.drop_last());
        if be_value(a1) < be_value(b1) {
            assert((be_value(a1) + 1) * 256 <= be_value(b1) * 256) by (nonlinear_arith)
                requires
                    be_value(a1) + 1 <= be_value(b1),
            ;
        } else if be_value(b1) < be_value(a1) {
            assert((be_value(b1) + 1) * 256 <= be_value(a1) * 256) by (nonlinear_arith)
                requires
                    be_value(b1) + 1 <= be_value(a1),
            ;
        } else {
            lemma_be_value_injective(a1, b1);
            assert(a =~= a1.push(a.last()));
            assert(b =~= b1.push(b.last()));
        }
    } else {
        assert(a =~= b);
    }
}

/// The value of a concatenation: the first part shifted past the second.
pub proof fn lemma_be_value_concat(x: Seq<u8>, y: Seq<u8>)
    ensures
        be_value(x + y) == be_value(x) * pow2(8 * y.len()) + be_value(y),
    decreases y.len(),
{
    lemma2_to64();
    if y.len() == 0 {
        assert(x + y =~= x);
        assert(8 * y.len() == 0);
        assert(be_value(y) == 0);
    } else {
        let y1 = y.drop_last();
        lemma_be_value_concat(x, y1);
        assert((x + y).drop_last() =~= x + y1);
        assert((x + y).last() == y.last());
        assert(be_value(x + y) == be_value(x + y1) * 256 + y.last());
        assert(be_value(y) == be_value(y1) * 256 + y.last());
        lemma_pow2_adds(8 * y1.len(), 8);
        assert(8 * y.len() == 8 * y1.len() + 8);
        assert(pow2(8) == 256);
        assert(pow2(8 * y.len()) == pow2(8 * y1.len()) * 256);
        let (a, b, p) = (be_value(x), be_value(y1), pow2(8 * y1.len()));
        assert((a * p + b) * 256 + y.last() == a * (p * 256) + (b * 256 + y.last()))
            by (nonlinear_arith);
    }
}

/// A byte string of `n` bytes denotes a number below `2^(8n)`.
pub proof fn lemma_be_value_bound(s: Seq<u8>)
    ensures
        be_value(s) < pow2(8 * s.len()),
    decreases s.len(),
{
    lemma2_to64();
    if s.len() > 0 {
        let s1 = s.drop_last();
        lemma_be_value_bound(s1);
        lemma_pow2_adds(8 * s1.len(), 8);
        assert(8 * s.len() == 8 * s1.len() + 8);
        let (b, p) = (be_value(s1), pow2(8 * s1.len()));
        assert(b * 256 + s.last() < p * 256) by (nonlinear_arith)
            requires
                b < p,
                s.last() < 256,
        ;
    }
}

} // verus!
