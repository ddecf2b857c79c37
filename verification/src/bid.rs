//! The identifier type.

use crate::bytes::{
    be_value,
    lemma_u32_be_round_trip,
    lemma_u32_from_be_round_trip,
    lemma_u48_be_round_trip,
    lemma_u48_from_be_round_trip,
    repeat_byte,
    u32_be_bytes,
    u32_from_be,
    u48_be_bytes,
    u48_from_be,
};
use crate::bytes::{lemma_lex_lt_append, lemma_lex_lt_common_prefix, lemma_lex_lt_irreflexive,
    lemma_u32_be_bytes_order, lemma_u48_be_bytes_order, lex_lt};
use crate::encoding::{bad_symbol_message, decode, encode, lemma_decode_encode, lemma_encode_upper_case,
    spec_decode, spec_encode};
use crate::error::BidError;
use crate::generator::{
    failed_step,
    generate,
    generate_outcome,
    one_call,
    outcome_of,
    spec_timestamp_from_millis,
    stepped,
    Generator,
};
use crate::text::push_char;
use vstd::prelude::*;
use vstd::string::StringSliceAdditionalSpecFns;
use vstd::utf8::{
    encode_scalar,
    encode_utf8,
    has_width_1_encoding,
    has_width_2_encoding,
    has_width_3_encoding,
    is_ascii_chars,
    is_ascii_chars_encode_utf8,
};

verus! {

/// A 160-bit identifier with an embedded type hash.
///
/// Layout (big-endian, 20 bytes):
/// - bytes 0..4: FNV-1a hash of the type tag;
/// - bytes 4..10: Unix timestamp in milliseconds (48 bits);
/// - bytes 10..20: random or monotonic component (80 bits).
///
/// Identifiers order as their bytes do, so those with one tag sort by time
/// and those with different tags cluster by tag hash.
#[derive(Clone, Copy, PartialEq, Eq, PartialOrd, Ord, Hash, Debug)]
pub struct Bid([u8; 20]);

impl View for Bid {
    type V = Seq<u8>;

    /// The 20 bytes of the identifier.
    closed spec fn view(&self) -> Seq<u8> {
        self.0@
    }
}

/// An identifier always has 20 bytes.
pub broadcast proof fn lemma_bid_len(b: Bid)
    ensures
        #[trigger] b@.len() == 20,
{
}

/// The 20 bytes of the identifier with these parts: the tag hash, the low 48
/// bits of the timestamp, and the random component.
pub open spec fn id_layout(tag_hash: u32, timestamp_ms: u64, random: Seq<u8>) -> Seq<u8> {
    u32_be_bytes(tag_hash) + u48_be_bytes(timestamp_ms) + random
}

/// The 32-bit FNV-1a hash: offset basis `0x811c9dc5`, and for each byte an
/// exclusive-or followed by a multiplication by the prime `0x01000193`
/// modulo 2^32.
pub open spec fn spec_fnv1a_32(data: Seq<u8>) -> u32
    decreases data.len(),
{
    if data.len() == 0 {
        0x811c_9dc5
    } else {
        (((spec_fnv1a_32(data.drop_last()) ^ (data.last() as u32)) as nat * 0x0100_0193nat)
            % 0x1_0000_0000nat) as u32
    }
}

/// FNV-1a 32-bit hash of a byte string.
pub fn fnv1a_32(data: &[u8]) -> (hash: u32)
    ensures
        hash == spec_fnv1a_32(data@),
{
    let mut hash: u32 = 0x811c_9dc5;
    let mut i: usize = 0;
    while i < data.len()
        invariant
            i <= data.len(),
            hash == spec_fnv1a_32(data@.subrange(0, i as int)),
        decreases data.len() - i,
    {
        assert(data@.subrange(0, i + 1).drop_last() =~= data@.subrange(0, i as int));
        hash = hash ^ (data[i] as u32);
        hash = hash.wrapping_mul(0x0100_0193);
        i = i + 1;
    }
    assert(data@.subrange(0, data.len() as int) =~= data@);
    hash
}

impl Bid {
    /// Generate a new identifier tagged with an entity type (e.g. "usr", "post").
    ///
    /// The tag's hash takes the place of bytes 0..4 of the next identifier
    /// from `generator`, so different tags give different identifiers.
    pub fn tagged(tag: &str, generator: &mut Generator) -> (r: Result<Bid, BidError>)
        ensures
            match r {
                Ok(b) => {
                    &&& stepped(*old(generator), *final(generator))
                    &&& b@ == u32_be_bytes(spec_fnv1a_32(tag.spec_bytes()))
                        + final(generator).current_id().subrange(4, 20)
                    &&& u32_from_be(b@.subrange(0, 4)) == spec_fnv1a_32(tag.spec_bytes())
                },
                Err(e) => failed_step(*old(generator), *final(generator), e),
            },
            one_call(*old(generator), *final(generator)),
            generate_outcome(*old(generator), *final(generator), outcome_of(r)),
    {
        let hash = fnv1a_32(tag.as_bytes());
        let inner = generate(generator)?;
        let mut bytes = inner.0;
        bytes[0] = (hash >> 24u32) as u8;
        bytes[1] = (hash >> 16u32) as u8;
        bytes[2] = (hash >> 8u32) as u8;
        bytes[3] = hash as u8;
        let b = Bid(bytes);
        proof {
            assert(b@ =~= u32_be_bytes(hash) + generator.current_id().subrange(4, 20));
            assert(b@.subrange(0, 4) =~= u32_be_bytes(hash));
            lemma_u32_be_round_trip(hash);
        }
        Ok(b)
    }

    /// Generate a new identifier with no type tag (tag hash 0).
    pub fn new(generator: &mut Generator) -> (r: Result<Bid, BidError>)
        ensures
            match r {
                Ok(b) => {
                    &&& stepped(*old(generator), *final(generator))
                    &&& b@ == final(generator).current_id()
                },
                Err(e) => failed_step(*old(generator), *final(generator), e),
            },
            one_call(*old(generator), *final(generator)),
            generate_outcome(*old(generator), *final(generator), outcome_of(r)),
    {
        generate(generator)
    }

    /// The 32-character Crockford Base32 text of the identifier.
    pub fn to_string(&self) -> (s: String)
        ensures
            s@ == spec_display(self@),
    {
        let encoded = encode(&self.0);
        let mut s = String::new();
        let mut i: usize = 0;
        while i < 32
            invariant
                i <= 32,
                encoded@ == spec_encode(self@),
                s@ == encoded@.subrange(0, i as int).map_values(|c: u8| c as char),
            decreases 32 - i,
        {
            push_char(&mut s, encoded[i] as char);
            assert(encoded@.subrange(0, i + 1).map_values(|c: u8| c as char) =~= encoded@.subrange(
                0,
                i as int,
            ).map_values(|c: u8| c as char).push(encoded@[i as int] as char));
            i = i + 1;
        }
        assert(encoded@.subrange(0, 32) =~= encoded@);
        s
    }

    /// Parse an identifier from text: everything up to and including the first
    /// `-` is a tag prefix and is dropped; the rest must be 32 Base32
    /// characters, in either case.
    pub fn parse_str(s: &str) -> (r: Result<Bid, BidError>)
        ensures
            match r {
                Ok(b) => {
                    &&& id_text(s.spec_bytes()).len() == 32
                    &&& spec_decode(id_text(s.spec_bytes())) == Ok::<Seq<u8>, int>(b@)
                },
                Err(e) => if id_text(s.spec_bytes()).len() != 32 {
                    e matches BidError::InvalidLength(n) && n == id_text(s.spec_bytes()).len()
                } else {
                    &&& spec_decode(id_text(s.spec_bytes())) matches Err(p)
                    &&& e matches BidError::InvalidString(m)
                    &&& m@ == bad_symbol_message(id_text(s.spec_bytes()), p)
                },
            },
    {
        let bytes = s.as_bytes();
        let start = text_start(bytes);
        let len = bytes.len() - start;
        if len != 32 {
            return Err(BidError::InvalidLength(len));
        }
        let mut input = [0u8; 32];
        let mut i: usize = 0;
        while i < 32
            invariant
                i <= 32,
                start + 32 == bytes@.len(),
                bytes@.len() == bytes.len(),
                bytes@.subrange(start as int, bytes@.len() as int) == id_text(s.spec_bytes()),
                bytes@ == s.spec_bytes(),
                input@.len() == 32,
                forall|j: int| 0 <= j < i ==> input@[j] == bytes@[start + j],
            decreases 32 - i,
        {
            input[i] = bytes[start + i];
            i = i + 1;
        }
        assert(input@ =~= id_text(s.spec_bytes()));
        match decode(&input) {
            Ok(out) => Ok(Bid(out)),
            Err(e) => Err(e),
        }
    }

    /// Construct from parts: the tag hash, the timestamp (of which the low 48
    /// bits are kept) and the random component.
    pub fn from_parts(tag_hash: u32, timestamp_ms: u64, random: &[u8; 10]) -> (b: Self)
        ensures
            b@ == id_layout(tag_hash, timestamp_ms, random@),
    {
        let mut bytes = [0u8; 20];
        bytes[0] = (tag_hash >> 24u32) as u8;
        bytes[1] = (tag_hash >> 16u32) as u8;
        bytes[2] = (tag_hash >> 8u32) as u8;
        bytes[3] = tag_hash as u8;
        bytes[4] = (timestamp_ms >> 40u64) as u8;
        bytes[5] = (timestamp_ms >> 32u64) as u8;
        bytes[6] = (timestamp_ms >> 24u64) as u8;
        bytes[7] = (timestamp_ms >> 16u64) as u8;
        bytes[8] = (timestamp_ms >> 8u64) as u8;
        bytes[9] = timestamp_ms as u8;
        let mut i: usize = 0;
        while i < 10
            invariant
                i <= 10,
                bytes@.len() == 20,
                forall|j: int| 0 <= j < 10 ==> bytes@[j] == id_layout(tag_hash, timestamp_ms, random@)[j],
                forall|j: int| 10 <= j < 10 + i ==> bytes@[j] == random@[j - 10],
            decreases 10 - i,
        {
            bytes[10 + i] = random[i];
            i = i + 1;
        }
        let b = Bid(bytes);
        assert(b@ =~= id_layout(tag_hash, timestamp_ms, random@));
        b
    }

    /// The nil (all-zero) identifier.
    pub fn nil() -> (b: Self)
        ensures
            b@ == repeat_byte(0, 20),
    {
        let b = Bid([0u8; 20]);
        assert(b@ =~= repeat_byte(0, 20));
        b
    }

    /// Whether this is the nil identifier.
    pub fn is_nil(&self) -> (r: bool)
        ensures
            r == (self@ == repeat_byte(0, 20)),
    {
        let mut i: usize = 0;
        while i < 20
            invariant
                i <= 20,
                forall|j: int| 0 <= j < i ==> self@[j] == 0,
            decreases 20 - i,
        {
            if self.0[i] != 0 {
                assert(self@ != repeat_byte(0, 20)) by {
                    assert(repeat_byte(0, 20)[i as int] == 0);
                }
                return false;
            }
            i = i + 1;
        }
        assert(self@ =~= repeat_byte(0, 20));
        true
    }

    /// The 32-bit tag hash (bytes 0..4).
    pub fn tag_hash(&self) -> (h: u32)
        ensures
            h == u32_from_be(self@.subrange(0, 4)),
    {
        ((self.0[0] as u32) << 24u32) | ((self.0[1] as u32) << 16u32) | ((self.0[2] as u32) << 8u32)
            | (self.0[3] as u32)
    }

    /// The 48-bit Unix timestamp in milliseconds (bytes 4..10).
    pub fn timestamp_ms(&self) -> (t: u64)
        ensures
            t == u48_from_be(self@.subrange(4, 10)),
    {
        ((self.0[4] as u64) << 40u64) | ((self.0[5] as u64) << 32u64) | ((self.0[6] as u64) << 24u64)
            | ((self.0[7] as u64) << 16u64) | ((self.0[8] as u64) << 8u64) | (self.0[9] as u64)
    }

    /// The 80-bit random component (bytes 10..20).
    pub fn random(&self) -> (r: [u8; 10])
        ensures
            r@ == self@.subrange(10, 20),
    {
        let mut r = [0u8; 10];
        let mut i: usize = 0;
        while i < 10
            invariant
                i <= 10,
                r@.len() == 10,
                forall|j: int| 0 <= j < i ==> r@[j] == self@[10 + j],
            decreases 10 - i,
        {
            r[i] = self.0[10 + i];
            i = i + 1;
        }
        assert(r@ =~= self@.subrange(10, 20));
        r
    }

    /// Borrow the raw 20 bytes.
    pub fn as_bytes(&self) -> (r: &[u8; 20])
        ensures
            r@ == self@,
    {
        &self.0
    }

    /// Consume into the raw 20 bytes.
    pub fn to_bytes(self) -> (r: [u8; 20])
        ensures
            r@ == self@,
    {
        self.0
    }

    /// The tag hash of a tag: FNV-1a of its UTF-8 bytes.
    pub fn hash_tag(tag: &str) -> (h: u32)
        ensures
            h == spec_fnv1a_32(tag.spec_bytes()),
    {
        fnv1a_32(tag.as_bytes())
    }
}

/// The text of an identifier: its 32 Base32 characters.
pub open spec fn spec_display(b: Seq<u8>) -> Seq<char> {
    spec_encode(b).map_values(|c: u8| c as char)
}

/// What follows the first `-` of a byte string, if it has one.
pub open spec fn after_first_dash(s: Seq<u8>) -> Option<Seq<u8>>
    decreases s.len(),
{
    if s.len() == 0 {
        None
    } else if s[0] == 45 {
        Some(s.drop_first())
    } else {
        after_first_dash(s.drop_first())
    }
}

/// The part of a text that holds the identifier: all of it, or what follows
/// its first `-` when it has a tag prefix.
pub open spec fn id_text(s: Seq<u8>) -> Seq<u8> {
    match after_first_dash(s) {
        Some(t) => t,
        None => s,
    }
}

/// Where the identifier's characters start: after the first `-`, or at 0.
fn text_start(bytes: &[u8]) -> (k: usize)
    ensures
        k <= bytes@.len(),
        bytes@.subrange(k as int, bytes@.len() as int) == id_text(bytes@),
{
    let mut i: usize = 0;
    assert(bytes@.subrange(0, bytes@.len() as int) =~= bytes@);
    while i < bytes.len()
        invariant
            i <= bytes@.len(),
            after_first_dash(bytes@) == after_first_dash(bytes@.subrange(i as int, bytes@.len() as int)),
        decreases bytes.len() - i,
    {
        let ghost rest = bytes@.subrange(i as int, bytes@.len() as int);
        assert(rest.drop_first() =~= bytes@.subrange(i + 1, bytes@.len() as int));
        if bytes[i] == 45 {
            return i + 1;
        }
        i = i + 1;
    }
    assert(bytes@.subrange(i as int, bytes@.len() as int) =~= Seq::<u8>::empty());
    assert(bytes@.subrange(0, bytes@.len() as int) =~= bytes@);
    0
}

impl core::str::FromStr for Bid {
    type Err = BidError;

    fn from_str(s: &str) -> (r: Result<Bid, BidError>)
        ensures
            match r {
                Ok(b) => {
                    &&& id_text(s.spec_bytes()).len() == 32
                    &&& spec_decode(id_text(s.spec_bytes())) == Ok::<Seq<u8>, int>(b@)
                },
                Err(e) => if id_text(s.spec_bytes()).len() != 32 {
                    e matches BidError::InvalidLength(n) && n == id_text(s.spec_bytes()).len()
                } else {
                    &&& spec_decode(id_text(s.spec_bytes())) matches Err(p)
                    &&& e matches BidError::InvalidString(m)
                    &&& m@ == bad_symbol_message(id_text(s.spec_bytes()), p)
                },
            },
    {
        Bid::parse_str(s)
    }
}

impl From<[u8; 20]> for Bid {
    fn from(bytes: [u8; 20]) -> (b: Bid) {
        Bid(bytes)
    }
}

impl vstd::std_specs::convert::FromSpecImpl<[u8; 20]> for Bid {
    open spec fn obeys_from_spec() -> bool {
        true
    }

    closed spec fn from_spec(v: [u8; 20]) -> Bid {
        Bid(v)
    }
}

impl From<Bid> for [u8; 20] {
    fn from(bid: Bid) -> (r: [u8; 20]) {
        bid.0
    }
}

impl vstd::std_specs::convert::FromSpecImpl<Bid> for [u8; 20] {
    open spec fn obeys_from_spec() -> bool {
        true
    }

    closed spec fn from_spec(v: Bid) -> [u8; 20] {
        v.0
    }
}

impl AsRef<[u8]> for Bid {
    fn as_ref(&self) -> (r: &[u8])
        ensures
            r@ == self@,
    {
        &self.0
    }
}

// ── Laws of the layout ───────────────────────────────────────────────

/// The accessors give back the parts an identifier was built from; the
/// timestamp comes back modulo 2^48.
pub proof fn lemma_parts_round_trip(tag_hash: u32, timestamp_ms: u64, random: Seq<u8>)
    requires
        random.len() == 10,
    ensures
        u32_from_be(id_layout(tag_hash, timestamp_ms, random).subrange(0, 4)) == tag_hash,
        u48_from_be(id_layout(tag_hash, timestamp_ms, random).subrange(4, 10)) == timestamp_ms
            % 0x1_0000_0000_0000,
        id_layout(tag_hash, timestamp_ms, random).subrange(10, 20) == random,
{
    let s = id_layout(tag_hash, timestamp_ms, random);
    assert(s.subrange(0, 4) =~= u32_be_bytes(tag_hash));
    assert(s.subrange(4, 10) =~= u48_be_bytes(timestamp_ms));
    assert(s.subrange(10, 20) =~= random);
    lemma_u32_be_round_trip(tag_hash);
    lemma_u48_be_round_trip(timestamp_ms);
}

/// Building an identifier from the parts that the accessors read gives the
/// identifier back.
pub proof fn lemma_id_from_its_parts(s: Seq<u8>)
    requires
        s.len() == 20,
    ensures
        id_layout(u32_from_be(s.subrange(0, 4)), u48_from_be(s.subrange(4, 10)), s.subrange(10, 20))
            == s,
{
    lemma_u32_from_be_round_trip(s.subrange(0, 4));
    lemma_u48_from_be_round_trip(s.subrange(4, 10));
    assert(id_layout(u32_from_be(s.subrange(0, 4)), u48_from_be(s.subrange(4, 10)), s.subrange(10, 20))
        =~= s);
}

/// Identifiers with a smaller tag hash come first, whatever their other parts.
pub proof fn lemma_order_by_tag_hash(
    tag1: u32,
    tag2: u32,
    time1: u64,
    time2: u64,
    random1: Seq<u8>,
    random2: Seq<u8>,
)
    requires
        tag1 < tag2,
    ensures
        lex_lt(id_layout(tag1, time1, random1), id_layout(tag2, time2, random2)),
{
    lemma_u32_be_bytes_order(tag1, tag2);
    lemma_lex_lt_append(
        u32_be_bytes(tag1),
        u32_be_bytes(tag2),
        u48_be_bytes(time1) + random1,
        u48_be_bytes(time2) + random2,
    );
    assert(id_layout(tag1, time1, random1) =~= u32_be_bytes(tag1) + (u48_be_bytes(time1) + random1));
    assert(id_layout(tag2, time2, random2) =~= u32_be_bytes(tag2) + (u48_be_bytes(time2) + random2));
}

/// Identifiers with one tag hash sort by time: an earlier timestamp (within
/// the 48 bits that are kept) comes first, whatever the random components.
pub proof fn lemma_order_by_time(tag: u32, time1: u64, time2: u64, random1: Seq<u8>, random2: Seq<u8>)
    requires
        time1 < time2 < 0x1_0000_0000_0000,
    ensures
        lex_lt(id_layout(tag, time1, random1), id_layout(tag, time2, random2)),
{
    lemma_u48_be_bytes_order(time1, time2);
    lemma_lex_lt_append(u48_be_bytes(time1), u48_be_bytes(time2), random1, random2);
    lemma_lex_lt_common_prefix(
        u32_be_bytes(tag),
        u48_be_bytes(time1) + random1,
        u48_be_bytes(time2) + random2,
    );
    assert(id_layout(tag, time1, random1) =~= u32_be_bytes(tag) + (u48_be_bytes(time1) + random1));
    assert(id_layout(tag, time2, random2) =~= u32_be_bytes(tag) + (u48_be_bytes(time2) + random2));
}

/// Identifiers with different tag hashes are different.
pub proof fn lemma_distinct_tags_distinct_ids(
    tag1: u32,
    tag2: u32,
    time1: u64,
    time2: u64,
    random1: Seq<u8>,
    random2: Seq<u8>,
)
    requires
        tag1 != tag2,
    ensures
        id_layout(tag1, time1, random1) != id_layout(tag2, time2, random2),
{
    if tag1 < tag2 {
        lemma_order_by_tag_hash(tag1, tag2, time1, time2, random1, random2);
    } else {
        lemma_order_by_tag_hash(tag2, tag1, time2, time1, random2, random1);
    }
    lemma_lex_lt_irreflexive(id_layout(tag1, time1, random1));
    lemma_lex_lt_irreflexive(id_layout(tag2, time2, random2));
}

/// A byte string without `-` has no tag prefix.
proof fn lemma_no_dash(s: Seq<u8>)
    requires
        forall|i: int| 0 <= i < s.len() ==> s[i] != 45,
    ensures
        after_first_dash(s) is None,
    decreases s.len(),
{
    if s.len() > 0 {
        lemma_no_dash(s.drop_first());
    }
}

/// A prefix without `-`, then `-`, then `t`: the identifier's part is `t`.
proof fn lemma_prefix_dash(prefix: Seq<u8>, t: Seq<u8>)
    requires
        forall|i: int| 0 <= i < prefix.len() ==> prefix[i] != 45,
    ensures
        after_first_dash(prefix + seq![45u8] + t) == Some(t),
    decreases prefix.len(),
{
    let s = prefix + seq![45u8] + t;
    if prefix.len() == 0 {
        assert(s.drop_first() =~= t);
    } else {
        lemma_prefix_dash(prefix.drop_first(), t);
        assert(s.drop_first() =~= prefix.drop_first() + seq![45u8] + t);
    }
}

/// The text of an identifier parses back to it, bare or behind any tag prefix
/// that holds no `-`.
pub proof fn lemma_display_parses(b: Seq<u8>, prefix: Seq<u8>)
    requires
        b.len() == 20,
        forall|i: int| 0 <= i < prefix.len() ==> prefix[i] != 45,
    ensures
        id_text(spec_encode(b)) == spec_encode(b),
        id_text(prefix + seq![45u8] + spec_encode(b)) == spec_encode(b),
        spec_decode(spec_encode(b)) == Ok::<Seq<u8>, int>(b),
{
    lemma_encode_upper_case(b);
    assert forall|i: int| 0 <= i < spec_encode(b).len() implies spec_encode(b)[i] != 45 by {
        assert(spec_encode(b)[i] >= 48);
    }
    lemma_no_dash(spec_encode(b));
    lemma_prefix_dash(prefix, spec_encode(b));
    lemma_decode_encode(b);
}

/// The characters of an identifier's text are ASCII, so its UTF-8 bytes are
/// its Base32 bytes.
pub proof fn lemma_display_bytes(b: Seq<u8>)
    requires
        b.len() == 20,
    ensures
        encode_utf8(spec_display(b)) == spec_encode(b),
{
    let chars = spec_display(b);
    lemma_encode_upper_case(b);
    assert(is_ascii_chars(chars)) by {
        assert forall|i: int| 0 <= i < chars.len() implies '\0' <= #[trigger] chars[i] <= '\u{7f}' by {
            assert(spec_encode(b)[i] < 128);
        }
    }
    is_ascii_chars_encode_utf8(chars);
    assert forall|i: int| 0 <= i < chars.len() implies encode_utf8(chars)[i] == spec_encode(b)[i] by {
        assert(chars[i] as u8 == encode_utf8(chars)[i]);
        assert(chars[i] == spec_encode(b)[i] as char);
    }
    assert(encode_utf8(chars) =~= spec_encode(b));
}

/// Text that reads like an identifier's `to_string` parses back to it.
pub proof fn lemma_parse_of_display(b: Bid, s: &str)
    requires
        s@ == spec_display(b@),
    ensures
        id_text(s.spec_bytes()).len() == 32,
        spec_decode(id_text(s.spec_bytes())) == Ok::<Seq<u8>, int>(b@),
{
    lemma_display_bytes(b@);
    lemma_display_parses(b@, Seq::empty());
}

/// Bytes turned into an identifier and back are unchanged.
pub proof fn lemma_bytes_round_trip(v: [u8; 20])
    ensures
        <Bid as vstd::std_specs::convert::FromSpec<[u8; 20]>>::from_spec(v)@ == v@,
        <[u8; 20] as vstd::std_specs::convert::FromSpec<Bid>>::from_spec(
            <Bid as vstd::std_specs::convert::FromSpec<[u8; 20]>>::from_spec(v),
        ) == v,
{
}

/// The nil identifier has tag hash 0, timestamp 0 and an all-zero random
/// component, and it is the identifier built from those parts.
pub proof fn lemma_nil_parts()
    ensures
        u32_from_be(repeat_byte(0, 20).subrange(0, 4)) == 0,
        u48_from_be(repeat_byte(0, 20).subrange(4, 10)) == 0,
        repeat_byte(0, 20).subrange(10, 20) == repeat_byte(0, 10),
        id_layout(0, 0, repeat_byte(0, 10)) == repeat_byte(0, 20),
{
    let z = repeat_byte(0, 20);
    assert(z[0] == 0 && z[1] == 0 && z[2] == 0 && z[3] == 0);
    assert(z[4] == 0 && z[5] == 0 && z[6] == 0 && z[7] == 0 && z[8] == 0 && z[9] == 0);
    assert(((0u8 as u32) << 24u32) | ((0u8 as u32) << 16u32) | ((0u8 as u32) << 8u32) | (0u8 as u32) == 0u32)
        by (bit_vector);
    assert(((0u8 as u64) << 40u64) | ((0u8 as u64) << 32u64) | ((0u8 as u64) << 24u64) | ((0u8 as u64)
        << 16u64) | ((0u8 as u64) << 8u64) | (0u8 as u64) == 0u64) by (bit_vector);
    assert(z.subrange(10, 20) =~= repeat_byte(0, 10));
    assert(((0u32 >> 24u32) as u8) == 0u8 && ((0u32 >> 16u32) as u8) == 0u8 && ((0u32 >> 8u32) as u8) == 0u8
        && (0u32 as u8) == 0u8) by (bit_vector);
    assert(((0u64 >> 40u64) as u8) == 0u8 && ((0u64 >> 32u64) as u8) == 0u8 && ((0u64 >> 24u64) as u8)
        == 0u8 && ((0u64 >> 16u64) as u8) == 0u8 && ((0u64 >> 8u64) as u8) == 0u8 && (0u64 as u8) == 0u8)
        by (bit_vector);
    assert(id_layout(0, 0, repeat_byte(0, 10)) =~= z);
}

/// An identifier turned into its bytes and back is unchanged, and the bytes
/// are its view.
pub proof fn lemma_bid_round_trip(b: Bid)
    ensures
        <[u8; 20] as vstd::std_specs::convert::FromSpec<Bid>>::from_spec(b)@ == b@,
        <Bid as vstd::std_specs::convert::FromSpec<[u8; 20]>>::from_spec(
            <[u8; 20] as vstd::std_specs::convert::FromSpec<Bid>>::from_spec(b),
        ) == b,
{
}

/// The UTF-8 bytes of a character other than `-` hold no `-` byte: an ASCII
/// character is its own byte, and every byte of a longer encoding has its
/// high bit set.
proof fn lemma_char_bytes_no_dash(c: char)
    requires
        c != '-',
    ensures
        forall|k: int|
            0 <= k < encode_scalar(c as u32).len() ==> #[trigger] encode_scalar(c as u32)[k] != 45,
{
    let v = c as u32;
    assert(v != 45);
    if has_width_1_encoding(v) {
        assert((v & 0x7Fu32) as u8 != 45u8) by (bit_vector)
            requires
                v <= 0x7F,
                v != 45,
        ;
    } else {
        assert((0xC0u8 | ((v >> 6u32) & 0x1Fu32) as u8) >= 0x80u8) by (bit_vector);
        assert((0xE0u8 | ((v >> 12u32) & 0x0Fu32) as u8) >= 0x80u8) by (bit_vector);
        assert((0xF0u8 | ((v >> 18u32) & 0x7u32) as u8) >= 0x80u8) by (bit_vector);
        assert((0x80u8 | (v & 0x3Fu32) as u8) >= 0x80u8) by (bit_vector);
        assert((0x80u8 | ((v >> 6u32) & 0x3Fu32) as u8) >= 0x80u8) by (bit_vector);
        assert((0x80u8 | ((v >> 12u32) & 0x3Fu32) as u8) >= 0x80u8) by (bit_vector);
        if has_width_2_encoding(v) {
        } else if has_width_3_encoding(v) {
        } else {
        }
    }
}

/// Text without `-` has UTF-8 bytes without a `-` byte.
proof fn lemma_text_bytes_no_dash(chars: Seq<char>)
    requires
        forall|i: int| 0 <= i < chars.len() ==> chars[i] != '-',
    ensures
        forall|k: int| 0 <= k < encode_utf8(chars).len() ==> #[trigger] encode_utf8(chars)[k] != 45,
    decreases chars.len(),
{
    if chars.len() > 0 {
        let rest = chars.drop_first();
        lemma_text_bytes_no_dash(rest);
        lemma_char_bytes_no_dash(chars[0]);
        let head = encode_scalar(chars[0] as u32);
        assert(encode_utf8(chars) == head + encode_utf8(rest));
        assert forall|k: int| 0 <= k < encode_utf8(chars).len() implies #[trigger] encode_utf8(
            chars,
        )[k] != 45 by {
            if k < head.len() {
                assert(head[k] != 45);
            } else {
                assert(encode_utf8(rest)[k - head.len()] != 45);
            }
        }
    }
}

/// The UTF-8 bytes of joined texts are the joined bytes.
proof fn lemma_text_bytes_concat(a: Seq<char>, b: Seq<char>)
    ensures
        encode_utf8(a + b) == encode_utf8(a) + encode_utf8(b),
    decreases a.len(),
{
    if a.len() == 0 {
        assert(a + b =~= b);
        assert(encode_utf8(a) =~= Seq::<u8>::empty());
        assert(encode_utf8(a) + encode_utf8(b) =~= encode_utf8(b));
    } else {
        lemma_text_bytes_concat(a.drop_first(), b);
        assert((a + b).drop_first() =~= a.drop_first() + b);
        assert((a + b)[0] == a[0]);
        assert(encode_utf8(a + b) =~= encode_utf8(a) + encode_utf8(b));
    }
}

/// Text that reads as any prefix without `-`, then `-`, then an identifier's
/// `to_string`, parses back to that identifier.
pub proof fn lemma_parse_with_any_prefix(b: Bid, prefix: Seq<char>, s: &str)
    requires
        forall|i: int| 0 <= i < prefix.len() ==> prefix[i] != '-',
        s@ == prefix + seq!['-'] + spec_display(b@),
    ensures
        id_text(s.spec_bytes()) == spec_encode(b@),
        spec_decode(id_text(s.spec_bytes())) == Ok::<Seq<u8>, int>(b@),
{
    lemma_text_bytes_no_dash(prefix);
    lemma_text_bytes_concat(prefix + seq!['-'], spec_display(b@));
    lemma_text_bytes_concat(prefix, seq!['-']);
    let dash = seq!['-'];
    assert(dash.drop_first() =~= Seq::<char>::empty());
    assert(encode_utf8(dash.drop_first()) =~= Seq::<u8>::empty());
    assert('-' as u32 == 45u32);
    assert((45u32 & 0x7Fu32) as u8 == 45u8) by (bit_vector);
    assert(encode_scalar('-' as u32) =~= seq![45u8]);
    assert(encode_utf8(dash) =~= seq![45u8]);
    lemma_display_bytes(b@);
    lemma_display_parses(b@, encode_utf8(prefix));
}

/// FNV-1a consumes every byte: the hash of `data` followed by `byte` is the
/// hash of `data`, exclusive-or `byte`, times the prime `0x01000193` modulo
/// 2^32; the hash of no bytes is the offset basis `0x811c9dc5`.
pub proof fn lemma_fnv1a_32_step(data: Seq<u8>, byte: u8)
    ensures
        spec_fnv1a_32(Seq::<u8>::empty()) == 0x811c_9dc5u32,
        spec_fnv1a_32(data.push(byte)) == (((spec_fnv1a_32(data) ^ (byte as u32)) as nat
            * 0x0100_0193nat) % 0x1_0000_0000nat) as u32,
{
    assert(data.push(byte).drop_last() =~= data);
}

/// FNV-1a is the left fold, over all the bytes, of "exclusive-or the byte,
/// then multiply by `0x01000193` modulo 2^32", from `0x811c9dc5`.
pub proof fn lemma_fnv1a_32_is_fold(data: Seq<u8>)
    ensures
        spec_fnv1a_32(data) == data.fold_left(
            0x811c_9dc5u32,
            |h: u32, b: u8| (((h ^ (b as u32)) as nat * 0x0100_0193nat) % 0x1_0000_0000nat) as u32,
        ),
    decreases data.len(),
{
    if data.len() > 0 {
        lemma_fnv1a_32_is_fold(data.drop_last());
    }
}

/// The identifier of a successful `generate` (or `Bid::new`) call: tag hash 0;
/// when the clock's reading, cut to 64 bits, is past the generator's last
/// millisecond, that reading (modulo 2^48) as the timestamp and the random
/// bytes drawn in that call as the random component; otherwise the last
/// millisecond, and the last random component plus one.
pub proof fn lemma_generate_uses_clock_and_random(before: Generator, after: Generator)
    requires
        generate_outcome(before, after, Ok(())),
    ensures
        spec_timestamp_from_millis(after.clock_readings().last()) matches Some(now) && {
            let id = after.current_id();
            &&& u32_from_be(id.subrange(0, 4)) == 0
            &&& now > before.last_ms() ==> {
                &&& u48_from_be(id.subrange(4, 10)) == now % 0x1_0000_0000_0000
                &&& id.subrange(10, 20) == after.random_draws().last()
                &&& after.random_draws().drop_last() == before.random_draws()
            }
            &&& now <= before.last_ms() ==> {
                &&& u48_from_be(id.subrange(4, 10)) == before.last_ms() % 0x1_0000_0000_0000
                &&& be_value(id.subrange(10, 20)) == be_value(before.last_random()) + 1
                &&& after.random_draws() == before.random_draws()
            }
        },
{
    after.lemma_random_len();
    lemma_parts_round_trip(0, after.last_ms(), after.last_random());
}

/// The identifier of a successful `Bid::tagged` call: the tag's FNV-1a hash in
/// bytes 0..4, and in bytes 4..20 the timestamp and random component that
/// `generate` would give from the same clock reading and random bytes.
pub proof fn lemma_tagged_uses_clock_and_random(
    tag: Seq<u8>,
    before: Generator,
    after: Generator,
    b: Seq<u8>,
)
    requires
        generate_outcome(before, after, Ok(())),
        b == u32_be_bytes(spec_fnv1a_32(tag)) + after.current_id().subrange(4, 20),
    ensures
        spec_timestamp_from_millis(after.clock_readings().last()) matches Some(now) && {
            &&& u32_from_be(b.subrange(0, 4)) == spec_fnv1a_32(tag)
            &&& now > before.last_ms() ==> {
                &&& u48_from_be(b.subrange(4, 10)) == now % 0x1_0000_0000_0000
                &&& b.subrange(10, 20) == after.random_draws().last()
            }
            &&& now <= before.last_ms() ==> {
                &&& u48_from_be(b.subrange(4, 10)) == before.last_ms() % 0x1_0000_0000_0000
                &&& be_value(b.subrange(10, 20)) == be_value(before.last_random()) + 1
            }
        },
{
    lemma_generate_uses_clock_and_random(before, after);
    let id = after.current_id();
    after.lemma_random_len();
    assert(b.subrange(0, 4) =~= u32_be_bytes(spec_fnv1a_32(tag)));
    assert(b.subrange(4, 10) =~= id.subrange(4, 10));
    assert(b.subrange(10, 20) =~= id.subrange(10, 20));
    lemma_u32_be_round_trip(spec_fnv1a_32(tag));
}

} // verus!
