//! Monotonic generation of untagged identifiers.
//!
//! A [`Generator`] remembers the millisecond and the random component of the
//! last identifier it made. When the clock has moved past that millisecond it
//! draws fresh random bytes; otherwise (the same millisecond, or a clock that
//! went backwards) it keeps the last millisecond and adds one to the 80-bit
//! random component, so that identifiers from one generator keep increasing.
//! When that component is exhausted within one millisecond, calls fail with
//! `MonotonicOverflow` and leave the generator as it was until the clock moves on.

use crate::bid::{id_layout, Bid};
use crate::bytes::{be_value, lemma_be_value_carry, lemma_be_value_order, lemma_lex_lt_common_prefix,
    lemma_lex_lt_transitive,
    lemma_u48_be_bytes_order, lemma_lex_lt_append, lex_lt, repeat_byte, u32_be_bytes, u48_be_bytes};
use crate::error::BidError;
use vstd::prelude::*;

verus! {

/// The state of a monotonic identifier source.
///
/// Besides the last millisecond and random component, a generator keeps, as
/// ghost history, every clock reading and every batch of random bytes that
/// `generate` has taken, so that contracts can say what each call made of them.
pub struct Generator {
    last_ms: u64,
    last_random: [u8; 10],
    clock_readings: Ghost<Seq<Option<u128>>>,
    random_draws: Ghost<Seq<Seq<u8>>>,
}

/// The largest millisecond count that the 48-bit timestamp field holds, plus one.
pub open spec fn timestamp_limit() -> u64 {
    0x1_0000_0000_0000u64
}

impl Generator {
    /// The millisecond of the last identifier made.
    pub closed spec fn last_ms(&self) -> u64 {
        self.last_ms
    }

    /// The random component (ten bytes) of the last identifier made.
    pub closed spec fn last_random(&self) -> Seq<u8> {
        self.last_random@
    }

    /// The clock readings that `generate` has taken from this generator, in
    /// order: whole milliseconds since the Unix epoch, or `None` for a clock
    /// that read earlier than the epoch.
    pub closed spec fn clock_readings(&self) -> Seq<Option<u128>> {
        self.clock_readings@
    }

    /// The random bytes that `generate` has drawn for this generator, in order.
    pub closed spec fn random_draws(&self) -> Seq<Seq<u8>> {
        self.random_draws@
    }

    /// The random component always has ten bytes.
    pub proof fn lemma_random_len(&self)
        ensures
            self.last_random().len() == 10,
    {
    }

    /// The identifier that the state stands for: tag hash 0, the last
    /// millisecond and the last random component.
    pub open spec fn current_id(&self) -> Seq<u8> {
        id_layout(0, self.last_ms(), self.last_random())
    }

    /// A fresh generator: millisecond 0, an all-zero random component, and no
    /// clock reading or random bytes taken yet.
    pub fn new() -> (g: Self)
        ensures
            g.last_ms() == 0,
            g.last_random() == repeat_byte(0, 10),
            g.clock_readings() == Seq::<Option<u128>>::empty(),
            g.random_draws() == Seq::<Seq<u8>>::empty(),
    {
        let g = Generator {
            last_ms: 0,
            last_random: [0u8; 10],
            clock_readings: Ghost(Seq::empty()),
            random_draws: Ghost(Seq::empty()),
        };
        assert(g.last_random@ =~= repeat_byte(0, 10));
        g
    }

    /// The next identifier, given the clock's reading `now_ms` and the random
    /// bytes to use if the clock has moved past the last millisecond.
    ///
    /// A later millisecond takes `fresh_random` as the random component; any
    /// other reading keeps the last millisecond and adds one to the random
    /// component. When the component is already all `0xFF` the call fails with
    /// `MonotonicOverflow` and leaves the generator as it was, so that calls
    /// keep failing until the clock moves on and no identifier goes backwards.
    pub fn advance(&mut self, now_ms: u64, fresh_random: [u8; 10]) -> (r: Result<Bid, BidError>)
        ensures
            now_ms > old(self).last_ms() ==> {
                &&& final(self).last_ms() == now_ms
                &&& final(self).last_random() == fresh_random@
                &&& r matches Ok(b) && b@ == id_layout(0, now_ms, fresh_random@)
            },
            now_ms <= old(self).last_ms() ==> final(self).last_ms() == old(self).last_ms(),
            final(self).clock_readings() == old(self).clock_readings(),
            final(self).random_draws() == old(self).random_draws(),
            now_ms <= old(self).last_ms() && old(self).last_random() == repeat_byte(0xFF, 10) ==> {
                &&& r matches Err(BidError::MonotonicOverflow)
                &&& *final(self) == *old(self)
            },
            now_ms <= old(self).last_ms() && old(self).last_random() != repeat_byte(0xFF, 10) ==> {
                &&& be_value(final(self).last_random()) == be_value(old(self).last_random()) + 1
                &&& r matches Ok(b) && b@ == final(self).current_id()
            },
            r matches Ok(b) ==> (final(self).last_ms() < timestamp_limit() ==> lex_lt(
                old(self).current_id(),
                b@,
            )),
    {
        let ghost old_state = *self;
        if now_ms > self.last_ms {
            self.last_ms = now_ms;
            self.last_random = fresh_random;
            let b = Bid::from_parts(0, self.last_ms, &self.last_random);
            proof {
                if now_ms < timestamp_limit() {
                    lemma_step_increases(old_state, *self);
                }
            }
            Ok(b)
        } else {
            let mut next = self.last_random;
            let bumped = increment_random(&mut next);
            match bumped {
                Ok(()) => {
                    self.last_random = next;
                    let b = Bid::from_parts(0, self.last_ms, &self.last_random);
                    proof {
                        if self.last_ms < timestamp_limit() {
                            lemma_step_increases(old_state, *self);
                        }
                    }
                    Ok(b)
                },
                Err(e) => Err(e),
            }
        }
    }
}

/// Add one to a ten-byte (80-bit) big-endian number.
///
/// When every byte is already `0xFF` the number wraps to zero and the result
/// is `MonotonicOverflow`.
pub fn increment_random(random: &mut [u8; 10]) -> (r: Result<(), BidError>)
    ensures
        old(random)@ == repeat_byte(0xFF, 10) ==> {
            &&& r matches Err(BidError::MonotonicOverflow)
            &&& final(random)@ == repeat_byte(0, 10)
        },
        old(random)@ != repeat_byte(0xFF, 10) ==> {
            &&& r is Ok
            &&& be_value(final(random)@) == be_value(old(random)@) + 1
        },
{
    let ghost start = random@;
    let mut i: usize = 10;
    while i > 0
        invariant
            i <= 10,
            random@.len() == 10,
            start == old(random)@,
            forall|j: int| 0 <= j < i ==> random@[j] == start[j],
            forall|j: int| i <= j < 10 ==> random@[j] == 0,
            forall|j: int| i <= j < 10 ==> start[j] == 0xFF,
        decreases i,
    {
        i = i - 1;
        let b = random[i];
        if b < 255 {
            random[i] = b + 1;
            proof {
                let p = start.subrange(0, i as int);
                let k = (9 - i) as nat;
                lemma_be_value_carry(p, b, k);
                assert(start =~= p + seq![b] + repeat_byte(0xFF, k));
                assert(random@ =~= p + seq![(b + 1) as u8] + repeat_byte(0, k));
                assert(start[i as int] != 0xFF);
                assert(start != repeat_byte(0xFF, 10)) by {
                    assert(repeat_byte(0xFF, 10)[i as int] == 0xFF);
                }
            }
            return Ok(());
        }
        random[i] = 0;
    }
    assert(start =~= repeat_byte(0xFF, 10));
    assert(random@ =~= repeat_byte(0, 10));
    Err(BidError::MonotonicOverflow)
}

/// A successful step: the clock moved forward, or the millisecond stayed and
/// the random component went up by one.
pub open spec fn stepped(before: Generator, after: Generator) -> bool {
    ||| after.last_ms() > before.last_ms()
    ||| after.last_ms() == before.last_ms() && be_value(after.last_random()) == be_value(
        before.last_random(),
    ) + 1
}

/// Two states that stand for the same last identifier.
pub open spec fn same_ids(before: Generator, after: Generator) -> bool {
    &&& after.last_ms() == before.last_ms()
    &&& after.last_random() == before.last_random()
}

/// A failed step leaves the generator's last identifier as it was: the clock
/// read earlier than the Unix epoch, the random source failed, or the random
/// component was already all `0xFF` within one millisecond.
pub open spec fn failed_step(before: Generator, after: Generator, e: BidError) -> bool {
    &&& same_ids(before, after)
    &&& match e {
        BidError::ClockBeforeEpoch => true,
        BidError::RandomSource(_) => true,
        BidError::MonotonicOverflow => before.last_random() == repeat_byte(0xFF, 10),
        _ => false,
    }
}

/// Every successful step moves the generator to a greater identifier, as long
/// as its millisecond fits the 48-bit timestamp field.
pub proof fn lemma_step_increases(before: Generator, after: Generator)
    requires
        stepped(before, after),
        after.last_ms() < timestamp_limit(),
    ensures
        lex_lt(before.current_id(), after.current_id()),
{
    before.lemma_random_len();
    after.lemma_random_len();
    let (r0, r1) = (before.last_random(), after.last_random());
    if after.last_ms() > before.last_ms() {
        lemma_u48_be_bytes_order(before.last_ms(), after.last_ms());
        lemma_lex_lt_append(u48_be_bytes(before.last_ms()), u48_be_bytes(after.last_ms()), r0, r1);
        lemma_lex_lt_common_prefix(
            u32_be_bytes(0),
            u48_be_bytes(before.last_ms()) + r0,
            u48_be_bytes(after.last_ms()) + r1,
        );
        assert(before.current_id() =~= u32_be_bytes(0) + (u48_be_bytes(before.last_ms()) + r0));
        assert(after.current_id() =~= u32_be_bytes(0) + (u48_be_bytes(after.last_ms()) + r1));
    } else {
        lemma_be_value_order(r0, r1);
        lemma_lex_lt_common_prefix(u32_be_bytes(0) + u48_be_bytes(after.last_ms()), r0, r1);
    }
}

/// What one call of `generate` (or `Bid::new`, `Bid::tagged`) does to a
/// generator: a successful step, or a failure that leaves it as it was.
pub open spec fn one_call(before: Generator, after: Generator) -> bool {
    stepped(before, after) || same_ids(before, after)
}

/// Along a run of calls the identifier that the state stands for never goes
/// backwards.
proof fn lemma_run_never_decreases(states: Seq<Generator>, i: int, j: int)
    requires
        0 <= i <= j < states.len(),
        forall|k: int| 0 <= k < states.len() - 1 ==> one_call(#[trigger] states[k], states[k + 1]),
        forall|k: int| 0 <= k < states.len() ==> (#[trigger] states[k]).last_ms() < timestamp_limit(),
    ensures
        states[i].current_id() == states[j].current_id() || lex_lt(
            states[i].current_id(),
            states[j].current_id(),
        ),
    decreases j - i,
{
    if i < j {
        lemma_run_never_decreases(states, i, j - 1);
        let (a, b) = (states[j - 1], states[j]);
        assert(one_call(states[j - 1], states[j - 1 + 1]));
        assert(states[j - 1 + 1] == b);
        if stepped(a, b) {
            lemma_step_increases(a, b);
            if states[i].current_id() != a.current_id() {
                lemma_lex_lt_transitive(states[i].current_id(), a.current_id(), b.current_id());
            }
        }
    }
}

/// Identifiers from one generator strictly increase: if the states
/// `states[0], states[1], ...` are a generator before and after a run of
/// calls, and the call that led to `states[j]` succeeded, its identifier is
/// greater than that of any earlier successful call (each successful call
/// returns the identifier of the state it leaves), as long as every
/// millisecond fits the 48-bit timestamp field.
pub proof fn lemma_run_strictly_increases(states: Seq<Generator>, i: int, j: int)
    requires
        0 <= i < j < states.len(),
        forall|k: int| 0 <= k < states.len() - 1 ==> one_call(#[trigger] states[k], states[k + 1]),
        forall|k: int| 0 <= k < states.len() ==> (#[trigger] states[k]).last_ms() < timestamp_limit(),
        stepped(states[j - 1], states[j]),
    ensures
        lex_lt(states[i].current_id(), states[j].current_id()),
{
    lemma_run_never_decreases(states, i, j - 1);
    let (a, b) = (states[j - 1], states[j]);
    lemma_step_increases(a, b);
    if states[i].current_id() != a.current_id() {
        lemma_lex_lt_transitive(states[i].current_id(), a.current_id(), b.current_id());
    }
}

// ── The clock and the random source ──────────────────────────────────

#[verifier::external_type_specification]
#[verifier::external_body]
pub struct ExSystemTimeError(std::time::SystemTimeError);

#[verifier::external_type_specification]
#[verifier::external_body]
pub struct ExRandomError(getrandom::Error);

/// `SystemTime::elapsed` on `UNIX_EPOCH`: the time since the Unix epoch by the
/// system clock, or an error when the clock reads earlier than the epoch.
/// Nothing is stated of the value: it is the time.
#[verifier::external_body]
fn time_since_unix_epoch() -> (r: Result<std::time::Duration, std::time::SystemTimeError>) {
    std::time::UNIX_EPOCH.elapsed()
}

/// `Duration::as_millis`: the whole milliseconds of a duration. `Duration` is
/// opaque here, so nothing is stated of the count.
#[verifier::external_body]
fn duration_millis(d: &std::time::Duration) -> (r: u128) {
    d.as_millis()
}

/// `getrandom::getrandom`: fills `dest` from the operating system's random
/// source, or returns the source's error. The bytes are random, so nothing is
/// stated of them.
#[verifier::external_body]
fn fill_random(dest: &mut [u8; 10]) -> (r: Result<(), getrandom::Error>) {
    getrandom::getrandom(dest)
}

/// The text of a random-source error, through its `Display` impl
/// (`ToString::to_string`). The text comes from the operating system, so
/// nothing is stated of it.
#[verifier::external_body]
fn random_error_text(e: &getrandom::Error) -> (r: String) {
    e.to_string()
}

/// The timestamp for a clock reading of whole milliseconds since the Unix
/// epoch: the reading cut to 64 bits, or none for a clock that reads earlier
/// than the epoch.
pub open spec fn spec_timestamp_from_millis(ms: Option<u128>) -> Option<u64> {
    match ms {
        Some(m) => Some((m % 0x1_0000_0000_0000_0000) as u64),
        None => None,
    }
}

/// The timestamp for a clock reading: its whole milliseconds since the Unix
/// epoch cut to 64 bits, or `None` for a clock that reads earlier than the
/// epoch.
pub fn timestamp_from_millis(ms: Option<u128>) -> (t: Option<u64>)
    ensures
        t == spec_timestamp_from_millis(ms),
{
    match ms {
        Some(m) => {
            let t = (m % 0x1_0000_0000_0000_0000u128) as u64;
            Some(t)
        },
        None => None,
    }
}

/// The system clock's reading in milliseconds since the Unix epoch, cut to
/// 64 bits, or `None` when the clock reads earlier than the epoch. The ghost
/// half of the result is the clock's reading itself (whole milliseconds, or
/// `None` before the epoch); what the clock reads is not stated: it is the time.
pub fn current_timestamp_ms() -> (r: (Option<u64>, Ghost<Option<u128>>))
    ensures
        r.0 == spec_timestamp_from_millis(r.1@),
{
    let reading = match time_since_unix_epoch() {
        Ok(d) => Some(duration_millis(&d)),
        Err(_) => None,
    };
    let ghost read = reading;
    (timestamp_from_millis(reading), Ghost(read))
}

/// Whether a call succeeded, and with which error it failed.
pub open spec fn outcome_of(r: Result<Bid, BidError>) -> Result<(), BidError> {
    match r {
        Ok(_) => Ok(()),
        Err(e) => Err(e),
    }
}

/// What one call of `generate` does to a generator, in terms of the clock
/// reading it took (now the last of `after.clock_readings()`) and the random
/// bytes it drew (then the last of `after.random_draws()`):
/// - a clock before the Unix epoch fails with `ClockBeforeEpoch`;
/// - a reading (cut to 64 bits) past the last millisecond draws random bytes
///   and, if that succeeds, becomes the new millisecond with those bytes as the
///   random component; if it fails, the call fails with `RandomSource`;
/// - any other reading draws nothing, keeps the last millisecond, and adds one
///   to the random component, failing with `MonotonicOverflow` when it is all
///   `0xFF`.
/// A failed call leaves the last identifier as it was.
pub open spec fn generate_outcome(before: Generator, after: Generator, r: Result<(), BidError>) -> bool {
    &&& after.clock_readings().len() == before.clock_readings().len() + 1
    &&& after.clock_readings().drop_last() == before.clock_readings()
    &&& match spec_timestamp_from_millis(after.clock_readings().last()) {
        None => {
            &&& r == Err::<(), BidError>(BidError::ClockBeforeEpoch)
            &&& same_ids(before, after)
            &&& after.random_draws() == before.random_draws()
        },
        Some(now) => if now > before.last_ms() {
            match r {
                Ok(_) => {
                    &&& after.random_draws().len() == before.random_draws().len() + 1
                    &&& after.random_draws().drop_last() == before.random_draws()
                    &&& after.last_ms() == now
                    &&& after.last_random() == after.random_draws().last()
                },
                Err(e) => {
                    &&& e matches BidError::RandomSource(_)
                    &&& same_ids(before, after)
                    &&& after.random_draws() == before.random_draws()
                },
            }
        } else {
            &&& after.random_draws() == before.random_draws()
            &&& after.last_ms() == before.last_ms()
            &&& before.last_random() == repeat_byte(0xFF, 10) ==> {
                &&& r == Err::<(), BidError>(BidError::MonotonicOverflow)
                &&& same_ids(before, after)
            }
            &&& before.last_random() != repeat_byte(0xFF, 10) ==> {
                &&& r == Ok::<(), BidError>(())
                &&& be_value(after.last_random()) == be_value(before.last_random()) + 1
            }
        },
    }
}

/// Generate the next untagged identifier from `generator`, reading the clock
/// and, when the clock has moved past the last millisecond, the system's
/// random source.
///
/// Within one millisecond, and when the clock moves backwards, the last
/// millisecond is kept and the random component is incremented, so that every
/// identifier is greater than the one before. A clock that reads earlier than
/// the Unix epoch gives `ClockBeforeEpoch` and leaves the generator as it was.
pub fn generate(generator: &mut Generator) -> (r: Result<Bid, BidError>)
    ensures
        match r {
            Ok(b) => {
                &&& stepped(*old(generator), *final(generator))
                &&& b@ == final(generator).current_id()
                &&& final(generator).last_ms() < timestamp_limit() ==> lex_lt(
                    old(generator).current_id(),
                    b@,
                )
            },
            Err(e) => failed_step(*old(generator), *final(generator), e),
        },
        one_call(*old(generator), *final(generator)),
        generate_outcome(*old(generator), *final(generator), outcome_of(r)),
{
    let (now, Ghost(reading)) = current_timestamp_ms();
    proof {
        generator.clock_readings@ = generator.clock_readings@.push(reading);
        assert(generator.clock_readings@.drop_last() =~= old(generator).clock_readings@);
    }
    let now_ms = match now {
        Some(ms) => ms,
        None => {
            return Err(BidError::ClockBeforeEpoch);
        },
    };
    let mut fresh = [0u8; 10];
    if now_ms > generator.last_ms {
        match fill_random(&mut fresh) {
            Ok(()) => {},
            Err(e) => {
                return Err(BidError::RandomSource(random_error_text(&e)));
            },
        }
        proof {
            generator.random_draws@ = generator.random_draws@.push(fresh@);
            assert(generator.random_draws@.drop_last() =~= old(generator).random_draws@);
        }
    }
    generator.advance(now_ms, fresh)
}

} // verus!
