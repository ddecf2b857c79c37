//! The error type of the library.

use vstd::prelude::*;

verus! {

/// What can go wrong when generating or parsing an identifier.
#[derive(Debug)]
pub enum BidError {
    /// More than 2^80 identifiers were asked for within one millisecond.
    MonotonicOverflow,
    /// The text holds a character outside the Base32 alphabet; the string
    /// says which one and where.
    InvalidString(String),
    /// The text, once its prefix is dropped, is not 32 bytes long.
    InvalidLength(usize),
    /// The operating system's random source failed; the string is its message.
    RandomSource(String),
    /// The system clock reads earlier than the Unix epoch.
    ClockBeforeEpoch,
}

} // verus!
