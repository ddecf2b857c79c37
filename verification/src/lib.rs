//! Typed, sortable 160-bit identifiers.
//!
//! Each identifier is 20 bytes: a 32-bit hash of a type tag, a 48-bit
//! millisecond timestamp and an 80-bit random component, all big-endian.
//! Its text form is 32 Crockford Base32 characters; a human-readable
//! `tag-` prefix may stand in front of them and is dropped when parsing.

mod bid;
pub mod bytes;
pub mod encoding;
pub mod error;
pub mod generator;
mod text;

pub use bid::{fnv1a_32, Bid};
pub use error::BidError;
pub use generator::Generator;
