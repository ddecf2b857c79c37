# bid

Typed, sortable 160-bit identifiers: a 32-bit FNV-1a hash of a type tag, a
48-bit millisecond timestamp and an 80-bit random component, written as 32
Crockford Base32 characters, optionally behind a `tag-` prefix.

- `src/` is the verified library: the byte layout and its accessors,
  the Base32 encoder and decoder, the tag hash, text parsing, and the
  monotonic generator, with their contracts and laws (round trips, order
  preservation, case-insensitive decoding, and identifiers from one generator
  strictly increasing, a failed call included).
- `app/` holds what stays outside verification: a per-thread generator,
  the `Display`/`Debug`/`Error` impls and serde support.
- `tests/` exercises the library with the real `getrandom` and system clock.
