//! Crockford's Base32: a byte-to-text codec over a 32-symbol alphabet that
//! leaves out visually ambiguous letters and decodes tolerantly (any case,
//! `I`/`L` read as `1`, `O` read as `0`).
//!
//! The codec is a pair of pure functions on complete in-memory buffers.
//! Their contracts are stated over a bit-level model of the payload, and the
//! laws that relate them are proved in [`laws`].

pub mod alphabet;
pub mod bits;
pub mod decoder;
pub mod encoder;
pub mod laws;

pub use alphabet::{symbol_for, value_of};
pub use decoder::{decode, decoded_length};
pub use encoder::{encode, encoded_length};
