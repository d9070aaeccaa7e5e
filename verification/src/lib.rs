//! A hashids-style codec: reversibly encodes sequences of `u64` values into
//! short strings over a salt-shuffled alphabet, and decodes them back.
//!
//! The output is meant to obscure sequential identifiers in user-facing
//! contexts; it is deliberately *not* cryptographically secure.  A caller
//! configures a [`Harsh`] instance once through [`HarshBuilder`] (salt,
//! alphabet, separators, minimum length) and then encodes and decodes
//! against that immutable instance.
//!
//! The crate is organised around a mathematical model of the codec:
//! [`model`] states, over plain sequences, what every operation returns;
//! the executable operations in [`harsh`], [`builder`] and [`shuffle`] are
//! proved to return exactly those values; and [`laws`] proves the
//! properties the model enjoys, chiefly the round-trip theorem — decoding
//! an encoding recovers the encoded values — and the soundness of decoding
//! — whatever decoding accepts is exactly an encoding of what it returns.

pub mod builder;
pub mod bytes;
pub mod harsh;
pub mod laws;
pub mod model;
pub mod shuffle;

pub use crate::builder::{alphabet_and_separators, default_alphabet, default_separators};
pub use crate::builder::{BuildHarshError, HarshBuilder};
pub use crate::harsh::{create_nhash, hash, DecodeError, Error, Harsh};
pub use crate::shuffle::shuffle;
