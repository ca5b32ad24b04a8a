//! Range Asymmetric Numeral Systems (rANS) entropy coding.
//!
//! The crate offers two bit-exact coder variants sharing one algorithmic
//! structure: a byte-aligned coder (32-bit state, 8-bit I/O units) and a
//! word-aligned coder (64-bit state, 32-bit I/O units), each in an
//! interleaved multi-channel form with single-channel conveniences.
//! Callers supply per-symbol `(cumulative frequency, frequency, scale)`
//! triples; the coders turn symbol sequences into raw byte streams and back.
//!
//! Encoded symbols come back out in reverse order: rANS is a stack.
//! The mathematical model of every operation lives in [`model`], and the
//! round-trip laws relating encoding to decoding are proved there.

pub use decoder::{RansDecSymbol, RansDecoder, RansDecoderMulti};
pub use encoder::{RansEncSymbol, RansEncoder, RansEncoderMulti};

/// 64-bit rANS decoder.
pub mod b64_decoder;
/// 64-bit rANS encoder.
pub mod b64_encoder;
/// Byte-aligned rANS decoder.
pub mod byte_decoder;
/// Byte-aligned rANS encoder.
pub mod byte_encoder;
mod decoder;
mod encoder;
/// Mathematical model of the rANS state machine, and its round-trip laws.
pub mod model;
/// `MutCow` smart pointer to work with mutably-borrowed/owned data in a
/// unified way.
pub mod mut_cow;
