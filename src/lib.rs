//! Fast byte-level input reading for numeric data.
//!
//! A [`Reader`] holds a chunk of input bytes and a cursor into it. The parsers
//! pull bytes one at a time and assume that tokens are separated by exactly one
//! byte: no whitespace is skipped.

pub mod laws;
pub mod number;
pub mod reader;

pub use number::{FracStep, IntParse, IntStep};
pub use reader::{Reader, CHUNK};
