//! Synthetic document collections: a Zipf-distributed term generator, the
//! variable-byte integer codec, and the writer and reader of the binary
//! collection format built on it.

pub mod vbyte;
pub mod zipf;
pub mod collection;
pub mod vocabulary;
pub mod units;
