//! Adaptive dictionary (LZW) compression over byte streams.
//!
//! A byte sequence is turned into a stream of fixed-width 16-bit codes that
//! reference a dynamically grown table of previously seen substrings, and is
//! reconstructed from that code stream alone: the table itself is never
//! transmitted.  Encoder and decoder each rebuild the table from the codes,
//! staying in lock step through the periodic generation resets.

pub mod codec;
pub mod laws;
pub mod stream;
pub mod table;
pub mod wire;
