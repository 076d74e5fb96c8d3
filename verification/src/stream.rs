//! The byte- and code-stream contracts of the surrounding program.
//!
//! The codec itself works on in-memory values; a caller that streams from
//! files implements these traits over its buffered reader and writer and
//! shuttles plain bytes and codes across.  The checked readers return `None`
//! exactly once, at end of stream.

use vstd::prelude::*;

verus! {

/// A source of bytes and of 16-bit little-endian codes.
pub trait BufferedRead {
    /// Reads one byte; only called while the stream has bytes left.
    fn read_byte(&mut self) -> u8;

    /// Reads one 16-bit little-endian code; only called while the stream has
    /// a whole code left.
    fn read_u16(&mut self) -> u16;

    /// Reads one byte, or `None` at end of stream.
    fn read_byte_checked(&mut self) -> Option<u8>;

    /// Reads one 16-bit little-endian code, or `None` at end of stream.
    fn read_u16_checked(&mut self) -> Option<u16>;
}

/// A sink for 16-bit little-endian codes.
pub trait BufferedWrite {
    /// Appends one code, low byte first.
    fn write_u16(&mut self, output: u16);
}

} // verus!
