//! The ways a decode can fail.

use vstd::prelude::*;

verus! {

/// Everything that can go wrong while decoding an rpeg byte stream.
/// Each variant is terminal: the decoder reports the first failure it
/// meets and produces no partial result.
#[derive(Clone, Copy, Debug, PartialEq, Eq, Structural)]
pub enum RpegError {
    /// A byte of the fixed header literal (or the single space between the
    /// dimensions) did not match the byte that was read.
    UnexpectedByte { expected: u8, found: u8 },
    /// The input ended before a required literal byte was found.
    TruncatedInput,
    /// Neither a line feed nor a carriage-return-led sequence stood where a
    /// line terminator was required (or the input ended there).
    MalformedNewline,
    /// No decimal digit stood where a dimension was required.
    ExpectedNumber,
    /// A decimal dimension field exceeds the unsigned 32-bit range.
    IntegerOverflow,
    /// The payload length is not a multiple of four, so it cannot be split
    /// into whole words.
    MisalignedPayload { length: usize },
}

} // verus!
