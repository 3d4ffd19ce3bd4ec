//! Error taxonomy of the decoder.

use vstd::prelude::*;

verus! {

/// Four-character chunk tag `MThd`, packed big-endian.
pub const FOUR_CC_MTHD: u32 = 0x4D546864;

/// Four-character chunk tag `MTrk`, packed big-endian.
pub const FOUR_CC_MTRK: u32 = 0x4D54726B;

/// What can go wrong while decoding an SMF byte stream.
#[derive(Clone, Copy, Debug, PartialEq, Eq, Structural)]
pub enum MidiError {
    /// A chunk carried the wrong four-character tag.
    InvalidChunkType { expected: u32, actual: u32, at: u64 },
    /// A chunk body was structurally wrong (header size, bad resolution).
    InvalidChunkData(u32),
    /// The header format is neither 0 nor 1, or no tempo map was found.
    UnsupportedFormat(i32),
    /// A set-tempo meta event whose payload length is not 3.
    InvalidTempoValue,
    /// A read ran past the available bytes.
    UnexpectedEof,
    /// A variable-length quantity spanned more than four bytes.
    OverlongVarlen,
}

} // verus!
