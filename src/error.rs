//! Errors of the block codecs.
use vstd::prelude::*;

verus! {

/// Why a block payload could not be decoded or encoded.
#[derive(Clone, Copy, Debug, PartialEq, Eq, Structural)]
pub enum WebmError {
    /// The track number's vint is absent, starts with a zero byte, or runs
    /// past the end of the buffer.
    VintReadError,
    /// The buffer ends before the two timecode bytes and the flags byte.
    TruncatedBlock,
    /// The element content handed over is not binary.
    TypeMismatch,
    /// The track number cannot be written as a vint of the requested length.
    VintWriteError,
}

} // verus!
