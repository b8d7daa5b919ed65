//! What the codec reports when it cannot encode or decode.

use vstd::prelude::*;

verus! {

/// Why a pair of frames could not be encoded.
#[derive(Clone, Copy, Debug, PartialEq, Eq, Structural)]
pub enum EncodeError {
    /// The two frames differ in length, or their length is not a whole number
    /// of pixel pairs (a multiple of eight bytes).
    GeometryMismatch,
    /// The delta stream cannot be carried in one size-prefixed block: it is
    /// longer than [`crate::entropy::max_block_len`], or its block holds a
    /// run of `0xFF` bytes so long that the decoder would refuse it.
    TooLarge,
}

/// Why a compressed delta could not be applied. Whenever one of these is
/// returned the caller's buffer is left exactly as it was.
#[derive(Clone, Copy, Debug, PartialEq, Eq, Structural)]
pub enum DecodeError {
    /// The compressed bytes are not a well-formed size-prefixed block, or the
    /// block does not unpack to the length that its prefix declares.
    Entropy,
    /// A group of the delta stream is cut short: its header byte announces
    /// more payload than the stream still holds.
    MalformedDelta,
    /// A header bit names a pixel pair that lies beyond the end of the
    /// caller's buffer.
    BufferTooSmall,
}

} // verus!
