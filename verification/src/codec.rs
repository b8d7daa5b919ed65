//! The codec as its users see it: the delta stage and the entropy stage,
//! joined.

use crate::decode::diff_byte_header_copy_onto;
use crate::encode::diff_byte_header;
use crate::entropy::{
    block_bound, compress, declared_len, decompress, max_block_len, unpacked, FF_RUN_LIMIT,
};
use crate::error::{DecodeError, EncodeError};
use crate::format::{decoded, encoded, overlay_rgb};
use crate::laws::{lemma_encoded_fits_frame, lemma_round_trip};
use vstd::prelude::*;

verus! {

/// Whether two frames can be encoded against each other: they have one
/// length, and it is a whole number of pixel pairs.
pub open spec fn valid_geometry(prev: Seq<u8>, curr: Seq<u8>) -> bool {
    prev.len() == curr.len() && prev.len() % 8 == 0
}

/// What applying the compressed delta `block` makes of `buf`, or why it
/// cannot be applied.
pub open spec fn mixed_decoded(buf: Seq<u8>, block: Seq<u8>) -> Result<Seq<u8>, DecodeError> {
    match unpacked(block) {
        Some(delta) => decoded(buf, delta),
        None => Err(DecodeError::Entropy),
    }
}

/// Decoding a compressed delta undoes the encoding that it came from.
///
/// Let `prev` and `curr` be frames of one length, a multiple of eight, and
/// let `block` unpack to the delta stream that takes `prev` to `curr`, as
/// every block that [`mixed_comp`] returns for them does. Then applying
/// `block` to a copy of `prev` succeeds, and the copy then holds the colour
/// bytes of `curr` and the alpha bytes of `prev`.
pub proof fn lemma_mixed_round_trip(prev: Seq<u8>, curr: Seq<u8>, block: Seq<u8>)
    requires
        valid_geometry(prev, curr),
        unpacked(block) == Some(encoded(prev, curr)),
    ensures
        mixed_decoded(prev, block) == Ok::<Seq<u8>, DecodeError>(overlay_rgb(prev, curr)),
{
    lemma_round_trip(prev, curr);
}

/// Encodes the change from `prev` to `curr` and compresses it.
///
/// Frames of different lengths, or of a length that is not a multiple of
/// eight, are [`EncodeError::GeometryMismatch`]. Otherwise the delta stream
/// is packed as one size-prefixed LZ4 block, and [`mixed_decomp`] applied
/// with that block to a copy of `prev` yields the colours of `curr`. A
/// stream that [`compress`] cannot pack is [`EncodeError::TooLarge`]: one
/// longer than [`max_block_len`] always, one whose block stays below
/// [`FF_RUN_LIMIT`] bytes never. A stream is no longer than its frames, so
/// frames of up to 7 655 890 bytes are always encoded.
pub fn mixed_comp(prev: &[u8], curr: &[u8]) -> (res: Result<Vec<u8>, EncodeError>)
    ensures
        res == Err::<Vec<u8>, EncodeError>(EncodeError::GeometryMismatch) <==> !valid_geometry(
            prev@,
            curr@,
        ),
        valid_geometry(prev@, curr@) && encoded(prev@, curr@).len() > max_block_len() ==> res
            == Err::<Vec<u8>, EncodeError>(EncodeError::TooLarge),
        valid_geometry(prev@, curr@) && block_bound(prev@.len() as int) < FF_RUN_LIMIT
            ==> res is Ok,
        res matches Ok(block) ==> {
            &&& declared_len(block@) == encoded(prev@, curr@).len()
            &&& unpacked(block@) == Some(encoded(prev@, curr@))
            &&& mixed_decoded(prev@, block@) == Ok::<Seq<u8>, DecodeError>(
                overlay_rgb(prev@, curr@),
            )
        },
{
    if prev.len() != curr.len() || prev.len() % 8 != 0 {
        return Err(EncodeError::GeometryMismatch);
    }
    let bit_pack: Vec<u8> = diff_byte_header(prev, curr);
    proof {
        lemma_encoded_fits_frame(prev@, curr@);
    }
    match compress(bit_pack.as_slice()) {
        Ok(block) => {
            proof {
                lemma_mixed_round_trip(prev@, curr@, block@);
            }
            Ok(block)
        },
        Err(e) => Err(e),
    }
}

/// Decompresses `diff` and applies the delta stream in it to `buf`, which
/// holds the earlier frame, so that it holds the newer one.
///
/// A block that does not unpack is [`DecodeError::Entropy`]; a delta stream
/// that is cut short or reaches beyond `buf` is reported as
/// [`diff_byte_header_copy_onto`] reports it. On every error `buf` is
/// unchanged.
pub fn mixed_decomp(buf: &mut [u8], diff: &[u8]) -> (res: Result<(), DecodeError>)
    ensures
        match mixed_decoded(old(buf)@, diff@) {
            Ok(frame) => res is Ok && final(buf)@ == frame,
            Err(e) => res == Err::<(), DecodeError>(e) && final(buf)@ == old(buf)@,
        },
{
    match decompress(diff) {
        Ok(delta) => diff_byte_header_copy_onto(buf, delta.as_slice()),
        Err(e) => Err(e),
    }
}

} // verus!
