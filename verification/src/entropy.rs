//! The entropy stage: the delta stream packed as one size-prefixed LZ4 block.
//!
//! A block is four bytes that hold the length of the data, as a little-endian
//! `u32`, followed by the data in LZ4 block format. The packing itself is
//! `lz4_flex`'s; this module decides which blocks are accepted, checks the
//! declared length against what came out, and turns the crate's error into
//! [`DecodeError::Entropy`].
//!
//! Two limits keep the block decoder's arithmetic in range on every target
//! and in every build. A block may declare at most [`MAX_DECLARED_LEN`] bytes,
//! and it may not hold [`FF_RUN_LIMIT`] bytes `0xFF` in a row: LZ4 writes a
//! length as a run of `0xFF` bytes, each worth 255, and that many of them
//! would spell a length no smaller than the largest one allowed.
//! [`compress`] hands out only blocks that [`decompress`] accepts.
//!
//! Which bytes the packer chooses for given data is its own affair, and
//! differs with the machine's word size and byte order. Nothing here depends
//! on that choice: of a packed block this module knows its prefix, a bound on
//! its length, and that it unpacks to the data.

use crate::error::{DecodeError, EncodeError};
use vstd::prelude::*;

verus! {

/// The largest data length that a block may declare: 2 GiB less one byte.
pub const MAX_DECLARED_LEN: u32 = 0x7FFF_FFFF;

/// The length of a run of `0xFF` bytes that no accepted block holds.
pub const FF_RUN_LIMIT: usize = 8_421_504;

/// The data that `lz4_flex::block::decompress_size_prepended` returns for
/// `block`, or `None` where it returns an error.
pub uninterp spec fn lz4_unblock(block: Seq<u8>) -> Option<Seq<u8>>;

/// The error type of `lz4_flex`'s block decoder.
#[verifier::external_type_specification]
#[verifier::external_body]
pub struct ExDecompressError(lz4_flex::block::DecompressError);

/// The length that the first four bytes of a block declare, read as a
/// little-endian `u32`.
pub open spec fn declared_len(block: Seq<u8>) -> int {
    block[0] as int + 256 * (block[1] as int) + 65536 * (block[2] as int) + 16777216 * (
    block[3] as int)
}

/// Whether the `n` bytes of `s` from `start` on are all `0xFF`.
pub open spec fn ff_run_at(s: Seq<u8>, start: int, n: int) -> bool {
    0 <= start && start + n <= s.len() && forall|j: int| start <= j < start + n ==> s[j] == 0xFF
}

/// Whether `s` holds [`FF_RUN_LIMIT`] bytes `0xFF` in a row.
pub open spec fn has_ff_run(s: Seq<u8>) -> bool {
    exists|start: int| #[trigger] ff_run_at(s, start, FF_RUN_LIMIT as int)
}

/// The most bytes that one block can carry on this machine: no more than
/// [`MAX_DECLARED_LEN`], and few enough that the packer's estimate of the
/// block's size, eleven tenths of the data and a little more, fits a `usize`.
pub open spec fn max_block_len() -> int {
    if usize::MAX / 110 < MAX_DECLARED_LEN {
        (usize::MAX / 110) as int
    } else {
        MAX_DECLARED_LEN as int
    }
}

/// The most bytes that the block of `len` bytes of data can have.
pub open spec fn block_bound(len: int) -> int {
    24 + len * 110 / 100
}

/// What [`decompress`] makes of `block`: the data that it unpacks to, or
/// `None` where the block is refused.
///
/// A block is refused when it has no room for the prefix, declares more than
/// [`MAX_DECLARED_LEN`], holds a run of [`FF_RUN_LIMIT`] bytes `0xFF`, is not
/// valid LZ4, or unpacks to another length than it declares.
pub open spec fn unpacked(block: Seq<u8>) -> Option<Seq<u8>> {
    if block.len() < 4 || declared_len(block) > MAX_DECLARED_LEN || has_ff_run(block) {
        None
    } else {
        match lz4_unblock(block) {
            Some(data) => if data.len() == declared_len(block) {
                Some(data)
            } else {
                None
            },
            None => None,
        }
    }
}

/// Calls `lz4_flex::block::compress_prepend_size`.
///
/// Trusted, of every block that this function of `lz4_flex` may return for
/// `input`: its first four bytes are the length of `input` as a
/// little-endian `u32`, as the function's documentation says; it is no
/// longer than the buffer that the function allocates for it, which has
/// `16 + 4 + len * 110 / 100` bytes and four for the prefix; and
/// `lz4_flex::block::decompress_size_prepended` gives `input` back for it,
/// which the crate documents as the block format's round trip. The bound on
/// `input` keeps its length within the prefix and the size of that buffer
/// within `usize`.
#[verifier::external_body]
fn lz4_compress_prepend_size(input: &[u8]) -> (out: Vec<u8>)
    requires
        input@.len() <= max_block_len(),
    ensures
        4 <= out@.len() <= block_bound(input@.len() as int),
        declared_len(out@) == input@.len(),
        lz4_unblock(out@) == Some(input@),
{
    lz4_flex::block::compress_prepend_size(input)
}

/// Calls `lz4_flex::block::decompress_size_prepended`.
///
/// Trusted: what this function of `lz4_flex` returns is decided by `input`
/// alone, data or an error. Nothing is claimed of which inputs give data.
///
/// The conditions leave out the inputs on which its arithmetic can leave
/// the range of its types. It allocates as many bytes as the prefix
/// declares, which has to stay below `isize::MAX`. And it adds up the `0xFF`
/// bytes of a length field in a `u32`, then adds that length to a position
/// in the output, before it tests either against the allocation: with fewer
/// than [`FF_RUN_LIMIT`] such bytes in a row and a position of at most
/// [`MAX_DECLARED_LEN`], both sums stay below `2^32`.
#[verifier::external_body]
fn lz4_decompress_size_prepended(input: &[u8]) -> (res: Result<
    Vec<u8>,
    lz4_flex::block::DecompressError,
>)
    requires
        input@.len() >= 4,
        declared_len(input@) <= MAX_DECLARED_LEN,
        !has_ff_run(input@),
    ensures
        match res {
            Ok(data) => lz4_unblock(input@) == Some(data@),
            Err(_) => lz4_unblock(input@) is None,
        },
{
    lz4_flex::block::decompress_size_prepended(input)
}

/// Reads the length that a block declares.
fn read_declared_len(block: &[u8]) -> (len: u32)
    requires
        block@.len() >= 4,
    ensures
        len == declared_len(block@),
{
    let b0: u32 = block[0] as u32;
    let b1: u32 = block[1] as u32;
    let b2: u32 = block[2] as u32;
    let b3: u32 = block[3] as u32;
    b0 + 256 * b1 + 65536 * b2 + 16777216 * b3
}

/// Finds whether `bytes` holds [`FF_RUN_LIMIT`] bytes `0xFF` in a row.
fn holds_ff_run(bytes: &[u8]) -> (found: bool)
    ensures
        found == has_ff_run(bytes@),
{
    if bytes.len() < FF_RUN_LIMIT {
        assert forall|start: int| !#[trigger] ff_run_at(bytes@, start, FF_RUN_LIMIT as int) by {}
        return false;
    }
    let mut run: usize = 0;
    let mut i: usize = 0;
    while i < bytes.len()
        invariant
            i <= bytes@.len(),
            run <= i,
            run < FF_RUN_LIMIT,
            forall|j: int| i - run <= j < i ==> bytes@[j] == 0xFF,
            run < i ==> bytes@[i - run - 1] != 0xFF,
            forall|start: int|
                start + FF_RUN_LIMIT <= i ==> !#[trigger] ff_run_at(
                    bytes@,
                    start,
                    FF_RUN_LIMIT as int,
                ),
        decreases bytes@.len() - i,
    {
        if bytes[i] == 0xFF {
            run += 1;
            if run == FF_RUN_LIMIT {
                assert(ff_run_at(bytes@, i + 1 - FF_RUN_LIMIT, FF_RUN_LIMIT as int));
                return true;
            }
        } else {
            run = 0;
        }
        i += 1;
        assert forall|start: int| start + FF_RUN_LIMIT <= i implies !#[trigger] ff_run_at(
            bytes@,
            start,
            FF_RUN_LIMIT as int,
        ) by {
            if start + FF_RUN_LIMIT == i && 0 <= start {
                // the byte that ends the current run lies in this window
                assert(start <= i - run - 1 < i);
            }
        }
    }
    assert forall|start: int| !#[trigger] ff_run_at(bytes@, start, FF_RUN_LIMIT as int) by {}
    false
}

/// The most bytes that one block can carry on this machine.
fn block_limit() -> (limit: usize)
    ensures
        limit == max_block_len(),
{
    if usize::MAX / 110 < MAX_DECLARED_LEN as usize {
        usize::MAX / 110
    } else {
        MAX_DECLARED_LEN as usize
    }
}

/// Hands a packed block on if [`decompress`] will take it, and refuses it
/// if it holds [`FF_RUN_LIMIT`] bytes `0xFF` in a row.
pub fn vet_block(block: Vec<u8>) -> (res: Result<Vec<u8>, EncodeError>)
    ensures
        has_ff_run(block@) ==> res == Err::<Vec<u8>, EncodeError>(EncodeError::TooLarge),
        !has_ff_run(block@) ==> res == Ok::<Vec<u8>, EncodeError>(block),
{
    if holds_ff_run(block.as_slice()) {
        Err(EncodeError::TooLarge)
    } else {
        Ok(block)
    }
}

/// Packs `bytes` into a size-prefixed LZ4 block.
///
/// The block starts with the length of `bytes` as a little-endian `u32`, and
/// [`decompress`] gives `bytes` back for it. Data longer than
/// [`max_block_len`] is [`EncodeError::TooLarge`]. So is data whose block, as
/// the packer wrote it, fails [`vet_block`]; that cannot happen to data short
/// enough that its block stays below [`FF_RUN_LIMIT`] bytes, which is all
/// data of up to 7 655 890 bytes.
pub fn compress(bytes: &[u8]) -> (res: Result<Vec<u8>, EncodeError>)
    ensures
        bytes@.len() > max_block_len() ==> res is Err,
        block_bound(bytes@.len() as int) < FF_RUN_LIMIT ==> res is Ok,
        res matches Ok(block) ==> {
            &&& declared_len(block@) == bytes@.len()
            &&& block@.len() <= block_bound(bytes@.len() as int)
            &&& unpacked(block@) == Some(bytes@)
        },
        res matches Err(e) ==> e == EncodeError::TooLarge,
{
    if bytes.len() > block_limit() {
        return Err(EncodeError::TooLarge);
    }
    let block: Vec<u8> = lz4_compress_prepend_size(bytes);
    vet_block(block)
}

/// Unpacks a size-prefixed LZ4 block.
///
/// Succeeds exactly when [`unpacked`] gives data for `bytes`, and returns
/// that data; every other input is [`DecodeError::Entropy`]. In particular
/// the data has the length that the prefix declares.
pub fn decompress(bytes: &[u8]) -> (res: Result<Vec<u8>, DecodeError>)
    ensures
        match unpacked(bytes@) {
            Some(data) => res matches Ok(out) && out@ == data,
            None => res == Err::<Vec<u8>, DecodeError>(DecodeError::Entropy),
        },
{
    if bytes.len() < 4 {
        return Err(DecodeError::Entropy);
    }
    let declared: u32 = read_declared_len(bytes);
    if declared > MAX_DECLARED_LEN {
        return Err(DecodeError::Entropy);
    }
    if holds_ff_run(bytes) {
        return Err(DecodeError::Entropy);
    }
    match lz4_decompress_size_prepended(bytes) {
        Ok(data) => {
            if data.len() == declared as usize {
                Ok(data)
            } else {
                Err(DecodeError::Entropy)
            }
        },
        Err(_) => Err(DecodeError::Entropy),
    }
}

} // verus!
