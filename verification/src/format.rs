//! The delta stream and what it means, as mathematics.
//!
//! A frame is a sequence of four-byte pixels `[R, G, B, A]`. Two neighbouring
//! pixels form a pair, the unit of change detection; eight pairs form a group.
//! The delta stream is one group after another:
//!
//! ```text
//! stream  := group*
//! group   := header payload
//! header  := one byte; bit i, counted from the most significant, is set
//!            exactly when pair (8 * group + i) changed colour
//! payload := for each set bit, in ascending bit order, the six bytes
//!            R1 G1 B1 R2 G2 B2 of that pair in the newer frame
//! ```
//!
//! A frame of `n` pairs has `ceil(n / 8)` groups, so an empty frame has an
//! empty stream. The last group may cover fewer than eight pairs; its unused
//! low bits are zero.

use crate::error::DecodeError;
use vstd::prelude::*;

verus! {

/// Bytes in one pixel pair: two pixels of four bytes each.
pub const PAIR_BYTES: usize = 8;

/// Bytes stored for one changed pair: the colour channels of its two pixels.
pub const PAIR_PAYLOAD: usize = 6;

/// Pixel pairs covered by one header byte.
pub const GROUP_PAIRS: usize = 8;

/// Whether pair `p` shows a different colour in `curr` than in `prev`. The
/// alpha bytes, at offsets 3 and 7 of the pair, are not compared.
pub open spec fn pair_dirty(prev: Seq<u8>, curr: Seq<u8>, p: int) -> bool {
    let o: int = 8 * p;
    ||| prev[o] != curr[o]
    ||| prev[o + 1] != curr[o + 1]
    ||| prev[o + 2] != curr[o + 2]
    ||| prev[o + 4] != curr[o + 4]
    ||| prev[o + 5] != curr[o + 5]
    ||| prev[o + 6] != curr[o + 6]
}

/// Whether the stream flags pair `p`: the pair lies inside the frame and
/// changed colour.
pub open spec fn flagged(prev: Seq<u8>, curr: Seq<u8>, p: int) -> bool {
    0 <= p < prev.len() / 8 && pair_dirty(prev, curr, p)
}

/// The six colour bytes of pair `p` of `frame`, in stream order.
pub open spec fn pair_payload(frame: Seq<u8>, p: int) -> Seq<u8> {
    let o: int = 8 * p;
    seq![frame[o], frame[o + 1], frame[o + 2], frame[o + 4], frame[o + 5], frame[o + 6]]
}

/// The value of header bit `i`, bit 0 being the most significant.
pub open spec fn bit_weight(i: int) -> int {
    if i == 0 {
        128
    } else if i == 1 {
        64
    } else if i == 2 {
        32
    } else if i == 3 {
        16
    } else if i == 4 {
        8
    } else if i == 5 {
        4
    } else if i == 6 {
        2
    } else if i == 7 {
        1
    } else {
        0
    }
}

/// The header of group `g` as far as its first `k` pairs decide it.
pub open spec fn header_upto(prev: Seq<u8>, curr: Seq<u8>, g: int, k: int) -> int
    decreases k,
{
    if k <= 0 {
        0
    } else {
        header_upto(prev, curr, g, k - 1) + if flagged(prev, curr, 8 * g + k - 1) {
            bit_weight(k - 1)
        } else {
            0
        }
    }
}

/// The payload of group `g` as far as its first `k` pairs fill it.
pub open spec fn payload_upto(prev: Seq<u8>, curr: Seq<u8>, g: int, k: int) -> Seq<u8>
    decreases k,
{
    if k <= 0 {
        Seq::empty()
    } else {
        payload_upto(prev, curr, g, k - 1) + if flagged(prev, curr, 8 * g + k - 1) {
            pair_payload(curr, 8 * g + k - 1)
        } else {
            Seq::empty()
        }
    }
}

/// Group `g` of the stream: its header byte, then its payload.
pub open spec fn group(prev: Seq<u8>, curr: Seq<u8>, g: int) -> Seq<u8> {
    seq![header_upto(prev, curr, g, 8) as u8] + payload_upto(prev, curr, g, 8)
}

/// The first `n` groups of the stream.
pub open spec fn groups_upto(prev: Seq<u8>, curr: Seq<u8>, n: int) -> Seq<u8>
    decreases n,
{
    if n <= 0 {
        Seq::empty()
    } else {
        groups_upto(prev, curr, n - 1) + group(prev, curr, n - 1)
    }
}

/// How many groups a frame of `len` bytes has: its pairs, eight to a group,
/// rounded up.
pub open spec fn group_count(len: int) -> int {
    (len / 8 + 7) / 8
}

/// The delta stream that takes `prev` to `curr`.
pub open spec fn encoded(prev: Seq<u8>, curr: Seq<u8>) -> Seq<u8> {
    groups_upto(prev, curr, group_count(prev.len() as int))
}

/// Whether bit `i` of a header byte is set, bit 0 being the most significant.
pub open spec fn bit_set(header: u8, i: int) -> bool {
    0 <= i < 8 && (header as int / bit_weight(i)) % 2 == 1
}

/// How many of the first `k` bits of a header byte are set.
pub open spec fn count_upto(header: u8, k: int) -> nat
    decreases k,
{
    if k <= 0 {
        0
    } else {
        count_upto(header, k - 1) + if bit_set(header, k - 1) {
            1nat
        } else {
            0nat
        }
    }
}

/// How many payload bytes follow a header byte: six for each set bit.
pub open spec fn payload_len(header: u8) -> nat {
    6 * count_upto(header, 8)
}

/// `buf` with the colour bytes of pair `p` replaced by the six bytes `six`.
/// The alpha bytes, at offsets 3 and 7 of the pair, stay.
pub open spec fn write_pair(buf: Seq<u8>, p: int, six: Seq<u8>) -> Seq<u8> {
    let o: int = 8 * p;
    buf.update(o, six[0]).update(o + 1, six[1]).update(o + 2, six[2]).update(o + 4, six[3]).update(
        o + 5,
        six[4],
    ).update(o + 6, six[5])
}

/// `buf` after the first `k` bits of group `g` have been applied: each set
/// bit takes the next six bytes of the group's `payload`.
pub open spec fn apply_upto(buf: Seq<u8>, header: u8, payload: Seq<u8>, g: int, k: int) -> Seq<u8>
    decreases k,
{
    if k <= 0 {
        buf
    } else {
        let before: Seq<u8> = apply_upto(buf, header, payload, g, k - 1);
        if bit_set(header, k - 1) {
            let at: int = 6 * count_upto(header, k - 1) as int;
            write_pair(before, 8 * g + k - 1, payload.subrange(at, at + 6))
        } else {
            before
        }
    }
}

/// Whether every colour byte of pair `p` lies inside a buffer of `len` bytes.
pub open spec fn pair_fits(len: int, p: int) -> bool {
    8 * p + 7 <= len
}

/// Whether every pair that `header` flags in group `g` lies inside a buffer
/// of `len` bytes. Bits that are clear ask nothing of the buffer.
pub open spec fn group_fits(len: int, header: u8, g: int) -> bool {
    forall|i: int| 0 <= i < 8 && #[trigger] bit_set(header, i) ==> pair_fits(len, 8 * g + i)
}

/// What applying `delta` from byte `pos` on, as groups `g`, `g + 1`, ..,
/// makes of `buf`.
///
/// Groups are taken in turn until the stream ends. A group whose payload is
/// cut short is [`DecodeError::MalformedDelta`]; a complete group that flags
/// a pair outside the buffer is [`DecodeError::BufferTooSmall`]. The first
/// group at fault decides.
pub open spec fn decode_from(buf: Seq<u8>, delta: Seq<u8>, pos: int, g: int) -> Result<
    Seq<u8>,
    DecodeError,
>
    decreases delta.len() - pos,
{
    if pos < 0 || pos >= delta.len() {
        Ok(buf)
    } else {
        let header: u8 = delta[pos];
        let end: int = pos + 1 + payload_len(header);
        if end > delta.len() {
            Err(DecodeError::MalformedDelta)
        } else if !group_fits(buf.len() as int, header, g) {
            Err(DecodeError::BufferTooSmall)
        } else {
            decode_from(apply_upto(buf, header, delta.subrange(pos + 1, end), g, 8), delta, end, g + 1)
        }
    }
}

/// What applying the delta stream `delta` makes of `buf`, or why it cannot
/// be applied.
pub open spec fn decoded(buf: Seq<u8>, delta: Seq<u8>) -> Result<Seq<u8>, DecodeError> {
    decode_from(buf, delta, 0, 0)
}

/// `base` with every colour byte replaced by that of `frame`: the alpha
/// bytes, every fourth byte from offset 3, stay those of `base`.
pub open spec fn overlay_rgb(base: Seq<u8>, frame: Seq<u8>) -> Seq<u8> {
    Seq::new(base.len(), |j: int| if j % 4 == 3 { base[j] } else { frame[j] })
}

/// Whether two buffers of one length agree in every colour byte.
pub open spec fn same_rgb(a: Seq<u8>, b: Seq<u8>) -> bool {
    a.len() == b.len() && forall|j: int| 0 <= j < a.len() && j % 4 != 3 ==> a[j] == b[j]
}

} // verus!
