//! The delta decoder.

use crate::error::DecodeError;
use crate::format::{
    apply_upto, bit_set, count_upto, decode_from, decoded, group_fits, pair_fits, payload_len,
    GROUP_PAIRS, PAIR_BYTES, PAIR_PAYLOAD,
};
use vstd::prelude::*;

verus! {

/// Whether every pair that `header` flags lies within the `room` bytes that
/// a buffer has left from the start of the header's group: pair `i` of the
/// group needs `8 * i + 7` of them.
spec fn fits_room(header: u8, room: int) -> bool {
    forall|i: int| 0 <= i < 8 && #[trigger] bit_set(header, i) ==> 8 * i + 7 <= room
}

/// Shifting bit `i` down to the lowest place and testing it there agrees
/// with `bit_set`.
proof fn lemma_bit_test(header: u8, i: u8)
    requires
        i < 8,
    ensures
        ((header >> ((7 - i) as u8)) % 2 == 1) == bit_set(header, i as int),
{
    let s: u8 = (7 - i) as u8;
    assert(s < 8 ==> (header >> s) == header / (1u8 << s)) by (bit_vector);
    assert(s < 8 ==> (1u8 << s) == (if s == 0 {
        1u8
    } else if s == 1 {
        2u8
    } else if s == 2 {
        4u8
    } else if s == 3 {
        8u8
    } else if s == 4 {
        16u8
    } else if s == 5 {
        32u8
    } else if s == 6 {
        64u8
    } else {
        128u8
    })) by (bit_vector);
}

/// The count of set bits grows with the number of bits looked at, by at most
/// one a bit.
proof fn lemma_count_grows(header: u8, i: int, k: int)
    requires
        0 <= i <= k,
    ensures
        count_upto(header, i) <= count_upto(header, k) <= count_upto(header, i) + (k - i),
        count_upto(header, 0) == 0,
    decreases k,
{
    if i < k {
        lemma_count_grows(header, i, k - 1);
    }
}

/// Applying a group that fits leaves the buffer's length as it was.
proof fn lemma_apply_keeps_len(buf: Seq<u8>, header: u8, payload: Seq<u8>, g: int, k: int)
    requires
        0 <= g,
        0 <= k <= 8,
        group_fits(buf.len() as int, header, g),
    ensures
        apply_upto(buf, header, payload, g, k).len() == buf.len(),
    decreases k,
{
    if k > 0 {
        lemma_apply_keeps_len(buf, header, payload, g, k - 1);
    }
}

/// Counts the set bits of `header` and finds whether each pair they flag
/// lies within `room` bytes of the group's start.
fn header_demand(header: u8, room: usize) -> (r: (usize, bool))
    ensures
        r.0 == count_upto(header, 8),
        r.0 <= 8,
        r.1 == fits_room(header, room as int),
{
    let mut count: usize = 0;
    let mut fits: bool = true;
    let mut i: u8 = 0;
    while i < 8
        invariant
            0 <= i <= 8,
            count == count_upto(header, i as int),
            count <= i,
            fits == (forall|j: int| 0 <= j < i && #[trigger] bit_set(header, j) ==> 8 * j + 7 <= room),
        decreases 8 - i,
    {
        proof {
            lemma_bit_test(header, i);
        }
        if (header >> (7 - i)) % 2 == 1 {
            count += 1;
            if room < PAIR_BYTES * (i as usize) + 7 {
                fits = false;
            }
        }
        i += 1;
    }
    (count, fits)
}

/// Walks the stream without touching the buffer and reports the first group
/// at fault, if there is one.
fn check_delta(buf: &[u8], diff: &[u8]) -> (res: Result<(), DecodeError>)
    ensures
        match decoded(buf@, diff@) {
            Ok(_) => res is Ok,
            Err(e) => res == Err::<(), DecodeError>(e),
        },
{
    let mut pos: usize = 0;
    let mut room: usize = buf.len();
    let ghost mut g: int = 0;
    let ghost mut shadow: Seq<u8> = buf@;
    while pos < diff.len()
        invariant
            0 <= g,
            pos <= diff@.len(),
            shadow.len() == buf@.len(),
            room as int == if buf@.len() >= 64 * g {
                buf@.len() - 64 * g
            } else {
                0
            },
            decoded(buf@, diff@) == decode_from(shadow, diff@, pos as int, g),
        decreases diff@.len() - pos,
    {
        let header: u8 = diff[pos];
        let (count, fits) = header_demand(header, room);
        let need: usize = PAIR_PAYLOAD * count;
        if diff.len() - pos - 1 < need {
            return Err(DecodeError::MalformedDelta);
        }
        assert(fits == group_fits(buf@.len() as int, header, g)) by {
            assert forall|i: int| 0 <= i < 8 && #[trigger] bit_set(header, i) implies (8 * i + 7
                <= room <==> pair_fits(buf@.len() as int, 8 * g + i)) by {}
        }
        if !fits {
            return Err(DecodeError::BufferTooSmall);
        }
        proof {
            let end: int = pos + 1 + need;
            lemma_apply_keeps_len(shadow, header, diff@.subrange(pos + 1, end), g, 8);
            shadow = apply_upto(shadow, header, diff@.subrange(pos + 1, end), g, 8);
            g = g + 1;
        }
        pos = pos + 1 + need;
        room = room.saturating_sub(GROUP_PAIRS * PAIR_BYTES);
    }
    Ok(())
}

/// Writes the pairs that the header at `pos` flags, taking six bytes a pair
/// from `diff` at `pos + 1` onwards, and returns where the group ends.
/// `base` is the offset in `buf` of the group's first pair.
fn apply_group(buf: &mut [u8], diff: &[u8], pos: usize, base: usize) -> (end: usize)
    requires
        base % 64 == 0,
        pos < diff@.len(),
        pos + 1 + payload_len(diff@[pos as int]) <= diff@.len(),
        group_fits(old(buf)@.len() as int, diff@[pos as int], base as int / 64),
    ensures
        end == pos + 1 + payload_len(diff@[pos as int]),
        final(buf)@ == apply_upto(
            old(buf)@,
            diff@[pos as int],
            diff@.subrange(pos + 1, end as int),
            base as int / 64,
            8,
        ),
        final(buf)@.len() == old(buf)@.len(),
{
    let ghost g: int = base as int / 64;
    let header: u8 = diff[pos];
    let ghost payload: Seq<u8> = diff@.subrange(pos + 1, pos + 1 + payload_len(header));
    let ghost before: Seq<u8> = buf@;
    let mut cursor: usize = pos + 1;
    let mut i: u8 = 0;
    while i < 8
        invariant
            0 <= i <= 8,
            0 <= g,
            base == 64 * g,
            header == diff@[pos as int],
            pos + 1 + payload_len(header) <= diff@.len(),
            payload == diff@.subrange(pos + 1, pos + 1 + payload_len(header)),
            group_fits(before.len() as int, header, g),
            buf@.len() == before.len(),
            cursor == pos + 1 + 6 * count_upto(header, i as int),
            buf@ == apply_upto(before, header, payload, g, i as int),
        decreases 8 - i,
    {
        proof {
            lemma_bit_test(header, i);
            lemma_count_grows(header, i as int, i + 1);
            lemma_count_grows(header, i + 1, 8);
        }
        if (header >> (7 - i)) % 2 == 1 {
            let at: usize = base + PAIR_BYTES * (i as usize);
            buf[at] = diff[cursor];
            buf[at + 1] = diff[cursor + 1];
            buf[at + 2] = diff[cursor + 2];
            buf[at + 4] = diff[cursor + 3];
            buf[at + 5] = diff[cursor + 4];
            buf[at + 6] = diff[cursor + 5];
            cursor += PAIR_PAYLOAD;
        }
        i += 1;
    }
    cursor
}

/// Applies the delta stream `diff` to `buf`, which holds the earlier frame,
/// so that it holds the newer one.
///
/// The stream is read group by group until it ends. Each set header bit
/// overwrites the six colour bytes of its pixel pair; alpha bytes and pairs
/// that no bit flags are left alone. The stream is checked as a whole first:
/// if a group is cut short the result is [`DecodeError::MalformedDelta`], if
/// a flagged pair lies outside `buf` it is [`DecodeError::BufferTooSmall`],
/// and in both cases `buf` is unchanged.
pub fn diff_byte_header_copy_onto(buf: &mut [u8], diff: &[u8]) -> (res: Result<(), DecodeError>)
    ensures
        match decoded(old(buf)@, diff@) {
            Ok(frame) => res is Ok && final(buf)@ == frame,
            Err(e) => res == Err::<(), DecodeError>(e) && final(buf)@ == old(buf)@,
        },
{
    match check_delta(buf, diff) {
        Err(e) => {
            return Err(e);
        },
        Ok(_) => {},
    }
    let mut pos: usize = 0;
    let mut base: usize = 0;
    let ghost mut g: int = 0;
    while pos < diff.len()
        invariant
            0 <= g,
            pos <= diff@.len(),
            buf@.len() == old(buf)@.len(),
            base as int == if 64 * g <= usize::MAX {
                64 * g
            } else {
                usize::MAX as int
            },
            decoded(old(buf)@, diff@) is Ok,
            decoded(old(buf)@, diff@) == decode_from(buf@, diff@, pos as int, g),
        decreases diff@.len() - pos,
    {
        let header: u8 = diff[pos];
        if header != 0 {
            proof {
                lemma_nonzero_header(header);
                assert(buf@.len() == buf.len());
            }
            pos = apply_group(buf, diff, pos, base);
        } else {
            proof {
                lemma_zero_header(buf@, diff@.subrange(pos + 1, pos + 1), g);
            }
            pos = pos + 1;
        }
        base = base.saturating_add(GROUP_PAIRS * PAIR_BYTES);
        proof {
            g = g + 1;
        }
    }
    Ok(())
}

/// A header byte other than zero has a set bit.
proof fn lemma_nonzero_header(header: u8)
    requires
        header != 0,
    ensures
        exists|i: int| 0 <= i < 8 && bit_set(header, i),
{
    if header >= 128 {
        assert(bit_set(header, 0));
    } else if header >= 64 {
        assert(bit_set(header, 1));
    } else if header >= 32 {
        assert(bit_set(header, 2));
    } else if header >= 16 {
        assert(bit_set(header, 3));
    } else if header >= 8 {
        assert(bit_set(header, 4));
    } else if header >= 4 {
        assert(bit_set(header, 5));
    } else if header >= 2 {
        assert(bit_set(header, 6));
    } else {
        assert(bit_set(header, 7));
    }
}

/// A zero header announces no payload and changes nothing.
proof fn lemma_zero_header(buf: Seq<u8>, payload: Seq<u8>, g: int)
    ensures
        payload_len(0u8) == 0,
        group_fits(buf.len() as int, 0u8, g),
        apply_upto(buf, 0u8, payload, g, 8) == buf,
{
    reveal_with_fuel(count_upto, 9);
    reveal_with_fuel(apply_upto, 9);
}

} // verus!
