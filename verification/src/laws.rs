//! What holds of the delta stage as a whole: decoding undoes encoding, the
//! stream has one byte a group and six a changed pair, and it is decided by
//! the colours of the two frames.

use crate::error::DecodeError;
use crate::format::{
    apply_upto, bit_set, count_upto, decode_from, decoded, encoded, flagged, group_count,
    group_fits, groups_upto, header_upto, overlay_rgb, pair_dirty, pair_fits, pair_payload,
    payload_upto, same_rgb, write_pair,
};
use vstd::prelude::*;

verus! {

/// `buf` with the colours of `curr` written over every flagged pair below
/// pair `n`: what the decoder has made of `buf` when it reaches pair `n`.
spec fn patched(buf: Seq<u8>, prev: Seq<u8>, curr: Seq<u8>, n: int) -> Seq<u8> {
    Seq::new(
        buf.len(),
        |j: int|
            if j / 8 < n && flagged(prev, curr, j / 8) && j % 4 != 3 {
                curr[j]
            } else {
                buf[j]
            },
    )
}

/// Pairs that are not flagged add nothing to a group.
pub proof fn lemma_unflagged_tail(prev: Seq<u8>, curr: Seq<u8>, g: int, k: int, m: int)
    requires
        0 <= k <= m,
        forall|p: int| 8 * g + k <= p < 8 * g + m ==> !flagged(prev, curr, p),
    ensures
        header_upto(prev, curr, g, m) == header_upto(prev, curr, g, k),
        payload_upto(prev, curr, g, m) == payload_upto(prev, curr, g, k),
    decreases m,
{
    if k < m {
        lemma_unflagged_tail(prev, curr, g, k, m - 1);
    }
}

/// The header of a group is a byte, and its bit `i`, counted from the most
/// significant, is set exactly when pair `8 * g + i` is flagged.
pub proof fn lemma_header_bits(prev: Seq<u8>, curr: Seq<u8>, g: int)
    ensures
        0 <= header_upto(prev, curr, g, 8) <= 255,
        forall|i: int|
            0 <= i < 8 ==> (#[trigger] bit_set(header_upto(prev, curr, g, 8) as u8, i) <==> flagged(
                prev,
                curr,
                8 * g + i,
            )),
{
    reveal_with_fuel(header_upto, 9);
    let h: int = header_upto(prev, curr, g, 8);
    let b: u8 = h as u8;
    assert(bit_set(b, 0) <==> flagged(prev, curr, 8 * g + 0));
    assert(bit_set(b, 1) <==> flagged(prev, curr, 8 * g + 1));
    assert(bit_set(b, 2) <==> flagged(prev, curr, 8 * g + 2));
    assert(bit_set(b, 3) <==> flagged(prev, curr, 8 * g + 3));
    assert(bit_set(b, 4) <==> flagged(prev, curr, 8 * g + 4));
    assert(bit_set(b, 5) <==> flagged(prev, curr, 8 * g + 5));
    assert(bit_set(b, 6) <==> flagged(prev, curr, 8 * g + 6));
    assert(bit_set(b, 7) <==> flagged(prev, curr, 8 * g + 7));
}

/// The payload of a group grows by appending: what its first `k` pairs gave
/// stays at the front when more pairs are taken in.
proof fn lemma_payload_prefix(prev: Seq<u8>, curr: Seq<u8>, g: int, k: int, m: int)
    requires
        0 <= k <= m,
    ensures
        payload_upto(prev, curr, g, k).len() <= payload_upto(prev, curr, g, m).len(),
        payload_upto(prev, curr, g, m).subrange(0, payload_upto(prev, curr, g, k).len() as int)
            == payload_upto(prev, curr, g, k),
    decreases m,
{
    if k < m {
        lemma_payload_prefix(prev, curr, g, k, m - 1);
    }
}

/// The payload of the first `k` pairs has six bytes for each set bit among
/// the header's first `k`.
proof fn lemma_payload_len(prev: Seq<u8>, curr: Seq<u8>, g: int, k: int)
    requires
        0 <= k <= 8,
    ensures
        payload_upto(prev, curr, g, k).len() == 6 * count_upto(
            header_upto(prev, curr, g, 8) as u8,
            k,
        ),
    decreases k,
{
    if k > 0 {
        lemma_payload_len(prev, curr, g, k - 1);
        lemma_header_bits(prev, curr, g);
    }
}

/// Writing a flagged pair's colours takes the patched buffer one pair on.
proof fn lemma_patch_step(buf: Seq<u8>, prev: Seq<u8>, curr: Seq<u8>, p: int)
    requires
        buf.len() == prev.len(),
        prev.len() == curr.len(),
        0 <= p,
    ensures
        flagged(prev, curr, p) ==> write_pair(
            patched(buf, prev, curr, p),
            p,
            pair_payload(curr, p),
        ) == patched(buf, prev, curr, p + 1),
        !flagged(prev, curr, p) ==> patched(buf, prev, curr, p) == patched(buf, prev, curr, p + 1),
{
    let before: Seq<u8> = patched(buf, prev, curr, p);
    let after: Seq<u8> = patched(buf, prev, curr, p + 1);
    if flagged(prev, curr, p) {
        assert(write_pair(before, p, pair_payload(curr, p)) =~= after);
    } else {
        assert(before =~= after);
    }
}

/// Applying an encoded group to a buffer patched up to the group's first
/// pair patches it up to each later pair of the group in turn.
proof fn lemma_group_applies(buf: Seq<u8>, prev: Seq<u8>, curr: Seq<u8>, g: int, k: int)
    requires
        buf.len() == prev.len(),
        prev.len() == curr.len(),
        0 <= g,
        0 <= k <= 8,
    ensures
        apply_upto(
            patched(buf, prev, curr, 8 * g),
            header_upto(prev, curr, g, 8) as u8,
            payload_upto(prev, curr, g, 8),
            g,
            k,
        ) == patched(buf, prev, curr, 8 * g + k),
    decreases k,
{
    if k > 0 {
        let h: u8 = header_upto(prev, curr, g, 8) as u8;
        let pay: Seq<u8> = payload_upto(prev, curr, g, 8);
        let p: int = 8 * g + (k - 1);
        lemma_group_applies(buf, prev, curr, g, k - 1);
        lemma_header_bits(prev, curr, g);
        lemma_patch_step(buf, prev, curr, p);
        if flagged(prev, curr, p) {
            lemma_payload_len(prev, curr, g, k - 1);
            lemma_payload_prefix(prev, curr, g, k - 1, k);
            lemma_payload_prefix(prev, curr, g, k, 8);
            let at: int = 6 * count_upto(h, k - 1) as int;
            let upto_k: Seq<u8> = payload_upto(prev, curr, g, k);
            assert(pay.subrange(at, at + 6) =~= pair_payload(curr, p)) by {
                assert forall|j: int| 0 <= j < 6 implies pay.subrange(at, at + 6)[j]
                    == pair_payload(curr, p)[j] by {
                    assert(pay.subrange(0, upto_k.len() as int)[at + j] == upto_k[at + j]);
                }
            }
        }
    }
}

/// The encoded stream grows by appending whole groups.
proof fn lemma_groups_prefix(prev: Seq<u8>, curr: Seq<u8>, n: int, m: int)
    requires
        0 <= n <= m,
    ensures
        groups_upto(prev, curr, n).len() <= groups_upto(prev, curr, m).len(),
        groups_upto(prev, curr, m).subrange(0, groups_upto(prev, curr, n).len() as int)
            == groups_upto(prev, curr, n),
    decreases m,
{
    if n < m {
        lemma_groups_prefix(prev, curr, n, m - 1);
    }
}

/// Decoding the stream of `total` groups from the start of group `g`, on a
/// buffer patched up to that group, patches the buffer all the way.
proof fn lemma_decode_rest(buf: Seq<u8>, prev: Seq<u8>, curr: Seq<u8>, g: int, total: int)
    requires
        buf.len() == prev.len(),
        prev.len() == curr.len(),
        0 <= g <= total,
    ensures
        decode_from(
            patched(buf, prev, curr, 8 * g),
            groups_upto(prev, curr, total),
            groups_upto(prev, curr, g).len() as int,
            g,
        ) == Ok::<Seq<u8>, DecodeError>(patched(buf, prev, curr, 8 * total)),
    decreases total - g,
{
    let stream: Seq<u8> = groups_upto(prev, curr, total);
    let pos: int = groups_upto(prev, curr, g).len() as int;
    let here: Seq<u8> = patched(buf, prev, curr, 8 * g);
    lemma_groups_prefix(prev, curr, g, total);
    if g < total {
        let h: u8 = header_upto(prev, curr, g, 8) as u8;
        let pay: Seq<u8> = payload_upto(prev, curr, g, 8);
        let next: Seq<u8> = groups_upto(prev, curr, g + 1);
        lemma_groups_prefix(prev, curr, g + 1, total);
        assert(stream[pos] == h) by {
            assert(stream.subrange(0, next.len() as int)[pos] == next[pos]);
        }
        lemma_payload_len(prev, curr, g, 8);
        let end: int = pos + 1 + pay.len();
        assert(stream.subrange(pos + 1, end) =~= pay) by {
            assert forall|j: int| 0 <= j < pay.len() implies stream.subrange(pos + 1, end)[j]
                == pay[j] by {
                assert(stream.subrange(0, next.len() as int)[pos + 1 + j] == next[pos + 1 + j]);
            }
        }
        lemma_header_bits(prev, curr, g);
        assert(group_fits(here.len() as int, h, g)) by {
            assert forall|i: int| 0 <= i < 8 && #[trigger] bit_set(h, i) implies pair_fits(
                here.len() as int,
                8 * g + i,
            ) by {}
        }
        lemma_group_applies(buf, prev, curr, g, 8);
        lemma_decode_rest(buf, prev, curr, g + 1, total);
    }
}

/// Decoding undoes encoding, on any buffer that shows the earlier frame's
/// colours.
///
/// Let `prev` and `curr` be frames of one length, a multiple of eight, and
/// let `buf` agree with `prev` in every colour byte (its alpha bytes may
/// differ). Then applying the stream that takes `prev` to `curr` succeeds,
/// and leaves `buf` with the colour bytes of `curr` and its own alpha bytes.
pub proof fn lemma_round_trip_onto(buf: Seq<u8>, prev: Seq<u8>, curr: Seq<u8>)
    requires
        prev.len() == curr.len(),
        prev.len() % 8 == 0,
        same_rgb(buf, prev),
    ensures
        decoded(buf, encoded(prev, curr)) == Ok::<Seq<u8>, DecodeError>(
            overlay_rgb(buf, curr),
        ),
{
    let total: int = group_count(prev.len() as int);
    lemma_decode_rest(buf, prev, curr, 0, total);
    assert(patched(buf, prev, curr, 0) =~= buf);
    let done: Seq<u8> = patched(buf, prev, curr, 8 * total);
    let want: Seq<u8> = overlay_rgb(buf, curr);
    assert forall|j: int| 0 <= j < buf.len() implies done[j] == want[j] by {
        if j % 4 != 3 && !flagged(prev, curr, j / 8) {
            assert(!pair_dirty(prev, curr, j / 8));
        }
    }
    assert(done =~= want);
}

/// Decoding undoes encoding.
///
/// For frames `prev` and `curr` of one length, a multiple of eight: applying
/// the stream that takes `prev` to `curr` to a copy of `prev` succeeds, and
/// the copy then holds the colour bytes of `curr` and the alpha bytes of
/// `prev`.
pub proof fn lemma_round_trip(prev: Seq<u8>, curr: Seq<u8>)
    requires
        prev.len() == curr.len(),
        prev.len() % 8 == 0,
    ensures
        decoded(prev, encoded(prev, curr)) == Ok::<Seq<u8>, DecodeError>(
            overlay_rgb(prev, curr),
        ),
{
    lemma_round_trip_onto(prev, prev, curr);
}

/// The first `n` groups of a frame encoded against itself are `n` zero
/// bytes.
proof fn lemma_unchanged_groups(frame: Seq<u8>, n: int)
    requires
        0 <= n,
    ensures
        groups_upto(frame, frame, n) == Seq::new(n as nat, |i: int| 0u8),
    decreases n,
{
    if n > 0 {
        lemma_unchanged_groups(frame, n - 1);
        lemma_unflagged_tail(frame, frame, n - 1, 0, 8);
    }
}

/// A frame that did not change costs one zero byte a group and no payload.
///
/// The stream that takes a frame to itself holds `ceil(pairs / 8)` bytes,
/// where `pairs` is the frame's length divided by eight, and each is zero.
pub proof fn lemma_unchanged_is_headers_only(frame: Seq<u8>)
    ensures
        encoded(frame, frame).len() == group_count(frame.len() as int),
        encoded(frame, frame) == Seq::new(group_count(frame.len() as int) as nat, |i: int| 0u8),
{
    lemma_unchanged_groups(frame, group_count(frame.len() as int));
}

/// Frames that agree in their colours have the same groups.
proof fn lemma_groups_by_colours(
    prev1: Seq<u8>,
    curr1: Seq<u8>,
    prev2: Seq<u8>,
    curr2: Seq<u8>,
    g: int,
    k: int,
)
    requires
        prev1.len() == curr1.len(),
        same_rgb(prev1, prev2),
        same_rgb(curr1, curr2),
        0 <= g,
        0 <= k <= 8,
    ensures
        header_upto(prev1, curr1, g, k) == header_upto(prev2, curr2, g, k),
        payload_upto(prev1, curr1, g, k) == payload_upto(prev2, curr2, g, k),
    decreases k,
{
    if k > 0 {
        lemma_groups_by_colours(prev1, curr1, prev2, curr2, g, k - 1);
        let p: int = 8 * g + k - 1;
        if p < prev1.len() / 8 {
            assert(pair_dirty(prev1, curr1, p) == pair_dirty(prev2, curr2, p));
            assert(pair_payload(curr1, p) =~= pair_payload(curr2, p));
        }
    }
}

/// Frames that agree in their colours have the same stream, group for group.
proof fn lemma_stream_by_colours(
    prev1: Seq<u8>,
    curr1: Seq<u8>,
    prev2: Seq<u8>,
    curr2: Seq<u8>,
    n: int,
)
    requires
        prev1.len() == curr1.len(),
        same_rgb(prev1, prev2),
        same_rgb(curr1, curr2),
        0 <= n,
    ensures
        groups_upto(prev1, curr1, n) == groups_upto(prev2, curr2, n),
    decreases n,
{
    if n > 0 {
        lemma_stream_by_colours(prev1, curr1, prev2, curr2, n - 1);
        lemma_groups_by_colours(prev1, curr1, prev2, curr2, n - 1, 8);
    }
}

/// The stream is decided by the colour bytes of the two frames and by
/// nothing else.
///
/// Two pairs of frames that agree in every colour byte, whatever their alpha
/// bytes hold, have the same stream. With the same frames on both sides this
/// says that encoding twice gives the same bytes twice.
pub proof fn lemma_encoded_by_colours(
    prev1: Seq<u8>,
    curr1: Seq<u8>,
    prev2: Seq<u8>,
    curr2: Seq<u8>,
)
    requires
        prev1.len() == curr1.len(),
        same_rgb(prev1, prev2),
        same_rgb(curr1, curr2),
    ensures
        encoded(prev1, curr1) == encoded(prev2, curr2),
{
    lemma_stream_by_colours(prev1, curr1, prev2, curr2, group_count(prev1.len() as int));
}

/// How many of the pairs below pair `n` the stream flags.
pub open spec fn dirty_pairs(prev: Seq<u8>, curr: Seq<u8>, n: int) -> nat
    decreases n,
{
    if n <= 0 {
        0
    } else {
        dirty_pairs(prev, curr, n - 1) + if flagged(prev, curr, n - 1) {
            1nat
        } else {
            0nat
        }
    }
}

/// The payload of the first `k` pairs of a group has six bytes for each
/// flagged pair among them.
proof fn lemma_payload_counts(prev: Seq<u8>, curr: Seq<u8>, g: int, k: int)
    requires
        0 <= g,
        0 <= k <= 8,
    ensures
        payload_upto(prev, curr, g, k).len() + 6 * dirty_pairs(prev, curr, 8 * g) == 6
            * dirty_pairs(prev, curr, 8 * g + k),
    decreases k,
{
    if k > 0 {
        lemma_payload_counts(prev, curr, g, k - 1);
    }
}

/// The first `n` groups hold `n` header bytes and six bytes for each flagged
/// pair that they cover.
proof fn lemma_groups_len(prev: Seq<u8>, curr: Seq<u8>, n: int)
    requires
        0 <= n,
    ensures
        groups_upto(prev, curr, n).len() == n + 6 * dirty_pairs(prev, curr, 8 * n),
    decreases n,
{
    if n > 0 {
        lemma_groups_len(prev, curr, n - 1);
        lemma_payload_counts(prev, curr, n - 1, 8);
    }
}

/// Pairs beyond the frame are never flagged, so counting further changes
/// nothing.
proof fn lemma_dirty_pairs_end(prev: Seq<u8>, curr: Seq<u8>, n: int)
    requires
        prev.len() / 8 <= n,
    ensures
        dirty_pairs(prev, curr, n) == dirty_pairs(prev, curr, prev.len() as int / 8),
    decreases n,
{
    if prev.len() / 8 < n {
        lemma_dirty_pairs_end(prev, curr, n - 1);
    }
}

/// The length of the stream: one header byte for every eight pairs of the
/// frame, rounded up, and six payload bytes for every pair that changed
/// colour.
pub proof fn lemma_encoded_len(prev: Seq<u8>, curr: Seq<u8>)
    ensures
        encoded(prev, curr).len() == group_count(prev.len() as int) + 6 * dirty_pairs(
            prev,
            curr,
            prev.len() as int / 8,
        ),
{
    let total: int = group_count(prev.len() as int);
    lemma_groups_len(prev, curr, total);
    lemma_dirty_pairs_end(prev, curr, 8 * total);
}

/// No more pairs are flagged than there are.
proof fn lemma_dirty_pairs_bound(prev: Seq<u8>, curr: Seq<u8>, n: int)
    requires
        0 <= n,
    ensures
        dirty_pairs(prev, curr, n) <= n,
    decreases n,
{
    if n > 0 {
        lemma_dirty_pairs_bound(prev, curr, n - 1);
    }
}

/// The stream is never longer than the frames it was made from.
pub proof fn lemma_encoded_fits_frame(prev: Seq<u8>, curr: Seq<u8>)
    ensures
        encoded(prev, curr).len() <= prev.len(),
{
    lemma_encoded_len(prev, curr);
    lemma_dirty_pairs_bound(prev, curr, prev.len() as int / 8);
}

} // verus!
