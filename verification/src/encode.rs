//! The delta encoder.

use crate::error::DecodeError;
use crate::format::{
    bit_weight, decoded, encoded, groups_upto, header_upto, overlay_rgb, pair_dirty,
    pair_payload, payload_upto, GROUP_PAIRS, PAIR_BYTES, PAIR_PAYLOAD,
};
use crate::laws::{lemma_round_trip, lemma_unflagged_tail};
use vstd::prelude::*;

verus! {

/// The first `k` pairs of a group set none of the header's lower `8 - k` bits.
proof fn lemma_header_shape(prev: Seq<u8>, curr: Seq<u8>, g: int, k: int)
    requires
        0 <= k <= 8,
    ensures
        0 <= header_upto(prev, curr, g, k) <= 255,
        k == 0 ==> header_upto(prev, curr, g, k) == 0,
        k >= 1 ==> header_upto(prev, curr, g, k) % bit_weight(k - 1) == 0,
        k >= 1 ==> header_upto(prev, curr, g, k) <= 256 - bit_weight(k - 1),
    decreases k,
{
    if k > 0 {
        lemma_header_shape(prev, curr, g, k - 1);
        // the header so far is a multiple of twice the weight of the bit
        // that pair `k - 1` decides
        let h: int = header_upto(prev, curr, g, k - 1);
        if k == 2 {
            assert(h % 128 == 0);
        } else if k == 3 {
            assert(h % 64 == 0);
        } else if k == 4 {
            assert(h % 32 == 0);
        } else if k == 5 {
            assert(h % 16 == 0);
        } else if k == 6 {
            assert(h % 8 == 0);
        } else if k == 7 {
            assert(h % 4 == 0);
        } else if k == 8 {
            assert(h % 2 == 0);
        }
    }
}

/// Compares the colour channels of the pair that starts at byte `at`.
fn pair_differs(prev: &[u8], curr: &[u8], at: usize) -> (differs: bool)
    requires
        at % 8 == 0,
        at + 8 <= prev@.len(),
        prev@.len() == curr@.len(),
    ensures
        differs == pair_dirty(prev@, curr@, at as int / 8),
{
    prev[at] != curr[at] || prev[at + 1] != curr[at + 1] || prev[at + 2] != curr[at + 2]
        || prev[at + 4] != curr[at + 4] || prev[at + 5] != curr[at + 5] || prev[at + 6] != curr[at
        + 6]
}

/// Setting bit `k` of a byte whose bits from `k` downwards are clear.
proof fn lemma_set_clear_bit(header: u8, k: u8)
    by (bit_vector)
    requires
        k < 8,
        (header as u16) % (0x100u16 >> (k as u16)) == 0,
    ensures
        (header | (0x80u8 >> k)) == header + (0x80u8 >> k),
{
}

/// The mask `0x80 >> k` has the weight of bit `k`.
proof fn lemma_mask_weight(k: u8)
    requires
        k < 8,
    ensures
        (0x80u8 >> k) as int == bit_weight(k as int),
        (0x100u16 >> (k as u16)) as int == 2 * bit_weight(k as int),
{
    assert(k < 8 ==> (0x80u8 >> k) == (if k == 0 {
        128u8
    } else if k == 1 {
        64u8
    } else if k == 2 {
        32u8
    } else if k == 3 {
        16u8
    } else if k == 4 {
        8u8
    } else if k == 5 {
        4u8
    } else if k == 6 {
        2u8
    } else {
        1u8
    })) by (bit_vector);
    assert(k < 8 ==> (0x100u16 >> (k as u16)) == 2 * ((0x80u8 >> k) as u16)) by (bit_vector);
}

/// Setting bit `k` by `|` adds its weight, when the byte is a multiple of
/// the weight of bit `k - 1`.
proof fn lemma_or_adds_weight(header: u8, k: u8)
    requires
        k < 8,
        k == 0 ==> header == 0,
        k >= 1 ==> header as int % bit_weight(k - 1) == 0,
    ensures
        (header | (0x80u8 >> k)) as int == header + bit_weight(k as int),
{
    lemma_mask_weight(k);
    // the byte is a multiple of `0x100 >> k`, twice the weight of bit `k`
    let span: u16 = 0x100u16 >> (k as u16);
    if k == 0 {
        assert(span == 256);
    } else if k == 1 {
        assert(span == 128);
    } else if k == 2 {
        assert(span == 64);
    } else if k == 3 {
        assert(span == 32);
    } else if k == 4 {
        assert(span == 16);
    } else if k == 5 {
        assert(span == 8);
    } else if k == 6 {
        assert(span == 4);
    } else {
        assert(span == 2);
    }
    assert((header as u16) % span == 0);
    lemma_set_clear_bit(header, k);
}

/// Encodes the change from `prev` to `curr` as a delta stream.
///
/// Both frames must have the same length, a multiple of eight bytes. The
/// stream holds one header byte for every eight pairs, rounded up, each
/// followed by the colours of the pairs it flags; an empty frame gives an
/// empty stream. The result depends on nothing but the two frames, and
/// [`crate::diff_byte_header_copy_onto`] applied with it to a copy of `prev`
/// yields the colour bytes of `curr` over the alpha bytes of `prev`.
pub fn diff_byte_header(prev: &[u8], curr: &[u8]) -> (out: Vec<u8>)
    requires
        prev@.len() == curr@.len(),
        prev@.len() % 8 == 0,
    ensures
        out@ == encoded(prev@, curr@),
        decoded(prev@, out@) == Ok::<Seq<u8>, DecodeError>(overlay_rgb(prev@, curr@)),
{
    proof {
        lemma_round_trip(prev@, curr@);
    }
    let mut out: Vec<u8> = Vec::new();
    let mut to_add: Vec<u8> = Vec::with_capacity(GROUP_PAIRS * PAIR_PAYLOAD);
    let mut header: u8 = 0;
    let mut i: usize = 0;
    let mut k: u8 = 0;
    let ghost mut g: int = 0;
    while i < prev.len()
        invariant
            prev@.len() == curr@.len(),
            prev@.len() % 8 == 0,
            i <= prev@.len(),
            0 <= k < 8,
            0 <= g,
            i == 8 * (8 * g + k),
            out@ == groups_upto(prev@, curr@, g),
            to_add@ == payload_upto(prev@, curr@, g, k as int),
            header as int == header_upto(prev@, curr@, g, k as int),
        decreases prev@.len() - i,
    {
        let ghost p: int = 8 * g + k;
        if pair_differs(prev, curr, i) {
            to_add.push(curr[i]);
            to_add.push(curr[i + 1]);
            to_add.push(curr[i + 2]);
            to_add.push(curr[i + 4]);
            to_add.push(curr[i + 5]);
            to_add.push(curr[i + 6]);
            proof {
                lemma_header_shape(prev@, curr@, g, k as int);
                lemma_or_adds_weight(header, k);
                assert(to_add@ == payload_upto(prev@, curr@, g, k as int) + pair_payload(
                    curr@,
                    p,
                ));
            }
            header |= 0x80 >> k;
        }
        k += 1;
        if k == 8 {
            out.push(header);
            out.extend_from_slice(&to_add);
            header = 0;
            to_add.clear();
            k = 0;
            proof {
                g = g + 1;
            }
        }
        i += PAIR_BYTES;
    }
    if k > 0 {
        proof {
            lemma_unflagged_tail(prev@, curr@, g, k as int, 8);
        }
        out.push(header);
        out.extend_from_slice(&to_add);
        assert(out@ == groups_upto(prev@, curr@, g + 1));
    }
    out
}

} // verus!
