use frame_delta::{diff_byte_header, diff_byte_header_copy_onto, DecodeError};
use rand::random;

/// A small deterministic generator, so that a failure can be repeated.
fn noise(seed: u64, len: usize) -> Vec<u8> {
    let mut state = seed;
    let mut out = Vec::with_capacity(len);
    for _ in 0..len {
        state = state
            .wrapping_mul(6364136223846793005)
            .wrapping_add(1442695040888963407);
        out.push((state >> 33) as u8);
    }
    out
}

/// The colour bytes of `frame` over the alpha bytes of `base`.
fn colours_over(base: &[u8], frame: &[u8]) -> Vec<u8> {
    base.iter()
        .zip(frame.iter())
        .enumerate()
        .map(|(j, (b, f))| if j % 4 == 3 { *b } else { *f })
        .collect()
}

#[test]
fn should_make_byte_header() {
    let original = vec![1, 2, 3, 4, 5, 6, 7, 8];
    let copy = original.clone();
    let different = vec![8, 7, 6, 5, 4, 3, 2, 1];

    let diff_copy = diff_byte_header(&original, &copy);
    assert_eq!(
        diff_copy.len(),
        1,
        "Since it's equal, it should have only one byte"
    );
    assert_eq!(diff_copy[0], 0, "Since it's equal, header should be all 0s");

    let diff_diff = diff_byte_header(&original, &different);
    assert_eq!(
        diff_diff.len(),
        7,
        "Since it's different, it should have 7 bytes. 1 for the header, 6 for the colors"
    );
    assert_eq!(
        diff_diff[0], 0x80,
        "Since it's different in the first position, header should be 1000 0000"
    );

    assert_eq!(
        diff_diff[1..4],
        different[0..3],
        "We should have stored the different bytes"
    );

    assert_eq!(
        diff_diff[4..7],
        different[4..7],
        "We should have stored the different bytes"
    );
}

#[test]
fn should_compress_and_decompress_to_small() {
    let frame1 = [1, 2, 3, 4, 5, 6, 7, 8];
    let frame2 = [1, 2, 3, 4, 8, 7, 6, 5];
    let compreesed = diff_byte_header(&frame1, &frame2);
    assert_eq!(compreesed, [0x80, 1, 2, 3, 8, 7, 6]);

    let mut buf = frame1.clone();
    diff_byte_header_copy_onto(&mut buf, &compreesed).unwrap();
    for i in 0..2 {
        for j in 0..3 {
            assert_eq!(
                frame2[i * 4 + j],
                buf[i * 4 + j],
                "\nframe2: {:?}, buf: {:?}\n",
                frame2,
                buf
            );
        }
    }
}

#[test]
fn should_compress_and_decompress_to_same_info() {
    for _ in 0..10 {
        let mut original = Vec::with_capacity(20);
        for _ in 0..20 {
            let mut v = Vec::with_capacity(4000);
            for _ in 0..4000 {
                v.push(random::<u8>());
            }
            original.push(v);
        }

        let mut compressed = Vec::with_capacity(20);
        compressed.push(diff_byte_header(original.last().unwrap(), &original[0]));
        for i in 1..20 {
            compressed.push(diff_byte_header(&original[i - 1], &original[i]));
        }

        let mut buf = original.last().unwrap().clone();
        for i in 0..20 {
            diff_byte_header_copy_onto(&mut buf, &compressed[i]).unwrap();
            let mut j = 0;
            while j < 4000 {
                for k in 0..3 {
                    assert_eq!(buf[j + k], original[i][j + k], "Failed at index: {}", j + k);
                }
                j += 4;
            }
        }
    }
}

#[test]
fn single_changed_pair_gives_header_and_six_bytes() {
    let prev = [1u8, 2, 3, 4, 5, 6, 7, 8];
    let curr = [1u8, 2, 3, 4, 8, 7, 6, 5];
    assert_eq!(diff_byte_header(&prev, &curr), vec![0x80, 1, 2, 3, 8, 7, 6]);
}

#[test]
fn empty_frames_give_an_empty_stream() {
    assert_eq!(diff_byte_header(&[], &[]), Vec::<u8>::new());
    let mut buf: [u8; 0] = [];
    assert_eq!(diff_byte_header_copy_onto(&mut buf, &[]), Ok(()));
}

#[test]
fn unchanged_frame_costs_one_zero_byte_a_group() {
    for (len, groups) in [(8usize, 1usize), (56, 1), (64, 1), (72, 2), (128, 2), (136, 3), (4000, 63)] {
        let frame = noise(len as u64, len);
        assert_eq!(diff_byte_header(&frame, &frame), vec![0u8; groups], "length {}", len);
    }
}

#[test]
fn full_group_is_not_followed_by_an_empty_one() {
    let prev = vec![0u8; 64];
    let mut curr = prev.clone();
    curr[56] = 9;
    assert_eq!(diff_byte_header(&prev, &curr), vec![0x01, 9, 0, 0, 0, 0, 0]);
}

#[test]
fn header_bits_run_from_the_most_significant() {
    let prev = vec![0u8; 80];
    let mut curr = prev.clone();
    // pairs 0, 2 and 7 of the first group, pair 1 of the second
    curr[0] = 10;
    curr[16 + 5] = 20;
    curr[56 + 6] = 30;
    curr[64 + 8 + 2] = 40;
    let stream = diff_byte_header(&prev, &curr);
    let expected: Vec<u8> = vec![
        0b1010_0001, 10, 0, 0, 0, 0, 0, 0, 0, 0, 0, 20, 0, 0, 0, 0, 0, 0, 30,
        0b0100_0000, 0, 0, 40, 0, 0, 0,
    ];
    assert_eq!(stream, expected);
}

#[test]
fn alpha_changes_are_not_flagged() {
    let prev = [1u8, 2, 3, 4, 5, 6, 7, 8];
    let curr = [1u8, 2, 3, 200, 5, 6, 7, 100];
    assert_eq!(diff_byte_header(&prev, &curr), vec![0u8]);
}

#[test]
fn each_colour_channel_is_compared() {
    let prev = [0u8; 8];
    for at in [0usize, 1, 2, 4, 5, 6] {
        let mut curr = prev;
        curr[at] = 1;
        let stream = diff_byte_header(&prev, &curr);
        assert_eq!(stream.len(), 7, "offset {}", at);
        assert_eq!(stream[0], 0x80);
    }
}

#[test]
fn encoding_twice_gives_the_same_bytes() {
    let prev = noise(1, 4000);
    let curr = noise(2, 4000);
    assert_eq!(diff_byte_header(&prev, &curr), diff_byte_header(&prev, &curr));
}

#[test]
fn encoding_depends_on_colours_only() {
    let prev = noise(3, 256);
    let curr = noise(4, 256);
    let mut prev_other_alpha = prev.clone();
    let mut curr_other_alpha = curr.clone();
    for j in (3..256).step_by(4) {
        prev_other_alpha[j] = prev[j].wrapping_add(1);
        curr_other_alpha[j] = curr[j].wrapping_add(7);
    }
    assert_eq!(
        diff_byte_header(&prev, &curr),
        diff_byte_header(&prev_other_alpha, &curr_other_alpha)
    );
}

#[test]
fn decoding_undoes_encoding_and_keeps_alpha() {
    for len in [0usize, 8, 16, 64, 72, 4000] {
        let prev = noise(len as u64 + 10, len);
        let curr = noise(len as u64 + 20, len);
        let stream = diff_byte_header(&prev, &curr);
        let mut buf = prev.clone();
        assert_eq!(diff_byte_header_copy_onto(&mut buf, &stream), Ok(()));
        assert_eq!(buf, colours_over(&prev, &curr), "length {}", len);
    }
}

#[test]
fn decoding_onto_other_alpha_keeps_that_alpha() {
    let prev = noise(5, 128);
    let curr = noise(6, 128);
    let stream = diff_byte_header(&prev, &curr);
    let mut buf = prev.clone();
    for j in (3..128).step_by(4) {
        buf[j] = 0xAB;
    }
    let before = buf.clone();
    assert_eq!(diff_byte_header_copy_onto(&mut buf, &stream), Ok(()));
    assert_eq!(buf, colours_over(&before, &curr));
}

#[test]
fn sparse_change_round_trips() {
    let prev = noise(7, 4000);
    let mut curr = prev.clone();
    curr[17] ^= 0xFF;
    curr[3998] ^= 0x01;
    let stream = diff_byte_header(&prev, &curr);
    assert_eq!(stream.len(), 63 + 2 * 6);
    let mut buf = prev.clone();
    assert_eq!(diff_byte_header_copy_onto(&mut buf, &stream), Ok(()));
    assert_eq!(buf, colours_over(&prev, &curr));
}

#[test]
fn decoder_writes_the_flagged_pairs_only() {
    let mut buf = [0u8; 24];
    let stream = [0b0100_0000u8, 1, 2, 3, 4, 5, 6];
    assert_eq!(diff_byte_header_copy_onto(&mut buf, &stream), Ok(()));
    assert_eq!(
        buf,
        [0, 0, 0, 0, 0, 0, 0, 0, 1, 2, 3, 0, 4, 5, 6, 0, 0, 0, 0, 0, 0, 0, 0, 0]
    );
}

#[test]
fn trailing_empty_groups_are_accepted() {
    let mut buf = [9u8; 8];
    let stream = [0x80u8, 1, 2, 3, 4, 5, 6, 0, 0, 0];
    assert_eq!(diff_byte_header_copy_onto(&mut buf, &stream), Ok(()));
    assert_eq!(buf, [1, 2, 3, 9, 4, 5, 6, 9]);
}

#[test]
fn short_payload_is_malformed_and_leaves_the_buffer() {
    let mut buf = [1u8, 2, 3, 4, 5, 6, 7, 8];
    for cut in 1..7 {
        let stream = [0x80u8, 9, 9, 9, 9, 9, 9];
        assert_eq!(
            diff_byte_header_copy_onto(&mut buf, &stream[..cut]),
            Err(DecodeError::MalformedDelta),
            "cut at {}",
            cut
        );
        assert_eq!(buf, [1, 2, 3, 4, 5, 6, 7, 8]);
    }
}

#[test]
fn fault_in_a_later_group_leaves_the_buffer() {
    let mut buf = [0u8; 128];
    let mut stream = vec![0x80u8, 1, 1, 1, 1, 1, 1];
    stream.extend_from_slice(&[0xFF, 2, 2, 2]);
    assert_eq!(
        diff_byte_header_copy_onto(&mut buf, &stream),
        Err(DecodeError::MalformedDelta)
    );
    assert_eq!(buf, [0u8; 128]);
}

#[test]
fn pair_beyond_the_buffer_is_buffer_too_small() {
    let mut buf = [7u8; 8];
    let stream = [0x40u8, 1, 2, 3, 4, 5, 6];
    assert_eq!(
        diff_byte_header_copy_onto(&mut buf, &stream),
        Err(DecodeError::BufferTooSmall)
    );
    assert_eq!(buf, [7u8; 8]);

    let mut short = [7u8; 6];
    let first = [0x80u8, 1, 2, 3, 4, 5, 6];
    assert_eq!(
        diff_byte_header_copy_onto(&mut short, &first),
        Err(DecodeError::BufferTooSmall)
    );
    assert_eq!(short, [7u8; 6]);
}

#[test]
fn seven_bytes_hold_the_colours_of_one_pair() {
    let mut buf = [7u8; 7];
    let stream = [0x80u8, 1, 2, 3, 4, 5, 6];
    assert_eq!(diff_byte_header_copy_onto(&mut buf, &stream), Ok(()));
    assert_eq!(buf, [1, 2, 3, 7, 4, 5, 6]);
}

#[test]
fn cut_payload_is_reported_before_a_pair_beyond_the_buffer() {
    let mut buf = [7u8; 8];
    let stream = [0x40u8, 1, 2, 3];
    assert_eq!(
        diff_byte_header_copy_onto(&mut buf, &stream),
        Err(DecodeError::MalformedDelta)
    );
}

#[test]
fn chained_deltas_follow_the_frames() {
    for trial in 0..10u64 {
        let frames: Vec<Vec<u8>> = (0..20).map(|i| noise(trial * 100 + i, 4000)).collect();
        let mut deltas = Vec::with_capacity(20);
        deltas.push(diff_byte_header(&frames[19], &frames[0]));
        for i in 1..20 {
            deltas.push(diff_byte_header(&frames[i - 1], &frames[i]));
        }
        let mut buf = frames[19].clone();
        for i in 0..20 {
            assert_eq!(diff_byte_header_copy_onto(&mut buf, &deltas[i]), Ok(()));
            assert_eq!(buf, colours_over(&frames[19], &frames[i]), "frame {}", i);
        }
    }
}
