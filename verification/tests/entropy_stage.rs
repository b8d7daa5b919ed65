use frame_delta::entropy::{compress, decompress, vet_block, FF_RUN_LIMIT, MAX_DECLARED_LEN};
use frame_delta::{DecodeError, EncodeError};

#[test]
fn short_data_is_stored_as_literals_behind_its_length() {
    assert_eq!(compress(&[1, 2, 3]), Ok(vec![3, 0, 0, 0, 0x30, 1, 2, 3]));
    assert_eq!(compress(&[]), Ok(vec![0, 0, 0, 0, 0]));
}

#[test]
fn block_unpacks_to_its_data() {
    assert_eq!(decompress(&[3, 0, 0, 0, 0x30, 1, 2, 3]), Ok(vec![1, 2, 3]));
    assert_eq!(decompress(&[0, 0, 0, 0, 0]), Ok(vec![]));
}

#[test]
fn prefix_is_the_length_in_little_endian() {
    let data = vec![5u8; 0x0102_03];
    let block = compress(&data).unwrap();
    assert_eq!(block[..4], [0x03, 0x02, 0x01, 0x00]);
    assert!(block.len() < data.len());
}

#[test]
fn compress_then_decompress_is_the_identity() {
    let mut data = Vec::new();
    for i in 0..5000u32 {
        data.push((i % 7) as u8);
        data.push((i / 256) as u8);
    }
    let block = compress(&data).unwrap();
    assert_ne!(block, data);
    assert_eq!(decompress(&block), Ok(data));
}

#[test]
fn compressing_twice_gives_the_same_block() {
    let data: Vec<u8> = (0..3000u32).map(|i| (i * i % 251) as u8).collect();
    assert_eq!(compress(&data), compress(&data));
}

#[test]
fn inputs_shorter_than_the_prefix_are_refused() {
    for len in 0..4 {
        assert_eq!(decompress(&vec![0u8; len]), Err(DecodeError::Entropy));
    }
}

#[test]
fn prefix_alone_is_refused() {
    assert_eq!(decompress(&[3, 0, 0, 0]), Err(DecodeError::Entropy));
}

#[test]
fn truncated_block_is_refused() {
    let data: Vec<u8> = (0..2000u32).map(|i| (i % 13) as u8).collect();
    let block = compress(&data).unwrap();
    for keep in 0..block.len() {
        assert_eq!(
            decompress(&block[..keep]),
            Err(DecodeError::Entropy),
            "kept {} of {}",
            keep,
            block.len()
        );
    }
}

#[test]
fn declared_length_must_match_what_comes_out() {
    // three literals behind a prefix that promises five, then two
    assert_eq!(
        decompress(&[5, 0, 0, 0, 0x30, 1, 2, 3]),
        Err(DecodeError::Entropy)
    );
    assert_eq!(
        decompress(&[2, 0, 0, 0, 0x30, 1, 2, 3]),
        Err(DecodeError::Entropy)
    );
}

#[test]
fn corrupted_blocks_never_panic() {
    let data: Vec<u8> = (0..600u32).map(|i| (i % 5) as u8).collect();
    let block = compress(&data).unwrap();
    for at in 0..block.len() {
        for flip in [0x01u8, 0x80, 0xFF] {
            let mut bad = block.clone();
            bad[at] ^= flip;
            match decompress(&bad) {
                Ok(out) => {
                    let declared = u32::from_le_bytes([bad[0], bad[1], bad[2], bad[3]]);
                    assert_eq!(out.len(), declared as usize);
                }
                Err(e) => assert_eq!(e, DecodeError::Entropy),
            }
        }
    }
}

#[test]
fn match_that_reaches_before_the_output_is_refused() {
    // no literals, then a match at distance 1 with nothing to copy from
    assert_eq!(
        decompress(&[8, 0, 0, 0, 0x04, 1, 0, 0x00]),
        Err(DecodeError::Entropy)
    );
}

#[test]
fn declared_length_above_the_limit_is_refused() {
    let over = (MAX_DECLARED_LEN + 1).to_le_bytes();
    assert_eq!(
        decompress(&[over[0], over[1], over[2], over[3], 0x00]),
        Err(DecodeError::Entropy)
    );
    assert_eq!(
        decompress(&[0xFF, 0xFF, 0xFF, 0xFF, 0x30, 1, 2, 3]),
        Err(DecodeError::Entropy)
    );
}

/// A block that stores `len` bytes `0xFF` as literals.
fn literal_ff_block(len: usize) -> Vec<u8> {
    let mut block = (len as u32).to_le_bytes().to_vec();
    block.push(0xF0);
    let rest = len - 15;
    block.extend(std::iter::repeat(0xFFu8).take(rest / 255));
    block.push((rest % 255) as u8);
    block.extend(std::iter::repeat(0xFFu8).take(len));
    block
}

#[test]
fn run_of_ff_at_the_limit_is_refused() {
    assert_eq!(
        decompress(&literal_ff_block(FF_RUN_LIMIT)),
        Err(DecodeError::Entropy)
    );
}

#[test]
fn run_of_ff_one_short_of_the_limit_is_accepted() {
    let data = decompress(&literal_ff_block(FF_RUN_LIMIT - 1)).unwrap();
    assert_eq!(data.len(), FF_RUN_LIMIT - 1);
    assert!(data.iter().all(|b| *b == 0xFF));
}

#[test]
fn long_white_data_round_trips() {
    let data = vec![0xFFu8; 9_000_000];
    let block = compress(&data).unwrap();
    assert!(block.len() < 100_000);
    assert_eq!(decompress(&block).unwrap(), data);
}

#[test]
fn data_beyond_the_declarable_length_is_too_large() {
    let data = vec![0u8; MAX_DECLARED_LEN as usize + 1];
    assert_eq!(compress(&data), Err(EncodeError::TooLarge));
}

#[test]
fn vetting_hands_an_ordinary_block_on() {
    assert_eq!(vet_block(vec![3, 0, 0, 0, 0x30, 1, 2, 3]), Ok(vec![3, 0, 0, 0, 0x30, 1, 2, 3]));
    assert_eq!(vet_block(vec![]), Ok(vec![]));
}

#[test]
fn vetting_refuses_a_run_of_ff_at_the_limit() {
    assert_eq!(
        vet_block(literal_ff_block(FF_RUN_LIMIT)),
        Err(EncodeError::TooLarge)
    );
    let short = literal_ff_block(FF_RUN_LIMIT - 1);
    assert_eq!(vet_block(short.clone()), Ok(short));
}

#[test]
fn run_of_ff_is_found_at_the_very_end_and_the_very_start() {
    let mut at_end = vec![0u8; 100];
    at_end.extend(std::iter::repeat(0xFFu8).take(FF_RUN_LIMIT));
    assert_eq!(vet_block(at_end), Err(EncodeError::TooLarge));

    let mut at_start = vec![0xFFu8; FF_RUN_LIMIT];
    at_start.extend_from_slice(&[0u8; 100]);
    assert_eq!(vet_block(at_start), Err(EncodeError::TooLarge));

    let mut broken = vec![0xFFu8; FF_RUN_LIMIT + 50];
    broken[100] = 0xFE;
    assert_eq!(vet_block(broken.clone()), Ok(broken));
}
