use lzss::{compress, decompress, DecodeError};

fn pseudo_random(len: usize, seed: u32) -> Vec<u8> {
    let mut state = seed;
    let mut out = Vec::with_capacity(len);
    for _ in 0..len {
        state = state.wrapping_mul(1103515245).wrapping_add(12345);
        out.push((state >> 16) as u8);
    }
    out
}

fn round_trips(input: &[u8]) {
    let stream = compress(input);
    assert_eq!(decompress(&stream, input.len()), Ok(input.to_vec()));
}

#[test]
fn round_trip_short_inputs() {
    round_trips(b"");
    round_trips(b"a");
    round_trips(b"ab");
    round_trips(b"abab");
    round_trips(b"hello hello hello world, hello world");
}

#[test]
fn round_trip_beyond_one_window() {
    let mut input = pseudo_random(6000, 7);
    let copy: Vec<u8> = input[100..900].to_vec();
    input.extend_from_slice(&copy);
    input.extend_from_slice(&pseudo_random(3000, 11));
    input.extend_from_slice(&copy);
    round_trips(&input);
}

#[test]
fn round_trip_small_alphabet() {
    let input: Vec<u8> = pseudo_random(20000, 3).iter().map(|b| b % 4).collect();
    round_trips(&input);
}

#[test]
fn round_trip_long_run_of_one_byte() {
    round_trips(&vec![0u8; 12000]);
}

#[test]
fn round_trip_repeating_text() {
    let mut input = Vec::new();
    for i in 0..900u32 {
        input.extend_from_slice(format!("record {} of the save; ", i % 37).as_bytes());
    }
    let stream = compress(&input);
    assert!(stream.len() < input.len());
    assert_eq!(decompress(&stream, input.len()), Ok(input));
}

#[test]
fn literal_only_without_repeated_pairs() {
    let input: Vec<u8> = (0..=255u8).collect();
    let stream = compress(&input);
    assert_eq!(stream.len(), 256 + 32);
    for frame in 0..32 {
        assert_eq!(stream[frame * 9], 0xFF);
        assert_eq!(&stream[frame * 9 + 1..frame * 9 + 9], &input[frame * 8..frame * 8 + 8]);
    }
}

#[test]
fn literal_only_partial_last_frame() {
    let input = b"abcdefghij";
    let stream = compress(input);
    let mut expected = vec![0xFF];
    expected.extend_from_slice(b"abcdefgh");
    expected.push(0x03);
    expected.extend_from_slice(b"ij");
    assert_eq!(stream, expected);
}

#[test]
fn match_at_maximum_length() {
    let input = vec![b'a'; 20];
    let stream = compress(&input);
    assert_eq!(stream.len(), 6);
    assert_eq!(stream[0], 0x01);
    assert_eq!(stream[1], b'a');
    assert_eq!(stream[2], 0x0F);
    assert_eq!(stream[3], 0x00);
    assert_eq!(stream[4] & 0x0F, 0);
    assert_eq!(decompress(&stream, 20), Ok(input));
}

#[test]
fn offset_boundary_reaches_oldest_byte() {
    let history: Vec<u8> = (0..4096u32).map(|i| (i * 7 % 251) as u8).collect();
    let mut stream = Vec::new();
    for chunk in history.chunks(8) {
        stream.push(0xFF);
        stream.extend_from_slice(chunk);
    }
    stream.extend_from_slice(&[0x00, 0xF0, 0xFF]);
    let out = decompress(&stream, 4098).unwrap();
    assert_eq!(&out[..4096], &history[..]);
    assert_eq!(out[4096], history[0]);
    assert_eq!(out[4097], history[1]);
}

#[test]
fn minimum_length_match_is_encoded() {
    assert_eq!(compress(b"abab"), vec![0x03, b'a', b'b', 0x10, 0x00]);
    assert_eq!(decompress(&[0x03, b'a', b'b', 0x10, 0x00], 4), Ok(b"abab".to_vec()));
}

#[test]
fn single_byte_match_stays_literal() {
    assert_eq!(compress(b"aba"), vec![0x07, b'a', b'b', b'a']);
}

#[test]
fn overlapping_self_copy_expands_run() {
    assert_eq!(decompress(&[0x01, b'x', 0x03, 0x00], 6), Ok(b"xxxxxx".to_vec()));
}

#[test]
fn overlapping_copy_of_short_cycle() {
    assert_eq!(
        decompress(&[0x03, b'a', b'b', 0x14, 0x00], 8),
        Ok(b"abababab".to_vec())
    );
}

#[test]
fn empty_input() {
    assert_eq!(compress(b""), Vec::<u8>::new());
    assert_eq!(decompress(b"", 0), Ok(Vec::new()));
}

#[test]
fn offset_before_start_is_an_error() {
    assert_eq!(decompress(&[0x00, 0x00, 0x00], 2), Err(DecodeError::OffsetBeforeStart));
}

#[test]
fn truncated_back_reference_is_an_error() {
    assert_eq!(decompress(&[0x01, b'a', 0x05], 3), Err(DecodeError::Truncated));
}

#[test]
fn too_many_bytes_is_an_overrun() {
    assert_eq!(decompress(&[0x03, b'a', b'b'], 1), Err(DecodeError::Overrun));
    assert_eq!(decompress(&[0x01, b'a', 0x0F, 0x00], 5), Err(DecodeError::Overrun));
}

#[test]
fn too_few_bytes_is_an_underrun() {
    assert_eq!(decompress(&[0x03, b'a', b'b'], 5), Err(DecodeError::Underrun));
    assert_eq!(decompress(b"", 1), Err(DecodeError::Underrun));
}

#[test]
fn round_trip_every_length_up_to_three_hundred() {
    for len in 0..300usize {
        let input: Vec<u8> = pseudo_random(len, len as u32).iter().map(|b| b % 3).collect();
        round_trips(&input);
    }
}
