use compressor::rle::{decode, encode, RleError};
use compressor::{rle_compress, rle_decompress};

#[test]
fn encode_empty() {
    assert_eq!(encode(&[]), Vec::<u8>::new());
}

#[test]
fn decode_empty() {
    assert_eq!(decode(&[]), Ok(Vec::<u8>::new()));
}

#[test]
fn encode_no_runs() {
    assert_eq!(encode(&[1, 2, 3]), vec![1, 1, 2, 1, 3, 1]);
}

#[test]
fn encode_simple_runs() {
    assert_eq!(encode(&[65, 65, 65, 66]), vec![65, 3, 66, 1]);
}

#[test]
fn encode_splits_long_run() {
    let input = vec![0x41u8; 300];
    assert_eq!(encode(&input), vec![0x41, 255, 0x41, 45]);
}

#[test]
fn encode_runs_at_the_count_ceiling() {
    assert_eq!(encode(&vec![7u8; 255]), vec![7, 255]);
    assert_eq!(encode(&vec![7u8; 256]), vec![7, 255, 7, 1]);
    assert_eq!(encode(&vec![7u8; 510]), vec![7, 255, 7, 255]);
}

#[test]
fn decode_expands_records() {
    assert_eq!(decode(&[65, 3, 66, 1]), Ok(vec![65, 65, 65, 66]));
}

#[test]
fn decode_rejects_odd_length() {
    assert_eq!(decode(&[5]), Err(RleError::MalformedInput));
    assert_eq!(decode(&[65, 3, 66]), Err(RleError::MalformedInput));
}

#[test]
fn round_trip() {
    let mut long_mixed: Vec<u8> = vec![4; 300];
    long_mixed.extend([1, 2, 2, 0]);
    let cases: Vec<Vec<u8>> = vec![
        vec![],
        vec![0],
        vec![1, 2, 3],
        vec![9; 300],
        vec![0, 0, 1, 1, 1, 2, 255, 255],
        long_mixed,
    ];
    for b in cases {
        assert_eq!(decode(&encode(&b)), Ok(b));
    }
}

#[test]
fn encoded_format_is_even_with_valid_counts() {
    let mut input: Vec<u8> = vec![3; 700];
    input.extend([1, 2, 2, 9]);
    let e = encode(&input);
    assert_eq!(e.len() % 2, 0);
    let mut i = 1;
    while i < e.len() {
        assert!(e[i] >= 1);
        i += 2;
    }
}

#[test]
fn compress_and_decompress_forward_to_the_codec() {
    let input = vec![8u8, 8, 8, 1];
    let e = rle_compress(&input);
    assert_eq!(e, vec![8, 3, 1, 1]);
    assert_eq!(rle_decompress(&e), Ok(input));
    assert_eq!(rle_decompress(&[9]), Err(RleError::MalformedInput));
}
