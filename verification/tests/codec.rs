//! Golden-vector tests for the codec: known inputs, their exact compressed
//! streams, and decoding back.

use lzokay::Error;
use lzokay::compress::{compress, compress_no_alloc, compress_with_dict, compress_worst_size, Dict};
use lzokay::decompress::decompress;

fn input_1() -> Vec<u8> {
    b"the quick brown fox jumps over the lazy dog. ".repeat(20)
}

fn expected_1() -> Vec<u8> {
    vec![0x30, 0x74, 0x68, 0x65, 0x20, 0x71, 0x75, 0x69, 0x63, 0x6b, 0x20, 0x62, 0x72, 0x6f, 0x77, 0x6e, 0x20, 0x66, 0x6f, 0x78, 0x20, 0x6a, 0x75, 0x6d, 0x70, 0x73, 0x20, 0x6f, 0x76, 0x65, 0x72, 0x20, 0x78, 0x03, 0x06, 0x6c, 0x61, 0x7a, 0x79, 0x20, 0x64, 0x6f, 0x67, 0x2e, 0x94, 0x01, 0x20, 0x00, 0x00, 0x00, 0x35, 0xb0, 0x00, 0x11, 0x00, 0x00]
}

fn input_2() -> Vec<u8> {
    b"lorem ipsum dolor sit amet, consectetur adipiscing elit, sed do eiusmod tempor. "
        .repeat(16)
}

fn expected_2() -> Vec<u8> {
    vec![0x1f, 0x6c, 0x6f, 0x72, 0x65, 0x6d, 0x20, 0x69, 0x70, 0x73, 0x75, 0x6d, 0x20, 0x64, 0x6f, 0x54, 0x01, 0x00, 0x13, 0x20, 0x73, 0x69, 0x74, 0x20, 0x61, 0x6d, 0x65, 0x74, 0x2c, 0x20, 0x63, 0x6f, 0x6e, 0x73, 0x65, 0x63, 0x74, 0x65, 0x74, 0x75, 0x72, 0x20, 0x61, 0x64, 0x69, 0x70, 0x69, 0x73, 0x63, 0x69, 0x6e, 0x67, 0x20, 0x65, 0x6c, 0x69, 0x53, 0x03, 0x73, 0x65, 0x64, 0x40, 0x06, 0x0e, 0x20, 0x65, 0x69, 0x75, 0x73, 0x6d, 0x6f, 0x64, 0x20, 0x74, 0x65, 0x6d, 0x70, 0x6f, 0x72, 0x2e, 0x20, 0x20, 0x00, 0x00, 0x00, 0x00, 0x93, 0x3c, 0x01, 0x11, 0x00, 0x00]
}

#[test]
fn test_compress() {
    let dst = compress(&input_1()).expect("Failed to compress");
    assert_eq!(dst, expected_1());
}

#[test]
fn test_compress_with_dict() {
    let mut dict = Dict::new();
    let dst = compress_with_dict(&input_1(), &mut dict).expect("Failed to compress (1)");
    assert_eq!(dst, expected_1());
    let dst = compress_with_dict(&input_2(), &mut dict).expect("Failed to compress (2)");
    assert_eq!(dst, expected_2());
}

#[test]
fn test_compress_no_alloc() {
    let mut dict = Dict::new_const();
    let mut dst = vec![0u8; compress_worst_size(input_1().len().max(input_2().len()))];
    let out_size =
        compress_no_alloc(&input_1(), &mut dst, &mut dict).expect("Failed to compress (1)");
    assert_eq!(&dst[0..out_size], expected_1().as_slice());
    let out_size =
        compress_no_alloc(&input_2(), &mut dst, &mut dict).expect("Failed to compress (2)");
    assert_eq!(&dst[0..out_size], expected_2().as_slice());
}

#[test]
fn test_decompress() {
    let mut dst = vec![0u8; input_1().len().max(input_2().len())];
    let size = decompress(&expected_1(), &mut dst).expect("Failed to decompress (1)");
    assert_eq!(&dst[0..size], input_1().as_slice());
    let size = decompress(&expected_2(), &mut dst).expect("Failed to decompress (2)");
    assert_eq!(&dst[0..size], input_2().as_slice());
}

#[test]
fn test_round_trip() {
    let mut input = input_1();
    input.extend_from_slice(&input_2());
    input.extend_from_slice(b"and a tail that appears only once");
    let compressed = compress(&input).expect("Failed to compress");
    let mut dst = vec![0u8; input.len()];
    let size = decompress(&compressed, &mut dst).expect("Failed to decompress");
    assert_eq!(size, input.len());
    assert_eq!(input, dst);
}

#[test]
fn round_trip_errors_match_error_codes() {
    // A truncated stream is an input overrun; trailing garbage is unconsumed
    // input; and a too-small output buffer is an output overrun.
    let compressed = compress(&input_1()).expect("Failed to compress");
    let n = input_1().len();
    let mut dst = vec![0u8; n];
    assert_eq!(
        decompress(&compressed[..compressed.len() - 1], &mut dst),
        Err(Error::InputOverrun)
    );
    let mut garbage = compressed.clone();
    garbage.push(0xff);
    assert_eq!(decompress(&garbage, &mut dst), Err(Error::InputNotConsumed));
    let mut small = vec![0u8; 4];
    assert_eq!(decompress(&compressed, &mut small), Err(Error::OutputOverrun));
}
