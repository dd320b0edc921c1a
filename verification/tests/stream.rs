//! Tests of the byte stream itself: literal priming, opcode shapes, the
//! terminator, zero-run length extensions, overlap copies, the worst-case
//! size bound, dictionary reuse, and every error code.

use lzokay::Error;
use lzokay::compress::{compress, compress_no_alloc, compress_with_dict, compress_worst_size, Dict};
use lzokay::decompress::decompress;

#[test]
fn all_zeroes_compresses_to_known_stream() {
    let input = vec![0u8; 512];
    let dst = compress(&input).expect("Failed to compress");
    assert_eq!(dst.len(), 10);
    assert_eq!(dst, vec![0x12, 0x00, 0x20, 0x00, 0xdf, 0x00, 0x00, 0x11, 0x00, 0x00]);
}

#[test]
fn known_stream_decompresses_to_all_zeroes() {
    let src = vec![0x12, 0x00, 0x20, 0x00, 0xdf, 0x00, 0x00, 0x11, 0x00, 0x00];
    let mut dst = vec![1u8; 512];
    let size = decompress(&src, &mut dst).expect("Failed to decompress");
    assert_eq!(size, 512);
    assert_eq!(dst, vec![0u8; 512]);
}

#[test]
fn short_unmatchable_input_is_one_literal_run() {
    // No internal matches: the first byte is 17 + length, then the source
    // bytes, then the terminator.
    let input = b"abcdefghij".to_vec();
    let dst = compress(&input).expect("Failed to compress");
    let mut expected = vec![17 + 10u8];
    expected.extend_from_slice(b"abcdefghij");
    expected.extend_from_slice(&[0x11, 0x00, 0x00]);
    assert_eq!(dst, expected);
}

#[test]
fn priming_byte_for_short_inputs() {
    // For 0 < len <= 238 with no internal matches, the first emitted byte is
    // 17 + len (strictly increasing bytes cannot match).
    for n in [1usize, 2, 37, 238] {
        let input: Vec<u8> = (0..n).map(|i| i as u8).collect();
        let dst = compress(&input).expect("Failed to compress");
        assert_eq!(dst[0], (17 + n) as u8);
    }
}

#[test]
fn empty_input_is_bare_terminator() {
    let dst = compress(&[]).expect("Failed to compress");
    assert_eq!(dst, vec![0x11, 0x00, 0x00]);
    let mut empty: Vec<u8> = Vec::new();
    let size = decompress(&dst, &mut empty).expect("Failed to decompress");
    assert_eq!(size, 0);
}

#[test]
fn every_stream_ends_with_terminator() {
    for input in [Vec::new(), vec![7u8; 1000], (0..200u8).collect::<Vec<u8>>()] {
        let dst = compress(&input).expect("Failed to compress");
        assert_eq!(&dst[dst.len() - 3..], &[0x11, 0x00, 0x00]);
    }
}

#[test]
fn overlap_run_extends_a_single_byte() {
    // One literal 'a', then an M3 match of length 34 at distance 1: the
    // forward byte-by-byte copy turns it into 35 copies of 'a'.
    let src = vec![0x12, 0x61, 0x20, 0x01, 0x00, 0x00, 0x11, 0x00, 0x00];
    let mut dst = vec![0u8; 64];
    let size = decompress(&src, &mut dst).expect("Failed to decompress");
    assert_eq!(size, 35);
    assert_eq!(&dst[..35], vec![0x61u8; 35].as_slice());
}

#[test]
fn zero_run_extended_overlap_run() {
    // An M3 length extended through a zero-run byte: one zero marker and tail
    // 0xfc give 2 + 255 + 31 + 252 = 540 copied bytes at distance 1.
    let src = vec![0x12, 0x61, 0x20, 0x00, 0xfc, 0x00, 0x00, 0x11, 0x00, 0x00];
    let mut dst = vec![0u8; 541];
    let size = decompress(&src, &mut dst).expect("Failed to decompress");
    assert_eq!(size, 541);
    assert_eq!(dst, vec![0x61u8; 541]);
}

#[test]
fn truncated_stream_is_input_overrun() {
    let input = vec![0xaa; 700];
    let compressed = compress(&input).expect("Failed to compress");
    for cut in 1..compressed.len() {
        let mut dst = vec![0u8; 700];
        assert_eq!(decompress(&compressed[..cut], &mut dst), Err(Error::InputOverrun));
    }
}

#[test]
fn trailing_garbage_is_input_not_consumed() {
    let input = b"some bytes, some bytes, and more of the same bytes".to_vec();
    let mut compressed = compress(&input).expect("Failed to compress");
    compressed.push(0xff);
    let mut dst = vec![0u8; input.len()];
    assert_eq!(decompress(&compressed, &mut dst), Err(Error::InputNotConsumed));
}

#[test]
fn undersized_dst_is_output_overrun() {
    // For any source whose compressed stream is k bytes, an output buffer of
    // k - 1 bytes (or less) yields an output overrun.
    let inputs = [Vec::new(), vec![0u8; 512], b"abcdefghij".to_vec(), vec![0xaa; 4096]];
    for input in inputs {
        let mut dict = Dict::new();
        let compressed = compress(&input).expect("Failed to compress");
        let k = compressed.len();
        for short in [k - 1, k / 2, 0] {
            let mut dst = vec![0u8; short];
            assert_eq!(
                compress_no_alloc(&input, &mut dst, &mut dict),
                Err(Error::OutputOverrun)
            );
        }
        let mut exact = vec![0u8; k];
        let size = compress_no_alloc(&input, &mut exact, &mut dict).expect("Failed to compress");
        assert_eq!(size, k);
        assert_eq!(exact, compressed);
    }
}

#[test]
fn worst_case_bound_holds() {
    for input in [Vec::new(), (0..255u8).collect::<Vec<u8>>(), vec![3u8; 10_000]] {
        let compressed = compress(&input).expect("Failed to compress");
        assert!(compressed.len() <= compress_worst_size(input.len()));
    }
}

#[test]
fn dict_reuse_matches_fresh_dict() {
    // Reusing a dictionary across calls yields the same bytes as using a
    // fresh dictionary for each call.
    let a: Vec<u8> = (0..3000u32).map(|i| (i * 2654435761u32 >> 24) as u8).collect();
    let b: Vec<u8> = (0..3000u32).map(|i| (i * 40503u32 >> 8) as u8).collect();
    let fresh_a = compress(&a).expect("Failed to compress");
    let fresh_b = compress(&b).expect("Failed to compress");
    let mut shared = Dict::new();
    let reused_a = compress_with_dict(&a, &mut shared).expect("Failed to compress");
    let reused_b = compress_with_dict(&b, &mut shared).expect("Failed to compress");
    assert_eq!(fresh_a, reused_a);
    assert_eq!(fresh_b, reused_b);
    let mut dst = vec![0u8; 3000];
    let size = decompress(&reused_a, &mut dst).expect("Failed to decompress");
    assert_eq!(&dst[..size], a.as_slice());
    let size = decompress(&reused_b, &mut dst).expect("Failed to decompress");
    assert_eq!(&dst[..size], b.as_slice());
}

#[test]
fn repeated_byte_round_trips() {
    let input = vec![0xaa; 4096];
    let compressed = compress(&input).expect("Failed to compress");
    let mut dst = vec![0u8; 4096];
    let size = decompress(&compressed, &mut dst).expect("Failed to decompress");
    assert_eq!(size, 4096);
    assert_eq!(dst, input);
}

#[test]
fn random_buffers_round_trip() {
    // A small linear-congruential fuzz over varied lengths.
    let mut seed = 0x12345678u32;
    for n in [0usize, 1, 2, 3, 17, 64, 255, 256, 1000, 4096, 20_000] {
        let input: Vec<u8> = (0..n)
            .map(|_| {
                seed = seed.wrapping_mul(1664525).wrapping_add(1013904223);
                (seed >> 17) as u8
            })
            .collect();
        let compressed = compress(&input).expect("Failed to compress");
        let mut dst = vec![0u8; n];
        let size = decompress(&compressed, &mut dst).expect("Failed to decompress");
        assert_eq!(size, n);
        assert_eq!(dst, input);
    }
}

#[test]
fn bad_lookback_is_lookbehind_overrun() {
    // One literal 'a', then an M3 opcode whose distance reaches before the
    // start of the output.
    let src = vec![0x12, 0x61, 0x22, 0xff, 0x00, 0x11, 0x00, 0x00];
    let mut dst = vec![0u8; 64];
    assert_eq!(decompress(&src, &mut dst), Err(Error::LookbehindOverrun));
}

#[test]
fn terminator_with_wrong_length_is_error() {
    // An M4 instruction with distance 0 but encoded length 4 instead of 3.
    let src = vec![0x12, 0x61, 0x12, 0x00, 0x00];
    let mut dst = vec![0u8; 64];
    assert_eq!(decompress(&src, &mut dst), Err(Error::Error));
}

#[test]
fn too_short_input_is_input_overrun() {
    for src in [Vec::new(), vec![0x11], vec![0x11, 0x00]] {
        let mut dst = vec![0u8; 8];
        assert_eq!(decompress(&src, &mut dst), Err(Error::InputOverrun));
    }
}
