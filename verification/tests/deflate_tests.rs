use reduct_kernels::compression::deflate::{
    compress_text, decompress_bytes, text_of_content, to_compression_level,
    CompressionAlgorithm, CompressionLevel,
};
use reduct_kernels::error::KernelError;

const ALGORITHMS: [CompressionAlgorithm; 3] =
    [CompressionAlgorithm::Gzip, CompressionAlgorithm::Deflate, CompressionAlgorithm::Zlib];

const LEVELS: [CompressionLevel; 4] = [
    CompressionLevel::Uncompressed,
    CompressionLevel::Fast,
    CompressionLevel::Default,
    CompressionLevel::Best,
];

#[test]
fn level_numbers() {
    assert_eq!(to_compression_level(CompressionLevel::Uncompressed), 0);
    assert_eq!(to_compression_level(CompressionLevel::Fast), 1);
    assert_eq!(to_compression_level(CompressionLevel::Default), 6);
    assert_eq!(to_compression_level(CompressionLevel::Best), 9);
}

#[test]
fn streams_round_trip() {
    let text = "the quick brown fox jumps over the lazy dog, the quick brown fox";
    for algorithm in ALGORITHMS {
        for level in LEVELS {
            let stream = compress_text(text, algorithm, level).unwrap();
            assert_ne!(stream, text.as_bytes().to_vec());
            assert_eq!(decompress_bytes(&stream, algorithm), Ok(text.to_string()));
        }
    }
}

#[test]
fn streams_differ_by_format() {
    let gzip = compress_text("abc", CompressionAlgorithm::Gzip, CompressionLevel::Default).unwrap();
    let zlib = compress_text("abc", CompressionAlgorithm::Zlib, CompressionLevel::Default).unwrap();
    let raw = compress_text("abc", CompressionAlgorithm::Deflate, CompressionLevel::Default).unwrap();
    assert_eq!(&gzip[..3], &[0x1f, 0x8b, 8]);
    assert_eq!(zlib[0] & 0x0f, 8);
    assert!(raw.len() < zlib.len() && zlib.len() < gzip.len());
}

#[test]
fn same_input_gives_same_stream() {
    for algorithm in ALGORITHMS {
        let a = compress_text("reproducible", algorithm, CompressionLevel::Best).unwrap();
        let b = compress_text("reproducible", algorithm, CompressionLevel::Best).unwrap();
        assert_eq!(a, b);
    }
}

#[test]
fn broken_streams_are_errors() {
    for algorithm in ALGORITHMS {
        assert_eq!(
            decompress_bytes(&[0xde, 0xad, 0xbe, 0xef, 1, 2, 3], algorithm),
            Err(KernelError::DecompressionFailed)
        );
    }
    let mut stream =
        compress_text("truncate me", CompressionAlgorithm::Gzip, CompressionLevel::Default).unwrap();
    stream.truncate(stream.len() - 3);
    assert_eq!(
        decompress_bytes(&stream, CompressionAlgorithm::Gzip),
        Err(KernelError::DecompressionFailed)
    );
}

#[test]
fn content_that_is_not_text_is_an_error() {
    assert_eq!(text_of_content(None), Err(KernelError::DecompressionFailed));
    assert_eq!(text_of_content(Some(vec![0xff, 0xfe])), Err(KernelError::InvalidUtf8));
    assert_eq!(text_of_content(Some(vec![b'o', b'k'])), Ok("ok".to_string()));
}
