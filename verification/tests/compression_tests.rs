use reduct_kernels::compression::huffman::{
    huffman_compress, huffman_decode, huffman_decompress, huffman_encode,
};
use reduct_kernels::compression::rle::{rle_compress, rle_decode, rle_decompress, rle_encode};
use reduct_kernels::error::KernelError;

#[test]
fn rle_compress_example() {
    assert_eq!(rle_compress("aaabcc"), vec![3, b'a', 1, b'b', 2, b'c']);
}

#[test]
fn rle_compress_empty() {
    assert_eq!(rle_compress(""), Vec::<u8>::new());
    assert_eq!(rle_decompress(&[]), Ok(String::new()));
}

#[test]
fn rle_run_longer_than_255_is_split() {
    let text = "x".repeat(600);
    assert_eq!(rle_compress(&text), vec![255, b'x', 255, b'x', 90, b'x']);
    assert_eq!(rle_decompress(&rle_compress(&text)), Ok(text));
}

#[test]
fn rle_round_trip_text() {
    for text in ["a", "ab", "aabbaa", "hello world", "zzzzzzzzzzzzzzzzzzzz", "né ✓ 日本語"] {
        let coded = rle_compress(text);
        assert_eq!(coded.len() % 2, 0);
        assert_eq!(rle_decompress(&coded), Ok(text.to_string()));
    }
}

#[test]
fn rle_round_trip_bytes() {
    let bytes: Vec<u8> = vec![0, 0, 255, 255, 255, 7, 0, 0, 0, 0];
    assert_eq!(rle_encode(&bytes), vec![2, 0, 3, 255, 1, 7, 4, 0]);
    assert_eq!(rle_decode(&rle_encode(&bytes)), Ok(bytes));
}

#[test]
fn rle_odd_length_is_an_error() {
    assert_eq!(rle_decompress(&[3, b'a', 1]), Err(KernelError::InvalidRleData));
    assert_eq!(rle_decode(&[1]), Err(KernelError::InvalidRleData));
}

#[test]
fn rle_zero_count_emits_nothing() {
    assert_eq!(rle_decompress(&[0, b'a', 2, b'b']), Ok("bb".to_string()));
}

#[test]
fn rle_invalid_utf8_is_an_error() {
    assert_eq!(rle_decompress(&[1, 0xff]), Err(KernelError::InvalidUtf8));
}

#[test]
fn huffman_compress_empty() {
    assert_eq!(huffman_compress(""), Ok(Vec::new()));
    assert_eq!(huffman_decompress(&[]), Ok(String::new()));
}

#[test]
fn huffman_compress_exact_bytes() {
    // 'a' x3, 'b' x1, 'c' x2: b and c merge first (1 + 2), then a joins.
    // a = 0, b = 10, c = 11; "aaabcc" = 0 0 0 10 11 11 = 00010111 1(0000000).
    let coded = huffman_compress("aaabcc").unwrap();
    assert_eq!(
        coded,
        vec![3, b'a', 0, 0, 0, 3, b'b', 0, 0, 0, 1, b'c', 0, 0, 0, 2, 0b0001_0111, 0b1000_0000]
    );
}

#[test]
fn huffman_tie_goes_to_the_node_that_entered_first() {
    // Four bytes of frequency 1: a and b merge, then c and d, then the two.
    let coded = huffman_compress("abcd").unwrap();
    assert_eq!(coded[0], 4);
    assert_eq!(coded.len(), 1 + 4 * 5 + 1);
    assert_eq!(coded[21], 0b0001_1011);
    assert_eq!(huffman_decompress(&coded), Ok("abcd".to_string()));
}

#[test]
fn huffman_round_trip_without_padding() {
    // Eight symbols of two bits each: sixteen bits, no padding.
    let text = "abcdabcd";
    let coded = huffman_compress(text).unwrap();
    assert_eq!(huffman_decompress(&coded), Ok(text.to_string()));
}

#[test]
fn huffman_padding_decodes_to_nothing() {
    // a = 0, b = 10, c = 11 gives nine bits and seven zero bits of padding,
    // each of which would be the code of 'a': the decoder stops at six bytes.
    let coded = huffman_compress("aaabcc").unwrap();
    assert_eq!(huffman_decompress(&coded), Ok("aaabcc".to_string()));
}

#[test]
fn huffman_single_symbol_round_trips() {
    // One distinct byte: a tree of one leaf, no code bits, and the
    // frequency in the header tells how often the byte stands.
    let coded = huffman_compress("aaaa").unwrap();
    assert_eq!(coded, vec![1, b'a', 0, 0, 0, 4]);
    assert_eq!(huffman_decompress(&coded), Ok("aaaa".to_string()));
    assert_eq!(huffman_decompress(&huffman_compress("z").unwrap()), Ok("z".to_string()));
    let long = "q".repeat(70000);
    assert_eq!(huffman_decompress(&huffman_compress(&long).unwrap()), Ok(long));
}

#[test]
fn huffman_round_trip_for_any_number_of_code_bits() {
    // 29, 30 and 31 code bits under a tree whose leftmost leaf lies three
    // branches down, and texts of other shapes.
    let texts = [
        "abcdefghbb",
        "abcdefghab",
        "abcdefghbbb",
        "hello world",
        "mississippi river",
        "the quick brown fox",
        "ab",
        "aab",
        "né ✓ 日本語",
    ];
    for text in texts {
        let coded = huffman_compress(text).unwrap();
        assert_eq!(huffman_decompress(&coded), Ok(text.to_string()));
    }
}

#[test]
fn huffman_round_trip_of_growing_texts() {
    let alphabet = "abcdefghijklmnopqrstuvwxyz ,.";
    let mut text = String::new();
    let mut state: u32 = 12345;
    for _ in 0..300 {
        state = state.wrapping_mul(1103515245).wrapping_add(12345);
        let pick = ((state >> 16) % 29) as usize;
        let skewed = pick * pick / 29;
        text.push_str(&alphabet[skewed..skewed + 1]);
        let coded = huffman_compress(&text).unwrap();
        assert_eq!(huffman_decompress(&coded), Ok(text.clone()));
    }
}

#[test]
fn huffman_bits_after_the_last_byte_are_passed_over() {
    let mut coded = huffman_compress("aaabcc").unwrap();
    coded.push(0xff);
    coded.push(0x00);
    assert_eq!(huffman_decompress(&coded), Ok("aaabcc".to_string()));
    assert_eq!(huffman_decompress(&[1, b'a', 0, 0, 0, 4, 0x55]), Ok("aaaa".to_string()));
}

#[test]
fn huffman_malformed_headers_are_errors() {
    // no entries
    assert_eq!(huffman_decompress(&[0]), Err(KernelError::InvalidHuffmanData));
    // truncated
    assert_eq!(huffman_decompress(&[2, b'a', 0, 0, 0, 1]), Err(KernelError::InvalidHuffmanData));
    // zero frequency
    assert_eq!(
        huffman_decompress(&[2, b'a', 0, 0, 0, 0, b'b', 0, 0, 0, 1]),
        Err(KernelError::InvalidHuffmanData)
    );
    // byte value twice
    assert_eq!(
        huffman_decompress(&[2, b'a', 0, 0, 0, 1, b'a', 0, 0, 0, 1]),
        Err(KernelError::InvalidHuffmanData)
    );
    // frequencies that do not sum to a 32-bit value
    assert_eq!(
        huffman_decompress(&[2, b'a', 255, 255, 255, 255, b'b', 0, 0, 0, 1]),
        Err(KernelError::InvalidHuffmanData)
    );
}

#[test]
fn huffman_code_bits_that_end_early_are_an_error() {
    // Ten bytes announced, one bit each, and only eight bits given.
    assert_eq!(
        huffman_decompress(&[2, b'a', 0, 0, 0, 5, b'b', 0, 0, 0, 5, 0b0101_0101]),
        Err(KernelError::InvalidHuffmanData)
    );
    // The same with two more bits.
    assert_eq!(
        huffman_decompress(&[2, b'a', 0, 0, 0, 5, b'b', 0, 0, 0, 5, 0b0101_0101, 0b0100_0000]),
        Ok("ababababab".to_string())
    );
    // No code bits at all under a tree with branches.
    assert_eq!(
        huffman_decompress(&[2, b'a', 0, 0, 0, 1, b'b', 0, 0, 0, 1]),
        Err(KernelError::InvalidHuffmanData)
    );
    let mut coded = huffman_compress("the quick brown fox").unwrap();
    coded.pop();
    assert_eq!(huffman_decompress(&coded), Err(KernelError::InvalidHuffmanData));
}

#[test]
fn huffman_invalid_utf8_is_an_error() {
    // 0xff and 0xfe, one bit each
    let coded = huffman_encode(&[0xff, 0xfe, 0xff, 0xfe, 0xff, 0xfe, 0xff, 0xfe]).unwrap();
    assert_eq!(huffman_decode(&coded), Ok(vec![0xff, 0xfe, 0xff, 0xfe, 0xff, 0xfe, 0xff, 0xfe]));
    assert_eq!(huffman_decompress(&coded), Err(KernelError::InvalidUtf8));
}

#[test]
fn huffman_all_byte_values_is_an_error() {
    let bytes: Vec<u8> = (0..=255u8).collect();
    assert_eq!(huffman_encode(&bytes), Err(KernelError::AlphabetTooLarge));
    let bytes: Vec<u8> = (0..255u8).collect();
    let coded = huffman_encode(&bytes).unwrap();
    assert_eq!(coded[0], 255);
}

#[test]
fn error_messages() {
    let messages = [
        (KernelError::InvalidRleData, "Invalid RLE-compressed data"),
        (KernelError::InvalidHuffmanData, "Invalid Huffman-compressed data"),
        (KernelError::InvalidUtf8, "Failed to convert decompressed bytes to string"),
        (KernelError::InputTooLarge, "Input is too large to compress"),
        (KernelError::AlphabetTooLarge, "Input uses all 256 byte values"),
        (KernelError::PatternEmpty, "Pattern cannot be empty"),
        (KernelError::CompressionFailed, "Failed to compress text"),
        (KernelError::DecompressionFailed, "Failed to decompress bytes"),
        (KernelError::InsertOutOfBounds, "Index out of bounds for insertion"),
        (KernelError::IndexOutOfBounds, "Index out of bounds"),
        (KernelError::WindowSizeZero, "Window size must be greater than 0"),
        (KernelError::WindowTooLarge, "Window size cannot be larger than the array length"),
        (KernelError::NotPowerOfTwo, "Signal length must be a power of 2"),
        (KernelError::IncompatibleMatrices, "Matrix dimensions incompatible for multiplication"),
        (KernelError::ShapeMismatch, "Buffer length does not match its dimensions"),
        (KernelError::SizeOverflow, "Dimensions are too large"),
        (KernelError::TooFewPoints, "At least 2 data points are required for linear regression"),
        (
            KernelError::FewerPointsThanClusters,
            "Number of points must be greater than or equal to k",
        ),
        (KernelError::NoClusters, "k must be greater than 0"),
        (KernelError::EmptyData, "Data must not be empty"),
        (KernelError::InvalidComponentCount, "Number of components must be 1 or 2 for 2D data"),
        (KernelError::EmptyLayer, "Empty inputs or biases"),
        (KernelError::TargetsMismatch, "Targets dimension mismatch"),
        (KernelError::InvalidWeights, "Invalid weights dimensions"),
        (KernelError::InconsistentLayers, "Inconsistent number of layers"),
        (KernelError::InvalidActivation, "Invalid activation function"),
        (KernelError::EmptyLayerSize, "Input size and output size must be greater than 0"),
    ];
    for (error, text) in messages {
        assert_eq!(error.message(), text);
    }
}
