//! Lossless byte codecs: run-length and Huffman coding, and the DEFLATE
//! stream formats.

pub mod bits;
pub mod deflate;
pub mod huffman;
pub mod huffman_round_trip;
pub mod rle;
pub mod text;
pub mod tree;
