//! Kernels for array-oriented computation, each with a proved contract.
//!
//! The crate holds the integer side of a numeric kernel engine: sorting of
//! keys, lossless compression, index arithmetic for a 32-way trie, search
//! in texts, and the rules by which the numeric kernels split their
//! buffers into batches and accept or refuse the shapes they are given.
//! Every kernel is stateless: a call reads its inputs, returns freshly
//! made buffers, and keeps nothing.

pub mod arena;
pub mod batch;
pub mod compression;
pub mod error;
pub mod hamt;
pub mod learning;
pub mod matrix;
pub mod network;
pub mod select;
pub mod signal;
pub mod sorting;
pub mod stats;
pub mod strings;

pub use batch::{batch_plan, Batch};
pub use compression::deflate::{
    compress_text, decompress_bytes, to_compression_level, CompressionAlgorithm, CompressionLevel,
};
pub use compression::huffman::{build_codes, huffman_compress, huffman_decompress};
pub use compression::rle::{rle_compress, rle_decompress};
pub use compression::tree::HuffmanNode;
pub use error::KernelError;
pub use hamt::{
    hamt_append, hamt_append_multiple, hamt_clear_bit, hamt_concat, hamt_find_path,
    hamt_get_index, hamt_insert, hamt_prepend, hamt_prepend_multiple, hamt_remove, hamt_set_bit,
};
pub use network::ActivationFunction;
pub use sorting::comparison::{insertion_sort, merge_sort, numeric_sort_f64, specialized_sort_f64};
pub use sorting::counting::counting_sort_u8;
pub use sorting::radix::radix_sort_u32;
pub use strings::{string_find_all, string_find_all_boyer_moore, string_levenshtein_distance};
