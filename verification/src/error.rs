//! The error value that every fallible kernel returns.

use vstd::prelude::*;

verus! {

/// Why a kernel refused its input.
#[derive(Clone, Copy, Debug, PartialEq, Eq)]
pub enum KernelError {
    /// Run-length data whose length is odd.
    InvalidRleData,
    /// Huffman data whose header is malformed.
    InvalidHuffmanData,
    /// Decoded bytes that are not UTF-8 text.
    InvalidUtf8,
    /// More input than the four-byte frequency field of a Huffman header
    /// can count.
    InputTooLarge,
    /// Input in which all 256 byte values occur, one more than the count
    /// byte of a Huffman header can hold.
    AlphabetTooLarge,
    /// A search for the empty pattern.
    PatternEmpty,
    /// Data of which the stream encoder makes no stream.
    CompressionFailed,
    /// Bytes that the stream decoder of the format asked for does not accept.
    DecompressionFailed,
    /// An index beyond the end of the buffer that a value is to be inserted
    /// into.
    InsertOutOfBounds,
    /// An index that is not that of an element of the buffer.
    IndexOutOfBounds,
    /// A moving window of no elements.
    WindowSizeZero,
    /// A moving window longer than the buffer.
    WindowTooLarge,
    /// A signal whose length is not a power of two.
    NotPowerOfTwo,
    /// Two matrices of which the first has not as many columns as the second has
    /// rows.
    IncompatibleMatrices,
    /// A buffer whose length is not what the dimensions given with it ask for.
    ShapeMismatch,
    /// Dimensions whose product does not fit the machine's index type.
    SizeOverflow,
    /// Fewer than two data points for a regression.
    TooFewPoints,
    /// Fewer data points than clusters.
    FewerPointsThanClusters,
    /// A clustering into no clusters.
    NoClusters,
    /// No data where some is needed.
    EmptyData,
    /// A number of principal components other than 1 or 2.
    InvalidComponentCount,
    /// A layer without inputs or without outputs.
    EmptyLayer,
    /// Targets that are not as many as the outputs of the layer.
    TargetsMismatch,
    /// Weights that are not one for each pair of an input and an output.
    InvalidWeights,
    /// Weights, biases and activations for different numbers of layers.
    InconsistentLayers,
    /// A name that is not that of an activation function.
    InvalidActivation,
    /// A layer to be initialised with no inputs or no outputs.
    EmptyLayerSize,
}

impl KernelError {
    /// The text of the message that belongs to each error.
    pub open spec fn message_text(self) -> Seq<char> {
        match self {
            KernelError::InvalidRleData => "Invalid RLE-compressed data"@,
            KernelError::InvalidHuffmanData => "Invalid Huffman-compressed data"@,
            KernelError::InvalidUtf8 => "Failed to convert decompressed bytes to string"@,
            KernelError::InputTooLarge => "Input is too large to compress"@,
            KernelError::AlphabetTooLarge => "Input uses all 256 byte values"@,
            KernelError::PatternEmpty => "Pattern cannot be empty"@,
            KernelError::CompressionFailed => "Failed to compress text"@,
            KernelError::DecompressionFailed => "Failed to decompress bytes"@,
            KernelError::InsertOutOfBounds => "Index out of bounds for insertion"@,
            KernelError::IndexOutOfBounds => "Index out of bounds"@,
            KernelError::WindowSizeZero => "Window size must be greater than 0"@,
            KernelError::WindowTooLarge => "Window size cannot be larger than the array length"@,
            KernelError::NotPowerOfTwo => "Signal length must be a power of 2"@,
            KernelError::IncompatibleMatrices => "Matrix dimensions incompatible for multiplication"@,
            KernelError::ShapeMismatch => "Buffer length does not match its dimensions"@,
            KernelError::SizeOverflow => "Dimensions are too large"@,
            KernelError::TooFewPoints => "At least 2 data points are required for linear regression"@,
            KernelError::FewerPointsThanClusters => "Number of points must be greater than or equal to k"@,
            KernelError::NoClusters => "k must be greater than 0"@,
            KernelError::EmptyData => "Data must not be empty"@,
            KernelError::InvalidComponentCount => "Number of components must be 1 or 2 for 2D data"@,
            KernelError::EmptyLayer => "Empty inputs or biases"@,
            KernelError::TargetsMismatch => "Targets dimension mismatch"@,
            KernelError::InvalidWeights => "Invalid weights dimensions"@,
            KernelError::InconsistentLayers => "Inconsistent number of layers"@,
            KernelError::InvalidActivation => "Invalid activation function"@,
            KernelError::EmptyLayerSize => "Input size and output size must be greater than 0"@,
        }
    }

    /// A human-readable message for the error.
    pub fn message(&self) -> (text: String)
        ensures
            text@ == self.message_text(),
    {
        match self {
            KernelError::InvalidRleData => "Invalid RLE-compressed data".to_owned(),
            KernelError::InvalidHuffmanData => "Invalid Huffman-compressed data".to_owned(),
            KernelError::InvalidUtf8 => "Failed to convert decompressed bytes to string".to_owned(),
            KernelError::InputTooLarge => "Input is too large to compress".to_owned(),
            KernelError::AlphabetTooLarge => "Input uses all 256 byte values".to_owned(),
            KernelError::PatternEmpty => "Pattern cannot be empty".to_owned(),
            KernelError::CompressionFailed => "Failed to compress text".to_owned(),
            KernelError::DecompressionFailed => "Failed to decompress bytes".to_owned(),
            KernelError::InsertOutOfBounds => "Index out of bounds for insertion".to_owned(),
            KernelError::IndexOutOfBounds => "Index out of bounds".to_owned(),
            KernelError::WindowSizeZero => "Window size must be greater than 0".to_owned(),
            KernelError::WindowTooLarge => "Window size cannot be larger than the array length".to_owned(),
            KernelError::NotPowerOfTwo => "Signal length must be a power of 2".to_owned(),
            KernelError::IncompatibleMatrices => "Matrix dimensions incompatible for multiplication".to_owned(),
            KernelError::ShapeMismatch => "Buffer length does not match its dimensions".to_owned(),
            KernelError::SizeOverflow => "Dimensions are too large".to_owned(),
            KernelError::TooFewPoints => "At least 2 data points are required for linear regression".to_owned(),
            KernelError::FewerPointsThanClusters => "Number of points must be greater than or equal to k".to_owned(),
            KernelError::NoClusters => "k must be greater than 0".to_owned(),
            KernelError::EmptyData => "Data must not be empty".to_owned(),
            KernelError::InvalidComponentCount => "Number of components must be 1 or 2 for 2D data".to_owned(),
            KernelError::EmptyLayer => "Empty inputs or biases".to_owned(),
            KernelError::TargetsMismatch => "Targets dimension mismatch".to_owned(),
            KernelError::InvalidWeights => "Invalid weights dimensions".to_owned(),
            KernelError::InconsistentLayers => "Inconsistent number of layers".to_owned(),
            KernelError::InvalidActivation => "Invalid activation function".to_owned(),
            KernelError::EmptyLayerSize => "Input size and output size must be greater than 0".to_owned(),
        }
    }
}

} // verus!
