//! Text in the DEFLATE stream formats: gzip, raw DEFLATE and zlib.
//!
//! The streams are made and read by the `flate2` crate. What a stream
//! holds for given data, and which bytes a decoder accepts, is not stated
//! here; each has a name, and the contracts say which name each call
//! gives.

use vstd::prelude::*;
use vstd::string::StringSliceAdditionalSpecFns;
use vstd::utf8::{decode_utf8, valid_utf8};
use crate::compression::text::string_from_utf8;
use crate::error::KernelError;

verus! {

/// The stream format.
#[derive(Clone, Copy, Debug, PartialEq, Eq)]
pub enum CompressionAlgorithm {
    Gzip,
    Deflate,
    Zlib,
}

/// How hard the encoder tries.
#[derive(Clone, Copy, Debug, PartialEq, Eq)]
pub enum CompressionLevel {
    Uncompressed,
    Fast,
    Default,
    Best,
}

/// The number that stands for a level on the encoder's scale from 0 to 9.
pub open spec fn level_number(level: CompressionLevel) -> u32 {
    match level {
        CompressionLevel::Uncompressed => 0,
        CompressionLevel::Fast => 1,
        CompressionLevel::Default => 6,
        CompressionLevel::Best => 9,
    }
}

/// The gzip stream that the encoder makes of `data` at `level`, where it
/// makes one.
pub uninterp spec fn gzip_stream(data: Seq<u8>, level: u32) -> Option<Seq<u8>>;

/// The raw DEFLATE stream that the encoder makes of `data` at `level`,
/// where it makes one.
pub uninterp spec fn deflate_stream(data: Seq<u8>, level: u32) -> Option<Seq<u8>>;

/// The zlib stream that the encoder makes of `data` at `level`, where it
/// makes one.
pub uninterp spec fn zlib_stream(data: Seq<u8>, level: u32) -> Option<Seq<u8>>;

/// What the decoder writes when it is given `stream` as one gzip member,
/// where it accepts the bytes.
pub uninterp spec fn gzip_content(stream: Seq<u8>) -> Option<Seq<u8>>;

/// What the decoder writes when it is given `stream` as raw DEFLATE, where
/// it accepts the bytes.
pub uninterp spec fn deflate_content(stream: Seq<u8>) -> Option<Seq<u8>>;

/// What the decoder writes when it is given `stream` as zlib, where it
/// accepts the bytes.
pub uninterp spec fn zlib_content(stream: Seq<u8>) -> Option<Seq<u8>>;

/// The stream of the given format for `data` at `level`, where the
/// encoder makes one.
pub open spec fn encoded_stream(
    algorithm: CompressionAlgorithm,
    data: Seq<u8>,
    level: u32,
) -> Option<Seq<u8>> {
    match algorithm {
        CompressionAlgorithm::Gzip => gzip_stream(data, level),
        CompressionAlgorithm::Deflate => deflate_stream(data, level),
        CompressionAlgorithm::Zlib => zlib_stream(data, level),
    }
}

/// What the decoder of the given format writes for `stream`, where it
/// accepts the bytes.
pub open spec fn stream_content(algorithm: CompressionAlgorithm, stream: Seq<u8>) -> Option<
    Seq<u8>,
> {
    match algorithm {
        CompressionAlgorithm::Gzip => gzip_content(stream),
        CompressionAlgorithm::Deflate => deflate_content(stream),
        CompressionAlgorithm::Zlib => zlib_content(stream),
    }
}

/// `flate2::write::GzEncoder`, made for `level`, given all of `data` and
/// then finished: whether it reports a failure, and the bytes it wrote
/// where it reports none, are those that the name `gzip_stream` stands for.
#[verifier::external_body]
fn gzip_encode(data: &[u8], level: u32) -> (result: Option<Vec<u8>>)
    requires
        level <= 9,
    ensures
        result is Some <==> gzip_stream(data@, level) is Some,
        result matches Some(stream) ==> gzip_stream(data@, level) == Some(stream@),
{
    let mut encoder = flate2::write::GzEncoder::new(Vec::new(), flate2::Compression::new(level));
    if std::io::Write::write_all(&mut encoder, data).is_err() {
        return None;
    }
    encoder.finish().ok()
}

/// `flate2::write::DeflateEncoder`, made for `level`, given all of `data`
/// and then finished: whether it reports a failure, and the bytes it wrote
/// where it reports none, are those that the name `deflate_stream` stands
/// for.
#[verifier::external_body]
fn deflate_encode(data: &[u8], level: u32) -> (result: Option<Vec<u8>>)
    requires
        level <= 9,
    ensures
        result is Some <==> deflate_stream(data@, level) is Some,
        result matches Some(stream) ==> deflate_stream(data@, level) == Some(stream@),
{
    let mut encoder = flate2::write::DeflateEncoder::new(
        Vec::new(),
        flate2::Compression::new(level),
    );
    if std::io::Write::write_all(&mut encoder, data).is_err() {
        return None;
    }
    encoder.finish().ok()
}

/// `flate2::write::ZlibEncoder`, made for `level`, given all of `data` and
/// then finished: whether it reports a failure, and the bytes it wrote
/// where it reports none, are those that the name `zlib_stream` stands for.
#[verifier::external_body]
fn zlib_encode(data: &[u8], level: u32) -> (result: Option<Vec<u8>>)
    requires
        level <= 9,
    ensures
        result is Some <==> zlib_stream(data@, level) is Some,
        result matches Some(stream) ==> zlib_stream(data@, level) == Some(stream@),
{
    let mut encoder = flate2::write::ZlibEncoder::new(Vec::new(), flate2::Compression::new(level));
    if std::io::Write::write_all(&mut encoder, data).is_err() {
        return None;
    }
    encoder.finish().ok()
}

/// `flate2::write::GzDecoder`, given all of `stream` and then finished:
/// whether it reports a failure, and the bytes it wrote where it reports
/// none, are those that the name `gzip_content` stands for.
#[verifier::external_body]
fn gzip_decode(stream: &[u8]) -> (result: Option<Vec<u8>>)
    ensures
        result is Some <==> gzip_content(stream@) is Some,
        result matches Some(content) ==> gzip_content(stream@) == Some(content@),
{
    let mut decoder = flate2::write::GzDecoder::new(Vec::new());
    if std::io::Write::write_all(&mut decoder, stream).is_err() {
        return None;
    }
    decoder.finish().ok()
}

/// `flate2::write::DeflateDecoder`, given all of `stream` and then
/// finished: whether it reports a failure, and the bytes it wrote where it
/// reports none, are those that the name `deflate_content` stands for.
#[verifier::external_body]
fn deflate_decode(stream: &[u8]) -> (result: Option<Vec<u8>>)
    ensures
        result is Some <==> deflate_content(stream@) is Some,
        result matches Some(content) ==> deflate_content(stream@) == Some(content@),
{
    let mut decoder = flate2::write::DeflateDecoder::new(Vec::new());
    if std::io::Write::write_all(&mut decoder, stream).is_err() {
        return None;
    }
    decoder.finish().ok()
}

/// `flate2::write::ZlibDecoder`, given all of `stream` and then finished:
/// whether it reports a failure, and the bytes it wrote where it reports
/// none, are those that the name `zlib_content` stands for.
#[verifier::external_body]
fn zlib_decode(stream: &[u8]) -> (result: Option<Vec<u8>>)
    ensures
        result is Some <==> zlib_content(stream@) is Some,
        result matches Some(content) ==> zlib_content(stream@) == Some(content@),
{
    let mut decoder = flate2::write::ZlibDecoder::new(Vec::new());
    if std::io::Write::write_all(&mut decoder, stream).is_err() {
        return None;
    }
    decoder.finish().ok()
}

/// The number that stands for a level on the encoder's scale.
pub fn to_compression_level(level: CompressionLevel) -> (number: u32)
    ensures
        number == level_number(level),
{
    match level {
        CompressionLevel::Uncompressed => 0,
        CompressionLevel::Fast => 1,
        CompressionLevel::Default => 6,
        CompressionLevel::Best => 9,
    }
}

/// Encodes a text, by its UTF-8 bytes, as a stream of the given format.
///
/// Fails with `CompressionFailed` where the encoder makes no stream.
pub fn compress_text(text: &str, algorithm: CompressionAlgorithm, level: CompressionLevel) -> (result:
    Result<Vec<u8>, KernelError>)
    ensures
        match result {
            Ok(stream) => encoded_stream(algorithm, text.spec_bytes(), level_number(level))
                == Some(stream@),
            Err(e) => encoded_stream(algorithm, text.spec_bytes(), level_number(level)) is None
                && e == KernelError::CompressionFailed,
        },
{
    let compression = to_compression_level(level);
    let encoded = match algorithm {
        CompressionAlgorithm::Gzip => gzip_encode(text.as_bytes(), compression),
        CompressionAlgorithm::Deflate => deflate_encode(text.as_bytes(), compression),
        CompressionAlgorithm::Zlib => zlib_encode(text.as_bytes(), compression),
    };
    match encoded {
        Some(stream) => Ok(stream),
        None => Err(KernelError::CompressionFailed),
    }
}

/// The text that a decoder's output stands for: `DecompressionFailed`
/// where the decoder gave none, `InvalidUtf8` where the bytes are not
/// UTF-8, else the text they encode.
pub fn text_of_content(content: Option<Vec<u8>>) -> (result: Result<String, KernelError>)
    ensures
        match result {
            Ok(text) => content matches Some(bytes) && valid_utf8(bytes@) && text@ == decode_utf8(
                bytes@,
            ),
            Err(e) => match content {
                None => e == KernelError::DecompressionFailed,
                Some(bytes) => !valid_utf8(bytes@) && e == KernelError::InvalidUtf8,
            },
        },
{
    match content {
        None => Err(KernelError::DecompressionFailed),
        Some(bytes) => match string_from_utf8(bytes) {
            Some(text) => Ok(text),
            None => Err(KernelError::InvalidUtf8),
        },
    }
}

/// Decodes a stream of the given format to text.
///
/// Fails with `DecompressionFailed` where the decoder of that format does
/// not accept the bytes, and with `InvalidUtf8` where what it writes is not
/// UTF-8.
pub fn decompress_bytes(bytes: &[u8], algorithm: CompressionAlgorithm) -> (result: Result<
    String,
    KernelError,
>)
    ensures
        match result {
            Ok(text) => stream_content(algorithm, bytes@) matches Some(content) && valid_utf8(
                content,
            ) && text@ == decode_utf8(content),
            Err(e) => match stream_content(algorithm, bytes@) {
                None => e == KernelError::DecompressionFailed,
                Some(content) => !valid_utf8(content) && e == KernelError::InvalidUtf8,
            },
        },
{
    let content = match algorithm {
        CompressionAlgorithm::Gzip => gzip_decode(bytes),
        CompressionAlgorithm::Deflate => deflate_decode(bytes),
        CompressionAlgorithm::Zlib => zlib_decode(bytes),
    };
    text_of_content(content)
}

} // verus!
