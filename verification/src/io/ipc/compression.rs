//! The per-buffer codecs.

use super::Compression;
use std::io::{Read, Write};
use vstd::prelude::*;

verus! {

/// What `lz4::Decoder`, read to its end, makes of `input`; `None` where it fails.
pub uninterp spec fn lz4_frame_decoded(input: Seq<u8>) -> Option<Seq<u8>>;

/// What `zstd::stream::decode_all` makes of `input`; `None` where it fails.
pub uninterp spec fn zstd_decoded(input: Seq<u8>) -> Option<Seq<u8>>;

/// What decoding `input` with `codec` gives.
pub open spec fn decompressed(codec: Compression, input: Seq<u8>) -> Option<Seq<u8>> {
    match codec {
        Compression::LZ4 => lz4_frame_decoded(input),
        Compression::ZSTD => zstd_decoded(input),
    }
}

/// Runs `lz4::Decoder` over `input` and reads it to its end. The contract only
/// names the bytes that come out: nothing is claimed of what they are.
#[verifier::external_body]
fn decompress_lz4(input: &[u8]) -> (out: Option<Vec<u8>>)
    ensures
        match out {
            Some(raw) => lz4_frame_decoded(input@) == Some(raw@),
            None => lz4_frame_decoded(input@) is None,
        },
{
    let mut raw = Vec::new();
    let mut decoder = lz4::Decoder::new(input).ok()?;
    decoder.read_to_end(&mut raw).ok()?;
    Some(raw)
}

/// Calls `zstd::stream::decode_all` on `input`. The contract only names the
/// bytes that come out: nothing is claimed of what they are.
#[verifier::external_body]
fn decompress_zstd(input: &[u8]) -> (out: Option<Vec<u8>>)
    ensures
        match out {
            Some(raw) => zstd_decoded(input@) == Some(raw@),
            None => zstd_decoded(input@) is None,
        },
{
    zstd::stream::decode_all(input).ok()
}

/// Decodes `input` with `codec`.
pub fn decompress(codec: Compression, input: &[u8]) -> (out: Option<Vec<u8>>)
    ensures
        match out {
            Some(raw) => decompressed(codec, input@) == Some(raw@),
            None => decompressed(codec, input@) is None,
        },
{
    match codec {
        Compression::LZ4 => decompress_lz4(input),
        Compression::ZSTD => decompress_zstd(input),
    }
}

/// The level that Zstandard compresses at.
pub const ZSTD_LEVEL: i32 = 17;

/// What `lz4::Encoder`, with the settings `lz4::EncoderBuilder::new` starts
/// from, makes of `input`; `None` where it fails.
pub uninterp spec fn lz4_frame_encoded(input: Seq<u8>) -> Option<Seq<u8>>;

/// What `zstd::stream::encode_all` makes of `input` at `level`; `None` where
/// it fails.
pub uninterp spec fn zstd_encoded(input: Seq<u8>, level: int) -> Option<Seq<u8>>;

/// What encoding `input` with `codec` gives.
pub open spec fn compressed(codec: Compression, input: Seq<u8>) -> Option<Seq<u8>> {
    match codec {
        Compression::LZ4 => lz4_frame_encoded(input),
        Compression::ZSTD => zstd_encoded(input, ZSTD_LEVEL as int),
    }
}

/// Writes `input` through an `lz4::Encoder` built by `lz4::EncoderBuilder::new`
/// into an empty vector and finishes it. The contract only names the bytes
/// that come out: nothing is claimed of what they are.
#[verifier::external_body]
fn compress_lz4(input: &[u8]) -> (out: Option<Vec<u8>>)
    ensures
        match out {
            Some(packed) => lz4_frame_encoded(input@) == Some(packed@),
            None => lz4_frame_encoded(input@) is None,
        },
{
    let mut encoder = lz4::EncoderBuilder::new().build(Vec::new()).ok()?;
    encoder.write_all(input).ok()?;
    let (packed, result) = encoder.finish();
    result.ok()?;
    Some(packed)
}

/// Calls `zstd::stream::encode_all` on `input`. The contract only names the
/// bytes that come out: nothing is claimed of what they are.
#[verifier::external_body]
fn compress_zstd(input: &[u8], level: i32) -> (out: Option<Vec<u8>>)
    ensures
        match out {
            Some(packed) => zstd_encoded(input@, level as int) == Some(packed@),
            None => zstd_encoded(input@, level as int) is None,
        },
{
    zstd::stream::encode_all(input, level).ok()
}

/// Encodes `input` with `codec`.
pub fn compress(codec: Compression, input: &[u8]) -> (out: Option<Vec<u8>>)
    ensures
        match out {
            Some(packed) => compressed(codec, input@) == Some(packed@),
            None => compressed(codec, input@) is None,
        },
{
    match codec {
        Compression::LZ4 => compress_lz4(input),
        Compression::ZSTD => compress_zstd(input, ZSTD_LEVEL),
    }
}

} // verus!
