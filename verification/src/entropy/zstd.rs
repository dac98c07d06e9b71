//! zstd compression of byte sections.
use vstd::prelude::*;
use crate::error::ArchiveError;

verus! {

/// What `zstd::stream::encode_all` makes of `data` at `level`: the compressed
/// frame, or nothing when the call fails.
pub uninterp spec fn zstd_compressed(data: Seq<u8>, level: i32) -> Option<Seq<u8>>;

/// What `zstd::stream::decode_all` makes of `data`: the decompressed bytes, or
/// nothing when the call fails.
pub uninterp spec fn zstd_decompressed(data: Seq<u8>) -> Option<Seq<u8>>;

/// Compresses `data` with `zstd::stream::encode_all`.
///
/// Trusted: the result is the named compression of the input at the level;
/// a frame that the call produced decompresses to the input again, which is
/// what zstd promises of its frames. When the call fails is not stated.
#[verifier::external_body]
fn zstd_encode_all(data: &[u8], level: i32) -> (r: Option<Vec<u8>>)
    ensures
        match r {
            Some(c) => zstd_compressed(data@, level) == Some(c@) && zstd_decompressed(c@) == Some(data@),
            None => zstd_compressed(data@, level) is None,
        },
{
    ::zstd::stream::encode_all(data, level).ok()
}

/// Decompresses `data` with `zstd::stream::decode_all`.
///
/// Trusted: the result is the named decompression of the input.
#[verifier::external_body]
fn zstd_decode_all(data: &[u8]) -> (r: Option<Vec<u8>>)
    ensures
        match r {
            Some(d) => zstd_decompressed(data@) == Some(d@),
            None => zstd_decompressed(data@) is None,
        },
{
    ::zstd::stream::decode_all(data).ok()
}

/// Compresses a section.
pub fn encode(input: &[u8], level: i32) -> (r: Result<Vec<u8>, ArchiveError>)
    ensures
        match r {
            Ok(c) => zstd_compressed(input@, level) == Some(c@) && zstd_decompressed(c@) == Some(input@),
            Err(e) => zstd_compressed(input@, level) is None && e == ArchiveError::Compression,
        },
{
    match zstd_encode_all(input, level) {
        Some(c) => Ok(c),
        None => Err(ArchiveError::Compression),
    }
}

/// Decompresses a section.
pub fn decode(input: &[u8]) -> (r: Result<Vec<u8>, ArchiveError>)
    ensures
        match r {
            Ok(d) => zstd_decompressed(input@) == Some(d@),
            Err(e) => zstd_decompressed(input@) is None && e == ArchiveError::Decompression,
        },
{
    match zstd_decode_all(input) {
        Some(d) => Ok(d),
        None => Err(ArchiveError::Decompression),
    }
}

} // verus!
