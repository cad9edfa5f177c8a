//! Compression of delta-log objects with zstd.

use crate::error::FileListError;
use vstd::prelude::*;

verus! {

/// The compression level of delta-log objects.
pub const COMPRESSION_LEVEL: i32 = 3;

/// `std::io::Error`, the error of the compressor. It is carried from the
/// call to the place where it is told apart from success, and not looked into.
#[verifier::external_type_specification]
#[verifier::external_body]
pub struct ExIoError(std::io::Error);

/// The data that the zstd frames `bytes` hold, where `bytes` are such
/// frames.
pub uninterp spec fn zstd_plain(bytes: Seq<u8>) -> Option<Seq<u8>>;

/// Calls `zstd::stream::encode_all` on `data`. The call may fail; where it
/// succeeds, what it returns is a zstd frame that holds `data`: decompressing
/// it gives `data` back. Nothing else is claimed of the bytes.
#[verifier::external_body]
fn zstd_encode_all(data: &[u8], level: i32) -> (frame: Result<Vec<u8>, std::io::Error>)
    ensures
        frame is Ok ==> zstd_plain(frame->Ok_0@) == Some(data@),
{
    zstd::stream::encode_all(data, level)
}

/// Calls `zstd::stream::decode_all` on `bytes`. The call fails where the
/// bytes are no zstd frames, and it may fail for want of memory; where it
/// succeeds, what it returns is the data that the frames hold.
#[verifier::external_body]
fn zstd_decode_all(bytes: &[u8]) -> (plain: Result<Vec<u8>, std::io::Error>)
    ensures
        plain is Ok ==> zstd_plain(bytes@) == Some(plain->Ok_0@),
{
    zstd::stream::decode_all(bytes)
}

/// Compresses `data` into one zstd frame at the level of delta-log objects:
/// bytes that decompress to `data`. Fails with `Compression` where the
/// compressor reports an error.
pub fn compress(data: &[u8]) -> (frame: Result<Vec<u8>, FileListError>)
    ensures
        frame is Ok ==> zstd_plain(frame->Ok_0@) == Some(data@),
        frame is Err ==> frame->Err_0 == FileListError::Compression,
{
    match zstd_encode_all(data, COMPRESSION_LEVEL) {
        Ok(bytes) => Ok(bytes),
        Err(_) => Err(FileListError::Compression),
    }
}

/// Decompresses the zstd frames `bytes`. Fails with `Decompression` where
/// the decompressor reports an error.
pub fn decompress(bytes: &[u8]) -> (plain: Result<Vec<u8>, FileListError>)
    ensures
        plain is Ok ==> zstd_plain(bytes@) == Some(plain->Ok_0@),
        plain is Err ==> plain->Err_0 == FileListError::Decompression,
{
    match zstd_decode_all(bytes) {
        Ok(data) => Ok(data),
        Err(_) => Err(FileListError::Decompression),
    }
}

} // verus!
