use vstd::prelude::*;
use crate::chunk_path::{spec_hash_path, split_hash_as_path};
use crate::errors::BackupError;

verus! {

/// The compression level every chunk blob is written with.
pub const COMPRESSION_LEVEL: i32 = 1;

/// The bytes zstd compression produces for `data` at `level`: a pure
/// function of both.
pub uninterp spec fn zstd_encode(data: Seq<u8>, level: i32) -> Seq<u8>;

/// What zstd decompression yields on `data`: the original bytes when `data`
/// is a complete zstd frame, nothing otherwise.  A pure function of `data`.
pub uninterp spec fn zstd_decode(data: Seq<u8>) -> Option<Seq<u8>>;

/// Relies on zstd::stream::encode_all: compression is a pure function of
/// input and level, and decompressing what it produced yields the input.
/// With a valid level, an in-memory source and an in-memory sink there is
/// no error source left -- the only remaining failure is allocation, which
/// this crate, like the standard containers, treats as fatal rather than
/// as a result.
#[verifier::external_body]
fn zstd_compress(data: &[u8], level: i32) -> (r: Vec<u8>)
    requires
        level == COMPRESSION_LEVEL,
    ensures
        r@ == zstd_encode(data@, level),
        zstd_decode(r@) == Some(data@),
{
    zstd::stream::encode_all(data, level).expect("in-memory compression cannot fail")
}

/// Relies on zstd::stream::decode_all: decompression is a pure function of
/// its input and fails exactly on bytes that are not a complete zstd frame.
#[verifier::external_body]
fn zstd_decompress(data: &[u8]) -> (r: Option<Vec<u8>>)
    ensures
        r is Some <==> zstd_decode(data@) is Some,
        match r {
            Some(v) => Some(v@) == zstd_decode(data@),
            None => true,
        },
{
    match zstd::stream::decode_all(data) {
        Ok(v) => Some(v),
        Err(_) => None,
    }
}

/// Turns chunk bytes into their on-disk form and back: the transparent
/// compression codec around the blob store.
#[derive(Debug, PartialEq, Eq)]
pub struct ChunkReaderWriter {}

impl ChunkReaderWriter {
    pub fn new() -> (r: ChunkReaderWriter) {
        ChunkReaderWriter {  }
    }

    /// The store path and the on-disk bytes for one chunk: the fan-out path
    /// of its digest, and its bytes compressed.  Writing those bytes at
    /// that path is the caller's part.
    pub fn write_chunk(&self, hash: &String, data: &Vec<u8>, output_dir: &String) -> (r: (
        String,
        Vec<u8>,
    ))
        requires
            hash@.len() >= 2,
        ensures
            r.0@ == spec_hash_path(output_dir@, hash@),
            r.1@ == zstd_encode(data@, COMPRESSION_LEVEL),
            zstd_decode(r.1@) == Some(data@),
    {
        let path = split_hash_as_path(output_dir.as_str(), hash.clone());
        let bytes = zstd_compress(data.as_slice(), COMPRESSION_LEVEL);
        (path, bytes)
    }

    /// The logical bytes of one chunk, recovered from its on-disk form.
    /// Fails exactly on bytes that are not a stored chunk's form.
    pub fn read_chunk(&self, data: &Vec<u8>) -> (r: Result<Vec<u8>, BackupError>)
        ensures
            match r {
                Ok(v) => Some(v@) == zstd_decode(data@),
                Err(e) => e == BackupError::IoError && zstd_decode(data@) is None,
            },
    {
        match zstd_decompress(data.as_slice()) {
            Some(v) => Ok(v),
            None => Err(BackupError::IoError),
        }
    }
}

/// Compresses one chunk's bytes for storage.
pub fn compress_chunk(data: &Vec<u8>) -> (r: Vec<u8>)
    ensures
        r@ == zstd_encode(data@, COMPRESSION_LEVEL),
        zstd_decode(r@) == Some(data@),
{
    zstd_compress(data.as_slice(), COMPRESSION_LEVEL)
}

/// Recovers one chunk's bytes from storage.  Fails exactly on bytes that
/// are not a stored chunk's form.
pub fn decompress_chunk(data: &Vec<u8>) -> (r: Result<Vec<u8>, BackupError>)
    ensures
        match r {
            Ok(v) => Some(v@) == zstd_decode(data@),
            Err(e) => e == BackupError::IoError && zstd_decode(data@) is None,
        },
{
    match zstd_decompress(data.as_slice()) {
        Some(v) => Ok(v),
        None => Err(BackupError::IoError),
    }
}

} // verus!
