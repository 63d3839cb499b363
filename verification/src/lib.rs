//! Content-addressed, deduplicating backup and restore core.
//!
//! Regular files are split into variable-length chunks by a content-defined
//! chunker, every chunk is addressed by the 64-character hexadecimal digest of
//! its bytes, and each unique chunk is kept exactly once in a blob store whose
//! layout fans out on the first two digest characters.  A manifest records,
//! per file, the chunks that make it up, and the symbolic links that were
//! encountered; restoring replays each file's chunks in ascending offset
//! order.
//!
//! The crate holds the in-memory engine: chunking, the chunk index, the blob
//! buffer, the manifest model with its two serial forms, and the backup and
//! restore passes over plain values.  Reading directory trees and moving
//! bytes to and from disk is the caller's part.
use vstd::prelude::*;

pub mod backup_config;
pub mod backup_metadata;
pub mod backup_service;
pub mod chunk;
pub mod chunk_path;
pub mod chunk_reader_writer;
pub mod chunk_storage;
pub mod chunk_table;
pub mod chunk_writer;
pub mod codec_bin;
pub mod codec_json;
pub mod digest;
pub mod errors;
pub mod file_chunk;
pub mod file_chunker;
pub mod file_metadata;
pub mod keyed;
pub mod laws;
pub mod restore_service;
pub mod symlink;

verus! {

/// Default target average chunk size in bytes: 16 KiB.
pub const DEFAULT_AVERAGE_SIZE: u32 = 16384;

} // verus!
