use vstd::prelude::*;
use vstd::string::StrSliceExecFns;
use crate::backup_config::BackupConfig;
use crate::chunk::Chunk;
use crate::chunk_path::{spec_hash_path, split_hash_as_path};
use crate::errors::BackupError;

verus! {

/// Places one chunk under its fan-out path below the output root: the
/// oldest write path, which stores a chunk's bytes as they are.
#[derive(Debug, PartialEq, Eq)]
pub struct ChunkWriter {
    pub backup_config: BackupConfig,
}

impl ChunkWriter {
    pub fn new(backup_config: BackupConfig) -> (r: ChunkWriter)
        ensures
            r.backup_config == backup_config,
    {
        ChunkWriter { backup_config }
    }

    /// The store path for a chunk and the bytes to put there, unchanged.
    /// Writing them is the caller's part.
    pub fn write(&self, chunk: &Chunk, data: Vec<u8>) -> (r: Result<(String, Vec<u8>), BackupError>)
        ensures
            match r {
                Ok(p) => p.0@ == spec_hash_path(self.backup_config.output_path@, chunk.hash@)
                    && p.1@ == data@,
                Err(e) => e == BackupError::IoError && chunk.hash@.len() < 2,
            },
    {
        if chunk.hash.as_str().unicode_len() < 2 {
            return Err(BackupError::IoError);
        }
        let path = split_hash_as_path(self.backup_config.output_path.as_str(), chunk.hash.clone());
        Ok((path, data))
    }
}

} // verus!
