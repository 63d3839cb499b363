use vstd::prelude::*;
use crate::backup_config::BackupConfig;
use crate::chunk::Chunk;
use crate::chunk_reader_writer::{compress_chunk, decompress_chunk, zstd_decode, zstd_encode, COMPRESSION_LEVEL};
use crate::chunk_table::ChunkMap;
use crate::errors::BackupError;
use crate::keyed::{
    distinct_keys, lemma_find_at_index, lemma_find_none, lemma_insert_distinct,
    lemma_insert_fresh, spec_find, spec_insert,
};

verus! {

/// One buffered blob: a digest and the on-disk (compressed) bytes filed
/// under it.
#[derive(Debug, PartialEq, Eq)]
pub struct ChunkBlob {
    pub hash: String,
    pub data: Vec<u8>,
}

/// The mathematical value of a buffered blob.
#[verifier::ext_equal]
pub ghost struct BlobView {
    pub hash: Seq<char>,
    pub data: Seq<u8>,
}

impl View for ChunkBlob {
    type V = BlobView;

    open spec fn view(&self) -> BlobView {
        BlobView { hash: self.hash@, data: self.data@ }
    }
}

/// The key of a buffered blob: its digest.
pub open spec fn blob_key() -> spec_fn(BlobView) -> Seq<char> {
    |b: BlobView| b.hash
}

/// The in-memory chunk store of one pass: the chunk index, and the blobs
/// buffered under their digests.  The caller moves buffered blobs to disk
/// after a backup and loads them back before a restore.
#[derive(Debug, PartialEq, Eq)]
pub struct LocalChunkStorage {
    pub backup_config: BackupConfig,
    pub chunk_map: ChunkMap,
    pub blobs: Vec<ChunkBlob>,
}

impl LocalChunkStorage {
    /// The buffered blobs as mathematical values, in storage order.
    pub open spec fn blob_view(self) -> Seq<BlobView> {
        self.blobs@.map_values(|b: ChunkBlob| b@)
    }

    /// The blob buffered under a digest, if any.
    pub open spec fn spec_blob(self, h: Seq<char>) -> Option<BlobView> {
        spec_find(self.blob_view(), blob_key(), h)
    }

    /// The index keeps its key discipline, and so does the blob buffer.
    pub open spec fn wf(self) -> bool {
        &&& self.chunk_map.wf()
        &&& distinct_keys(self.blob_view(), blob_key())
    }

    pub fn new(backup_config: BackupConfig) -> (r: LocalChunkStorage)
        ensures
            r.backup_config == backup_config,
            r.chunk_map.entries@ == Seq::<Chunk>::empty(),
            r.blob_view() == Seq::<BlobView>::empty(),
            r.wf(),
    {
        let r = LocalChunkStorage {
            backup_config,
            chunk_map: ChunkMap::new(),
            blobs: Vec::new(),
        };
        proof {
            assert(r.blob_view() =~= Seq::<BlobView>::empty());
        }
        r
    }

    /// Records a chunk in the index.
    pub fn add_chunk(&mut self, chunk: Chunk)
        ensures
            final(self).chunk_map.entries@ == spec_insert(
                old(self).chunk_map.entries@,
                crate::chunk_table::chunk_key(),
                chunk,
            ),
            old(self).chunk_map.wf() && chunk.wf() ==> final(self).chunk_map.wf(),
            final(self).blobs == old(self).blobs,
            final(self).backup_config == old(self).backup_config,
    {
        self.chunk_map.insert(chunk);
    }

    /// Whether the index already knows a digest.
    pub fn chunk_exists(&self, hash: &String) -> (r: bool)
        ensures
            r == self.chunk_map.spec_contains(hash@),
    {
        self.chunk_map.contains(hash)
    }

    /// Records a chunk only when its digest is new; reports whether it was.
    pub fn add_chunk_if_not_exists(&mut self, chunk: Chunk) -> (r: bool)
        ensures
            r == !old(self).chunk_map.spec_contains(chunk.hash@),
            r ==> final(self).chunk_map.entries@ == spec_insert(
                old(self).chunk_map.entries@,
                crate::chunk_table::chunk_key(),
                chunk,
            ),
            !r ==> *final(self) == *old(self),
            old(self).chunk_map.wf() && chunk.wf() ==> final(self).chunk_map.wf(),
            final(self).blobs == old(self).blobs,
            final(self).backup_config == old(self).backup_config,
    {
        if !self.chunk_exists(&chunk.hash) {
            self.add_chunk(chunk);
            true
        } else {
            false
        }
    }

    /// A snapshot of the index.
    pub fn chunk_map(&self) -> (r: ChunkMap)
        ensures
            r.entries@ == self.chunk_map.entries@,
    {
        self.chunk_map.duplicate()
    }

    /// Replaces the index wholesale, as when seeding from a prior manifest.
    pub fn load_chunk_map(&mut self, chunk_map: ChunkMap)
        ensures
            final(self).chunk_map == chunk_map,
            final(self).blobs == old(self).blobs,
            final(self).backup_config == old(self).backup_config,
    {
        self.chunk_map = chunk_map;
    }

    /// Buffers one chunk's bytes, compressed, under its digest.
    pub fn store_chunk(&mut self, hash: &String, data: &Vec<u8>)
        ensures
            final(self).blob_view() == spec_insert(
                old(self).blob_view(),
                blob_key(),
                BlobView { hash: hash@, data: zstd_encode(data@, COMPRESSION_LEVEL) },
            ),
            zstd_decode(zstd_encode(data@, COMPRESSION_LEVEL)) == Some(data@),
            final(self).chunk_map == old(self).chunk_map,
            final(self).backup_config == old(self).backup_config,
            old(self).wf() ==> final(self).wf(),
    {
        let compressed = compress_chunk(data);
        let blob = ChunkBlob { hash: hash.clone(), data: compressed };
        let ghost bv = blob@;
        proof {
            if old(self).wf() {
                lemma_insert_distinct(old(self).blob_view(), blob_key(), bv);
            }
        }
        let ghost s = self.blob_view();
        let mut i: usize = 0;
        while i < self.blobs.len()
            invariant
                s == self.blob_view(),
                self == old(self),
                i <= s.len(),
                forall|j: int| 0 <= j < i ==> (#[trigger] s[j]).hash != bv.hash,
                bv == blob@,
                bv == (BlobView { hash: hash@, data: zstd_encode(data@, COMPRESSION_LEVEL) }),
                zstd_decode(zstd_encode(data@, COMPRESSION_LEVEL)) == Some(data@),
                old(self).wf() ==> distinct_keys(
                    spec_insert(old(self).blob_view(), blob_key(), bv),
                    blob_key(),
                ),
            decreases s.len() - i,
        {
            if self.blobs[i].hash == blob.hash {
                proof {
                    crate::keyed::lemma_insert_at_index(s, blob_key(), bv, i as int);
                }
                self.blobs.set(i, blob);
                proof {
                    assert(self.blob_view() =~= s.update(i as int, bv));
                }
                return ;
            }
            i += 1;
        }
        proof {
            lemma_insert_fresh(s, blob_key(), bv);
        }
        self.blobs.push(blob);
        proof {
            assert(self.blob_view() =~= s.push(bv));
        }
    }

    /// Injects one already-compressed blob, as when loading a repository
    /// from disk before a restore.
    pub fn load_blob(&mut self, hash: String, data: Vec<u8>)
        ensures
            final(self).blob_view() == spec_insert(
                old(self).blob_view(),
                blob_key(),
                BlobView { hash: hash@, data: data@ },
            ),
            final(self).chunk_map == old(self).chunk_map,
            final(self).backup_config == old(self).backup_config,
            old(self).wf() ==> final(self).wf(),
    {
        let blob = ChunkBlob { hash, data };
        let ghost bv = blob@;
        proof {
            if old(self).wf() {
                lemma_insert_distinct(old(self).blob_view(), blob_key(), bv);
            }
        }
        let ghost s = self.blob_view();
        let mut i: usize = 0;
        while i < self.blobs.len()
            invariant
                s == self.blob_view(),
                self == old(self),
                i <= s.len(),
                forall|j: int| 0 <= j < i ==> (#[trigger] s[j]).hash != bv.hash,
                bv == blob@,
                bv == (BlobView { hash: hash@, data: data@ }),
                old(self).wf() ==> distinct_keys(
                    spec_insert(old(self).blob_view(), blob_key(), bv),
                    blob_key(),
                ),
            decreases s.len() - i,
        {
            if self.blobs[i].hash == blob.hash {
                proof {
                    crate::keyed::lemma_insert_at_index(s, blob_key(), bv, i as int);
                }
                self.blobs.set(i, blob);
                proof {
                    assert(self.blob_view() =~= s.update(i as int, bv));
                }
                return ;
            }
            i += 1;
        }
        proof {
            lemma_insert_fresh(s, blob_key(), bv);
        }
        self.blobs.push(blob);
        proof {
            assert(self.blob_view() =~= s.push(bv));
        }
    }

    /// The on-disk bytes buffered under a digest, decompressed back to the
    /// chunk's logical bytes.
    pub fn load_chunk(&self, hash: &String) -> (r: Result<Vec<u8>, BackupError>)
        ensures
            match r {
                Ok(v) => match self.spec_blob(hash@) {
                    Some(b) => Some(v@) == zstd_decode(b.data),
                    None => false,
                },
                Err(e) => match self.spec_blob(hash@) {
                    Some(b) => e == BackupError::IoError && zstd_decode(b.data) is None,
                    None => e == BackupError::NotFound,
                },
            },
    {
        let ghost s = self.blob_view();
        let mut i: usize = 0;
        while i < self.blobs.len()
            invariant
                s == self.blob_view(),
                i <= s.len(),
                forall|j: int| 0 <= j < i ==> (#[trigger] s[j]).hash != hash@,
            decreases s.len() - i,
        {
            if self.blobs[i].hash == *hash {
                proof {
                    lemma_find_at_index(s, blob_key(), i as int);
                }
                return decompress_chunk(&self.blobs[i].data);
            }
            i += 1;
        }
        proof {
            lemma_find_none(s, blob_key(), hash@);
        }
        Err(BackupError::NotFound)
    }

    /// How many blobs are buffered.
    pub fn blob_count(&self) -> (r: usize)
        ensures
            r == self.blob_view().len(),
    {
        self.blobs.len()
    }
}

} // verus!
