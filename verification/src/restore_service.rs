use vstd::prelude::*;
use vstd::string::StrSliceExecFns;
use crate::backup_config::BackupConfig;
use crate::backup_metadata::BackupMetadata;
use crate::chunk_path::{join_component, spec_path_join};
use crate::chunk_reader_writer::{zstd_decode, ChunkReaderWriter};
use crate::chunk_storage::{blob_key, BlobView, LocalChunkStorage};
use crate::errors::BackupError;
use crate::file_chunk::FileChunkView;
use crate::file_metadata::{chunk_views, spec_ordered};
use crate::keyed::spec_find;

verus! {

/// A stored path with a single leading separator removed, so that absolute
/// source paths become targets relative to the restore root.
pub open spec fn spec_strip_root(p: Seq<char>) -> Seq<char> {
    if p.len() > 0 && p[0] == '/' {
        p.skip(1)
    } else {
        p
    }
}

/// The bytes a record restores to, against a blob buffer: each chunk's blob
/// decompressed, concatenated in the given order.  Nothing when a blob is
/// absent or does not decompress.
pub open spec fn restore_file_bytes(sorted: Seq<FileChunkView>, blobs: Seq<BlobView>) -> Option<
    Seq<u8>,
>
    decreases sorted.len(),
{
    if sorted.len() == 0 {
        Some(Seq::empty())
    } else {
        match restore_file_bytes(sorted.drop_last(), blobs) {
            None => None,
            Some(prefix) => match spec_find(blobs, blob_key(), sorted.last().hash) {
                None => None,
                Some(b) => match zstd_decode(b.data) {
                    None => None,
                    Some(d) => Some(prefix + d),
                },
            },
        }
    }
}

/// A failing chunk anywhere in the order makes the whole restore fail.
pub proof fn lemma_restore_none_at(sorted: Seq<FileChunkView>, blobs: Seq<BlobView>, j: int)
    requires
        0 <= j < sorted.len(),
        match spec_find(blobs, blob_key(), sorted[j].hash) {
            None => true,
            Some(b) => zstd_decode(b.data) is None,
        },
    ensures
        restore_file_bytes(sorted, blobs) is None,
    decreases sorted.len(),
{
    if j == sorted.len() - 1 {
    } else {
        lemma_restore_none_at(sorted.drop_last(), blobs, j);
    }
}

/// One materialized file: where it goes and the bytes it holds.
#[derive(Debug, PartialEq, Eq)]
pub struct RestoredFile {
    pub path: String,
    pub data: Vec<u8>,
}

/// The mathematical value of a materialized file.
#[verifier::ext_equal]
pub ghost struct RestoredFileView {
    pub path: Seq<char>,
    pub data: Seq<u8>,
}

impl View for RestoredFile {
    type V = RestoredFileView;

    open spec fn view(&self) -> RestoredFileView {
        RestoredFileView { path: self.path@, data: self.data@ }
    }
}

/// Rebuilds every file a manifest describes from the chunk store, each one
/// as its chunks in ascending offset order.
#[derive(Debug, PartialEq, Eq)]
pub struct RestoreService {
    pub backup_config: BackupConfig,
    pub chunk_storage: LocalChunkStorage,
    pub chunk_reader_writer: ChunkReaderWriter,
}

impl RestoreService {
    pub fn new(
        backup_config: BackupConfig,
        chunk_storage: LocalChunkStorage,
        chunk_reader_writer: ChunkReaderWriter,
    ) -> (r: RestoreService)
        ensures
            r.backup_config == backup_config,
            r.chunk_storage == chunk_storage,
            r.chunk_reader_writer == chunk_reader_writer,
    {
        RestoreService { backup_config, chunk_storage, chunk_reader_writer }
    }

    /// Materializes every file of the manifest: for each record, its chunks
    /// are fetched by digest in ascending offset order, decompressed, and
    /// concatenated; the target path is the record's path, relieved of one
    /// leading separator, below the output root.  The pass succeeds exactly
    /// when every referenced blob is present and decompresses.
    pub fn restore(&mut self, backup_metadata: &BackupMetadata) -> (r: Result<
        Vec<RestoredFile>,
        BackupError,
    >)
        requires
            backup_metadata.wf(),
        ensures
            final(self).chunk_storage.blob_view() == old(self).chunk_storage.blob_view(),
            final(self).backup_config == old(self).backup_config,
            ({
                let recs = backup_metadata.file_metadata_map.records();
                let blobs = old(self).chunk_storage.blob_view();
                let root = old(self).backup_config.output_path@;
                match r {
                    Ok(files) => {
                        &&& files@.len() == recs.len()
                        &&& forall|i: int|
                            0 <= i < recs.len() ==> (#[trigger] files@[i]@).path == spec_path_join(
                                root,
                                spec_strip_root(recs[i].path),
                            ) && Some(files@[i]@.data) == restore_file_bytes(
                                spec_ordered(recs[i].chunks),
                                blobs,
                            )
                    },
                    Err(e) => (e == BackupError::NotFound || e == BackupError::IoError) && (exists|
                        i: int,
                    |
                        0 <= i < recs.len() && restore_file_bytes(
                            spec_ordered(#[trigger] recs[i].chunks),
                            blobs,
                        ) is None),
                }
            }),
    {
        let ghost recs = backup_metadata.file_metadata_map.records();
        let ghost blobs = self.chunk_storage.blob_view();
        let ghost root = self.backup_config.output_path@;
        self.chunk_storage.load_chunk_map(backup_metadata.chunk_map.duplicate());
        let mut out: Vec<RestoredFile> = Vec::new();
        let mut i: usize = 0;
        while i < backup_metadata.file_metadata_map.entries.len()
            invariant
                recs == backup_metadata.file_metadata_map.records(),
                backup_metadata.wf(),
                i <= recs.len(),
                backup_metadata.file_metadata_map.entries@.len() == recs.len(),
                blobs == self.chunk_storage.blob_view(),
                blobs == old(self).chunk_storage.blob_view(),
                root == self.backup_config.output_path@,
                root == old(self).backup_config.output_path@,
                self.backup_config == old(self).backup_config,
                out@.len() == i,
                forall|k: int|
                    0 <= k < i ==> (#[trigger] out@[k]@).path == spec_path_join(
                        root,
                        spec_strip_root(recs[k].path),
                    ) && Some(out@[k]@.data) == restore_file_bytes(
                        spec_ordered(recs[k].chunks),
                        blobs,
                    ),
            decreases recs.len() - i,
        {
            let fm = &backup_metadata.file_metadata_map.entries[i];
            proof {
                assert(fm@ == recs[i as int]);
            }
            let path_str = fm.path.as_str();
            let stripped: &str = if path_str.unicode_len() > 0 && path_str.get_char(0) == '/' {
                path_str.substring_char(1, path_str.unicode_len())
            } else {
                path_str
            };
            proof {
                assert(stripped@ == spec_strip_root(fm.path@));
            }
            let target = join_component(self.backup_config.output_path.as_str(), stripped);
            let sorted = fm.sorted_by_offset();
            let ghost sv = chunk_views(sorted@);
            let mut data: Vec<u8> = Vec::new();
            let mut j: usize = 0;
            proof {
                assert(sv.take(0) =~= Seq::<FileChunkView>::empty());
            }
            while j < sorted.len()
                invariant
                    j <= sorted@.len(),
                    sv == chunk_views(sorted@),
                    sv == spec_ordered(recs[i as int].chunks),
                    0 <= i < recs.len(),
                    sorted@.len() == sv.len(),
                    blobs == self.chunk_storage.blob_view(),
                    blobs == old(self).chunk_storage.blob_view(),
                    self.backup_config == old(self).backup_config,
                    recs == backup_metadata.file_metadata_map.records(),
                    Some(data@) == restore_file_bytes(sv.take(j as int), blobs),
                decreases sorted@.len() - j,
            {
                let mut piece = match self.chunk_storage.load_chunk(&sorted[j].hash) {
                    Ok(v) => v,
                    Err(e) => {
                        proof {
                            assert(sorted@[j as int]@ == sv[j as int]);
                            lemma_restore_none_at(sv, blobs, j as int);
                        }
                        return Err(e);
                    },
                };
                proof {
                    assert(sorted@[j as int]@ == sv[j as int]);
                    assert(sv.take(j as int + 1).drop_last() =~= sv.take(j as int));
                    assert(sv.take(j as int + 1).last() == sv[j as int]);
                }
                data.append(&mut piece);
                j += 1;
            }
            proof {
                assert(sv.take(sv.len() as int) =~= sv);
            }
            out.push(RestoredFile { path: target, data });
            i += 1;
        }
        Ok(out)
    }
}

} // verus!
