use vstd::prelude::*;
use crate::backup_config::BackupConfig;
use crate::backup_metadata::{duplicate_symlinks, file_key, BackupMetadata};
use crate::chunk_storage::{BlobView, LocalChunkStorage};
use crate::chunk_table::chunk_map_views;
use crate::chunk::ChunkView;
use crate::file_chunker::{cdc_cuts, blobs_after, index_after, record_chunks_of, FileChunker};
use crate::file_metadata::FileRecordView;
use crate::keyed::spec_insert;
use crate::symlink::{symlink_views, Symlink, SymlinkView};

verus! {

/// One entry met while walking the input tree, already read: a regular
/// file with its bytes, or a symbolic link with its target.
#[derive(Debug, PartialEq, Eq)]
pub enum WalkEntry {
    File { path: String, data: Vec<u8> },
    Link { from: String, to: String },
}

/// The mathematical value of a walk entry.
#[verifier::ext_equal]
pub ghost enum WalkEntryView {
    File { path: Seq<char>, data: Seq<u8> },
    Link { from: Seq<char>, to: Seq<char> },
}

impl View for WalkEntry {
    type V = WalkEntryView;

    open spec fn view(&self) -> WalkEntryView {
        match self {
            WalkEntry::File { path, data } => WalkEntryView::File { path: path@, data: data@ },
            WalkEntry::Link { from, to } => WalkEntryView::Link { from: from@, to: to@ },
        }
    }
}

/// The values of an entry vector.
pub open spec fn entry_views(v: Seq<WalkEntry>) -> Seq<WalkEntryView> {
    v.map_values(|e: WalkEntry| e@)
}

/// Everything one pass accumulates: the chunk index, the blob buffer, the
/// file map, and the symlink list.
#[verifier::ext_equal]
pub ghost struct PassView {
    pub index: Seq<ChunkView>,
    pub blobs: Seq<BlobView>,
    pub files: Seq<FileRecordView>,
    pub symlinks: Seq<SymlinkView>,
}

/// A symlink list extended by one link, unless an equal link is already
/// recorded: re-walking a tree does not duplicate its links.
pub open spec fn spec_link_insert(s: Seq<SymlinkView>, l: SymlinkView) -> Seq<SymlinkView> {
    if s.contains(l) {
        s
    } else {
        s.push(l)
    }
}

/// How one walk entry advances the pass: an unseen link is appended to the
/// symlink list; a file is chunked, its unseen chunks are indexed and
/// buffered, and its record replaces any record of the same path.
pub open spec fn pass_step(
    st: PassView,
    e: WalkEntryView,
    min_size: usize,
    avg_size: usize,
    max_size: usize,
) -> PassView {
    match e {
        WalkEntryView::Link { from, to } => PassView {
            symlinks: spec_link_insert(st.symlinks, SymlinkView { from, to }),
            ..st
        },
        WalkEntryView::File { path, data } => {
            let cuts = cdc_cuts(data, min_size, avg_size, max_size);
            PassView {
                index: index_after(data, cuts, st.index),
                blobs: blobs_after(data, cuts, st.index, st.blobs),
                files: spec_insert(
                    st.files,
                    file_key(),
                    FileRecordView { path, chunks: record_chunks_of(data, cuts) },
                ),
                symlinks: st.symlinks,
            }
        },
    }
}

/// The pass state after processing the entries in order.
pub open spec fn pass_after(
    st0: PassView,
    entries: Seq<WalkEntryView>,
    min_size: usize,
    avg_size: usize,
    max_size: usize,
) -> PassView
    decreases entries.len(),
{
    if entries.len() == 0 {
        st0
    } else {
        pass_step(
            pass_after(st0, entries.drop_last(), min_size, avg_size, max_size),
            entries.last(),
            min_size,
            avg_size,
            max_size,
        )
    }
}

/// Drives one backup pass: walks the provided entries, chunks every regular
/// file, accumulates the manifest, and hands it back for persisting.
#[derive(Debug, PartialEq, Eq)]
pub struct BackupService {
    pub backup_config: BackupConfig,
    pub file_chunker: FileChunker,
    pub chunk_storage: LocalChunkStorage,
    pub symlinks: Vec<Symlink>,
    pub file_metadata_map: crate::backup_metadata::FileMetadataMap,
}

impl BackupService {
    /// The pass state this service currently holds.
    pub open spec fn state(self) -> PassView {
        PassView {
            index: chunk_map_views(self.chunk_storage.chunk_map.entries@),
            blobs: self.chunk_storage.blob_view(),
            files: self.file_metadata_map.records(),
            symlinks: symlink_views(self.symlinks@),
        }
    }

    /// The service is usable: its configurations agree and are in range,
    /// and its maps keep their key disciplines.
    pub open spec fn wf(self) -> bool {
        &&& self.backup_config.wf()
        &&& self.file_chunker.backup_config == self.backup_config
        &&& self.chunk_storage.wf()
        &&& self.file_metadata_map.wf()
    }

    pub fn new(
        backup_config: BackupConfig,
        file_chunker: FileChunker,
        chunk_storage: LocalChunkStorage,
    ) -> (r: BackupService)
        ensures
            r.backup_config == backup_config,
            r.file_chunker == file_chunker,
            r.chunk_storage == chunk_storage,
            r.symlinks@ == Seq::<Symlink>::empty(),
            r.file_metadata_map.records() == Seq::<FileRecordView>::empty(),
    {
        let r = BackupService {
            backup_config,
            file_chunker,
            chunk_storage,
            symlinks: Vec::new(),
            file_metadata_map: crate::backup_metadata::FileMetadataMap::new(),
        };
        r
    }

    /// Processes the walked entries in order: symbolic links not yet on the
    /// list are recorded, regular files are chunked and filed.  The pass
    /// over in-memory entries cannot fail.
    pub fn walk(&mut self, entries: &Vec<WalkEntry>)
        requires
            old(self).wf(),
        ensures
            final(self).wf(),
            final(self).backup_config == old(self).backup_config,
            final(self).file_chunker == old(self).file_chunker,
            final(self).state() == pass_after(
                old(self).state(),
                entry_views(entries@),
                old(self).file_chunker.spec_min(),
                old(self).file_chunker.spec_avg(),
                old(self).file_chunker.spec_max(),
            ),
    {
        let ghost st0 = self.state();
        let ghost evs = entry_views(entries@);
        let ghost min_size = self.file_chunker.spec_min();
        let ghost avg_size = self.file_chunker.spec_avg();
        let ghost max_size = self.file_chunker.spec_max();
        let mut i: usize = 0;
        proof {
            assert(evs.take(0) =~= Seq::<WalkEntryView>::empty());
        }
        while i < entries.len()
            invariant
                i <= entries@.len(),
                evs == entry_views(entries@),
                self.wf(),
                self.backup_config == old(self).backup_config,
                self.file_chunker == old(self).file_chunker,
                min_size == self.file_chunker.spec_min(),
                avg_size == self.file_chunker.spec_avg(),
                max_size == self.file_chunker.spec_max(),
                self.state() == pass_after(st0, evs.take(i as int), min_size, avg_size, max_size),
                st0 == old(self).state(),
            decreases entries@.len() - i,
        {
            let ghost st_prev = self.state();
            proof {
                assert(evs.take(i as int + 1).drop_last() =~= evs.take(i as int));
                assert(evs.take(i as int + 1).last() == evs[i as int]);
                assert(evs[i as int] == entries@[i as int]@);
            }
            match &entries[i] {
                WalkEntry::Link { from, to } => {
                    let link = Symlink::new(from.clone(), to.clone());
                    if !self.has_symlink(&link) {
                        self.symlinks.push(link);
                        proof {
                            assert(symlink_views(self.symlinks@) =~= st_prev.symlinks.push(
                                link@,
                            ));
                        }
                    }
                    proof {
                        assert(self.state() =~= pass_step(
                            st_prev,
                            evs[i as int],
                            min_size,
                            avg_size,
                            max_size,
                        ));
                    }
                },
                WalkEntry::File { path, data } => {
                    let file_metadata = self.file_chunker.chunk_file(
                        path,
                        data,
                        &mut self.chunk_storage,
                    );
                    self.file_metadata_map.insert(file_metadata);
                    proof {
                        assert(self.state() =~= pass_step(
                            st_prev,
                            evs[i as int],
                            min_size,
                            avg_size,
                            max_size,
                        ));
                    }
                },
            }
            i += 1;
        }
        proof {
            assert(evs.take(entries@.len() as int) =~= evs);
        }
    }

    /// Whether an equal link is already on the list.
    fn has_symlink(&self, link: &Symlink) -> (r: bool)
        ensures
            r == symlink_views(self.symlinks@).contains(link@),
    {
        let ghost s = symlink_views(self.symlinks@);
        let mut j: usize = 0;
        while j < self.symlinks.len()
            invariant
                s == symlink_views(self.symlinks@),
                j <= s.len(),
                forall|q: int| 0 <= q < j ==> #[trigger] s[q] != link@,
            decreases s.len() - j,
        {
            if self.symlinks[j].from == link.from && self.symlinks[j].to == link.to {
                proof {
                    assert(s[j as int] == link@);
                }
                return true;
            }
            j += 1;
        }
        proof {
            assert forall|q: int| 0 <= q < s.len() implies #[trigger] s[q] != link@ by {}
        }
        false
    }

    /// Runs one full pass: seeds the in-memory state from the prior
    /// manifest, walks the entries, and assembles the manifest to persist.
    /// Unchanged files and the known symlinks carry over; a link already on
    /// the carried list is not recorded again.  The pass over in-memory
    /// entries cannot fail.
    pub fn backup(&mut self, prior: BackupMetadata, entries: &Vec<WalkEntry>) -> (m:
        BackupMetadata)
        requires
            old(self).wf(),
            prior.wf(),
        ensures
            final(self).wf(),
            m.wf(),
            ({
                let seeded = PassView {
                    index: chunk_map_views(prior.chunk_map.entries@),
                    blobs: old(self).chunk_storage.blob_view(),
                    files: prior.file_metadata_map.records(),
                    symlinks: symlink_views(prior.symlinks@),
                };
                let done = pass_after(
                    seeded,
                    entry_views(entries@),
                    old(self).file_chunker.spec_min(),
                    old(self).file_chunker.spec_avg(),
                    old(self).file_chunker.spec_max(),
                );
                &&& chunk_map_views(m.chunk_map.entries@) == done.index
                &&& m.file_metadata_map.records() == done.files
                &&& symlink_views(m.symlinks@) == done.symlinks
                &&& final(self).chunk_storage.blob_view() == done.blobs
            }),
    {
        self.symlinks = prior.symlinks;
        self.file_metadata_map = prior.file_metadata_map;
        self.chunk_storage.load_chunk_map(prior.chunk_map);
        self.walk(entries);
        let metadata = BackupMetadata::new_with_data(
            self.chunk_storage.chunk_map(),
            self.file_metadata_map.duplicate(),
            duplicate_symlinks(&self.symlinks),
        );
        proof {
            assert(metadata.chunk_map.wf() == self.chunk_storage.chunk_map.wf());
            assert(metadata.file_metadata_map.wf() == self.file_metadata_map.wf());
        }
        metadata
    }
}

} // verus!
