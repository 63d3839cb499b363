use vstd::prelude::*;
use crate::chunk::Chunk;
use crate::chunk_table::{chunk_map_views, ChunkMap};
use crate::errors::BackupError;
use crate::file_metadata::{record_wf, FileMetadata, FileRecordView};
use crate::keyed::{
    distinct_keys, has_key, lemma_find_at_index, lemma_find_none, lemma_insert_at_index,
    lemma_insert_distinct, lemma_insert_fresh, spec_find, spec_insert,
};
use crate::symlink::Symlink;

verus! {

/// The key of a file record: its path.
pub open spec fn file_key() -> spec_fn(FileRecordView) -> Seq<char> {
    |f: FileRecordView| f.path
}

/// The map from file path to file record, at most one entry per path.
#[derive(Debug, PartialEq, Eq)]
pub struct FileMetadataMap {
    pub entries: Vec<FileMetadata>,
}

impl FileMetadataMap {
    /// The records as mathematical values, in storage order.
    pub open spec fn records(self) -> Seq<FileRecordView> {
        self.entries@.map_values(|f: FileMetadata| f@)
    }

    /// Every record is well formed and no path appears twice.
    pub open spec fn wf(self) -> bool {
        &&& distinct_keys(self.records(), file_key())
        &&& forall|i: int| 0 <= i < self.records().len() ==> record_wf(#[trigger] self.records()[i])
    }

    /// The record stored under a path, if any.
    pub open spec fn spec_get(self, path: Seq<char>) -> Option<FileRecordView> {
        spec_find(self.records(), file_key(), path)
    }

    /// Whether a path is present.
    pub open spec fn spec_contains(self, path: Seq<char>) -> bool {
        has_key(self.records(), file_key(), path)
    }

    pub fn new() -> (r: FileMetadataMap)
        ensures
            r.records() == Seq::<FileRecordView>::empty(),
            r.wf(),
    {
        let r = FileMetadataMap { entries: Vec::new() };
        proof {
            assert(r.records() =~= Seq::<FileRecordView>::empty());
        }
        r
    }

    pub fn len(&self) -> (r: usize)
        ensures
            r == self.records().len(),
    {
        self.entries.len()
    }

    pub fn contains(&self, path: &String) -> (r: bool)
        ensures
            r == self.spec_contains(path@),
    {
        let ghost s = self.records();
        let mut i: usize = 0;
        while i < self.entries.len()
            invariant
                s == self.records(),
                i <= s.len(),
                forall|j: int| 0 <= j < i ==> (#[trigger] s[j]).path != path@,
            decreases s.len() - i,
        {
            if self.entries[i].path == *path {
                proof {
                    lemma_find_at_index(s, file_key(), i as int);
                }
                return true;
            }
            i += 1;
        }
        proof {
            lemma_find_none(s, file_key(), path@);
        }
        false
    }

    pub fn get(&self, path: &String) -> (r: Option<&FileMetadata>)
        ensures
            match r {
                Some(f) => self.spec_get(path@) == Some(f@),
                None => self.spec_get(path@) is None,
            },
    {
        let ghost s = self.records();
        let mut i: usize = 0;
        while i < self.entries.len()
            invariant
                s == self.records(),
                i <= s.len(),
                forall|j: int| 0 <= j < i ==> (#[trigger] s[j]).path != path@,
            decreases s.len() - i,
        {
            if self.entries[i].path == *path {
                proof {
                    lemma_find_at_index(s, file_key(), i as int);
                }
                return Some(&self.entries[i]);
            }
            i += 1;
        }
        proof {
            lemma_find_none(s, file_key(), path@);
        }
        None
    }

    /// Puts a record under its path, replacing an existing record of the
    /// same path.
    pub fn insert(&mut self, file_metadata: FileMetadata)
        ensures
            final(self).records() == spec_insert(
                old(self).records(),
                file_key(),
                file_metadata@,
            ),
            old(self).wf() && record_wf(file_metadata@) ==> final(self).wf(),
    {
        proof {
            if old(self).wf() && record_wf(file_metadata@) {
                lemma_insert_distinct(old(self).records(), file_key(), file_metadata@);
            }
        }
        let ghost s = self.records();
        let ghost fv = file_metadata@;
        let mut i: usize = 0;
        while i < self.entries.len()
            invariant
                s == self.records(),
                s == old(self).records(),
                self == old(self),
                i <= s.len(),
                forall|j: int| 0 <= j < i ==> (#[trigger] s[j]).path != fv.path,
                fv == file_metadata@,
            decreases s.len() - i,
        {
            if self.entries[i].path == file_metadata.path {
                proof {
                    lemma_insert_at_index(s, file_key(), fv, i as int);
                }
                self.entries.set(i, file_metadata);
                proof {
                    assert(self.records() =~= s.update(i as int, fv));
                    if old(self).wf() && record_wf(fv) {
                        assert forall|q: int| 0 <= q < self.records().len() implies record_wf(
                            #[trigger] self.records()[q],
                        ) by {
                            if q != i as int {
                                assert(self.records()[q] == s[q]);
                            }
                        }
                    }
                }
                return ;
            }
            i += 1;
        }
        proof {
            lemma_insert_fresh(s, file_key(), fv);
        }
        self.entries.push(file_metadata);
        proof {
            assert(self.records() =~= s.push(fv));
            if old(self).wf() && record_wf(fv) {
                assert forall|q: int| 0 <= q < self.records().len() implies record_wf(
                    #[trigger] self.records()[q],
                ) by {
                    if q < s.len() {
                        assert(self.records()[q] == s[q]);
                    }
                }
            }
        }
    }

    /// Decides whether this map is well formed: every record is, and no
    /// path repeats.
    pub fn check_wf(&self) -> (r: bool)
        ensures
            r == self.wf(),
    {
        let n = self.entries.len();
        let mut i: usize = 0;
        while i < n
            invariant
                n == self.entries@.len(),
                i <= n,
                forall|a: int| 0 <= a < i ==> record_wf(#[trigger] self.records()[a]),
                forall|a: int, b: int|
                    0 <= a < b < i ==> (#[trigger] self.records()[a]).path != (
                    #[trigger] self.records()[b]).path,
            decreases n - i,
        {
            if !self.entries[i].check_wf() {
                proof {
                    assert(!record_wf(self.records()[i as int]));
                }
                return false;
            }
            let mut j: usize = 0;
            while j < i
                invariant
                    n == self.entries@.len(),
                    j <= i < n,
                    forall|a: int|
                        0 <= a < j ==> (#[trigger] self.records()[a]).path != self.records()[i as int].path,
                decreases i - j,
            {
                if self.entries[j].path == self.entries[i].path {
                    proof {
                        assert(file_key()(self.records()[j as int]) == file_key()(
                            self.records()[i as int],
                        ));
                        assert(!distinct_keys(self.records(), file_key()));
                    }
                    return false;
                }
                j += 1;
            }
            i += 1;
        }
        true
    }

    /// A copy of the whole map.
    pub fn duplicate(&self) -> (r: FileMetadataMap)
        ensures
            r.records() == self.records(),
    {
        let mut entries: Vec<FileMetadata> = Vec::new();
        let mut i: usize = 0;
        while i < self.entries.len()
            invariant
                i <= self.entries@.len(),
                entries@.len() == i,
                forall|j: int| 0 <= j < i ==> #[trigger] entries@[j]@ == self.entries@[j]@,
            decreases self.entries@.len() - i,
        {
            entries.push(self.entries[i].clone());
            i += 1;
        }
        let r = FileMetadataMap { entries };
        proof {
            assert(r.records() =~= self.records());
        }
        r
    }
}

/// The serial forms a manifest can be written in.
#[derive(Debug, Clone, Copy, PartialEq, Eq, Structural)]
pub enum SerializationType {
    JSON,
    MessagePack,
}

/// The manifest of a repository: the chunk index, the map from file path to
/// file record, and the symbolic links, as read at the start of a pass and
/// written at its end.
#[derive(Debug, PartialEq, Eq)]
pub struct BackupMetadata {
    pub chunk_map: ChunkMap,
    pub file_metadata_map: FileMetadataMap,
    pub symlinks: Vec<Symlink>,
}

impl BackupMetadata {
    /// Component well-formedness: both maps keep their key disciplines.
    pub open spec fn wf(self) -> bool {
        &&& self.chunk_map.wf()
        &&& self.file_metadata_map.wf()
    }

    /// The manifest invariant: every chunk a file record references is in
    /// the chunk index, with the same length.
    pub open spec fn complete(self) -> bool {
        forall|i: int, j: int|
            0 <= i < self.file_metadata_map.records().len() && 0 <= j < (
            #[trigger] self.file_metadata_map.records()[i]).chunks.len() ==> {
                let c = #[trigger] self.file_metadata_map.records()[i].chunks[j];
                match self.chunk_map.spec_get(c.hash) {
                    Some(e) => e.length == c.length,
                    None => false,
                }
            }
    }

    /// A fresh, empty manifest.
    pub fn new() -> (r: BackupMetadata)
        ensures
            r.chunk_map.entries@ == Seq::<Chunk>::empty(),
            r.file_metadata_map.records() == Seq::<FileRecordView>::empty(),
            r.symlinks@ == Seq::<Symlink>::empty(),
            r.wf(),
            r.complete(),
    {
        BackupMetadata {
            chunk_map: ChunkMap::new(),
            file_metadata_map: FileMetadataMap::new(),
            symlinks: Vec::new(),
        }
    }

    /// A manifest assembled from already-built parts.
    pub fn new_with_data(
        chunk_map: ChunkMap,
        file_metadata_map: FileMetadataMap,
        symlinks: Vec<Symlink>,
    ) -> (r: BackupMetadata)
        ensures
            r.chunk_map == chunk_map,
            r.file_metadata_map == file_metadata_map,
            r.symlinks == symlinks,
    {
        BackupMetadata { chunk_map, file_metadata_map, symlinks }
    }

    /// Appends one symbolic link to the manifest.
    pub fn insert_symlink(&mut self, symlink: Symlink)
        ensures
            final(self).symlinks@ == old(self).symlinks@.push(symlink),
            final(self).chunk_map == old(self).chunk_map,
            final(self).file_metadata_map == old(self).file_metadata_map,
    {
        self.symlinks.push(symlink);
    }
}

impl BackupMetadata {
    /// The three component values of this manifest, as the codecs see them.
    pub open spec fn views(self) -> (
        Seq<crate::chunk::ChunkView>,
        Seq<FileRecordView>,
        Seq<crate::symlink::SymlinkView>,
    ) {
        (
            chunk_map_views(self.chunk_map.entries@),
            self.file_metadata_map.records(),
            crate::symlink::symlink_views(self.symlinks@),
        )
    }

    /// Whether every string and count of this manifest fits the binary
    /// form's length prefixes.
    pub open spec fn encodable(self) -> bool {
        crate::codec_bin::manifest_encodable(
            self.views().0,
            self.views().1,
            self.views().2,
        )
    }

    /// Decides whether this manifest keeps both key disciplines.  A caller
    /// holding bytes of unknown provenance checks them here before seeding
    /// a pass.
    pub fn check_wf(&self) -> (r: bool)
        ensures
            r == self.wf(),
    {
        self.chunk_map.check_wf() && self.file_metadata_map.check_wf()
    }

    /// Writes this manifest in the chosen serial form.  The caller puts the
    /// bytes on disk under the manifest name.
    pub fn serialize(&self, serialization_type: SerializationType) -> (r: Vec<u8>)
        requires
            serialization_type is MessagePack ==> self.encodable(),
        ensures
            r@ == match serialization_type {
                SerializationType::JSON => crate::codec_json::spec_json_manifest_bytes(
                    self.views().0,
                    self.views().1,
                    self.views().2,
                ),
                SerializationType::MessagePack => crate::codec_bin::spec_manifest_bytes(
                    self.views().0,
                    self.views().1,
                    self.views().2,
                ),
            },
    {
        match serialization_type {
            SerializationType::JSON => crate::codec_json::encode_json_manifest(
                &self.chunk_map.entries,
                &self.file_metadata_map.entries,
                &self.symlinks,
            ),
            SerializationType::MessagePack => crate::codec_bin::encode_manifest(
                &self.chunk_map.entries,
                &self.file_metadata_map.entries,
                &self.symlinks,
            ),
        }
    }

    /// Reads a manifest back from its bytes: the textual form is tried
    /// first, then the binary form; bytes that neither form accepts are
    /// corrupt.  A missing manifest file is the caller's case: it stands
    /// for a fresh, empty manifest.
    pub fn deserialize(bytes: &Vec<u8>) -> (r: Result<BackupMetadata, BackupError>)
        ensures
            match r {
                Ok(m) => (match crate::codec_json::spec_parse_json_manifest(bytes@, 0) {
                    Some(q) => q.0.0 == m.views().0 && q.0.1 == m.views().1 && q.0.2
                        == m.views().2,
                    None => match crate::codec_bin::spec_parse_manifest(bytes@, 0) {
                        Some(q) => q.0.0 == m.views().0 && q.0.1 == m.views().1 && q.0.2
                            == m.views().2,
                        None => false,
                    },
                }),
                Err(e) => {
                    &&& e == BackupError::ManifestCorrupt
                    &&& crate::codec_json::spec_parse_json_manifest(bytes@, 0) is None
                    &&& crate::codec_bin::spec_parse_manifest(bytes@, 0) is None
                },
            },
    {
        match crate::codec_json::decode_json_manifest(bytes) {
            Some(t) => {
                return Ok(
                    BackupMetadata {
                        chunk_map: ChunkMap { entries: t.0 },
                        file_metadata_map: FileMetadataMap { entries: t.1 },
                        symlinks: t.2,
                    },
                );
            },
            None => {},
        }
        match crate::codec_bin::decode_manifest(bytes) {
            Some(t) => Ok(
                BackupMetadata {
                    chunk_map: ChunkMap { entries: t.0 },
                    file_metadata_map: FileMetadataMap { entries: t.1 },
                    symlinks: t.2,
                },
            ),
            None => Err(BackupError::ManifestCorrupt),
        }
    }
}

/// A copy of a symlink list.
pub fn duplicate_symlinks(v: &Vec<Symlink>) -> (r: Vec<Symlink>)
    ensures
        r@ == v@,
{
    let mut out: Vec<Symlink> = Vec::new();
    let mut i: usize = 0;
    while i < v.len()
        invariant
            i <= v@.len(),
            out@ =~= v@.take(i as int),
        decreases v@.len() - i,
    {
        out.push(v[i].clone());
        i += 1;
    }
    proof {
        assert(out@ =~= v@);
    }
    out
}

} // verus!
