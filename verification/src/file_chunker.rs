use vstd::prelude::*;
use crate::backup_config::BackupConfig;
use crate::chunk::{Chunk, ChunkView};
use crate::chunk_reader_writer::{zstd_encode, COMPRESSION_LEVEL};
use crate::chunk_storage::{blob_key, BlobView, LocalChunkStorage};
use crate::digest::digest_of;
use crate::digest::hash_hex;
use crate::file_chunk::{FileChunk, FileChunkView};
use crate::file_metadata::{
    chunk_view_wf, distinct_offsets, fc_offset_key, FileMetadata
};
use crate::chunk_table::{chunk_key, chunk_map_views, chunk_view_key};
use crate::keyed::{
    has_key, lemma_find_first_index_absent,
    lemma_insert_fresh, lemma_map_values_find,
    spec_find, spec_insert
};

verus! {

/// The cut points the content-defined chunker produces for a byte sequence
/// under the given bounds, as (offset, length) pairs.  A pure function of
/// its arguments.
pub uninterp spec fn cdc_cuts(
    data: Seq<u8>,
    min_size: usize,
    avg_size: usize,
    max_size: usize,
) -> Seq<(usize, usize)>;

/// The cuts partition `[0, len)`: they start at zero, are contiguous, cover
/// everything, and respect the size bounds; only the final cut may fall
/// short of the minimum, and none is empty.
pub open spec fn cuts_partition(
    cuts: Seq<(usize, usize)>,
    len: int,
    min_size: usize,
    max_size: usize,
) -> bool {
    &&& (cuts.len() == 0 <==> len == 0)
    &&& (cuts.len() > 0 ==> cuts[0].0 == 0)
    &&& (forall|i: int, j: int|
        0 <= i && j == i + 1 && j < cuts.len() ==> (#[trigger] cuts[j]).0 == (#[trigger] cuts[i]).0
            + cuts[i].1)
    &&& (cuts.len() > 0 ==> cuts[cuts.len() - 1].0 + cuts[cuts.len() - 1].1 == len)
    &&& (forall|i: int| 0 <= i < cuts.len() ==> 1 <= (#[trigger] cuts[i]).1 <= max_size)
    &&& (forall|i: int| 0 <= i < cuts.len() - 1 ==> min_size <= (#[trigger] cuts[i]).1)
}

/// Relies on fastcdc::v2020::FastCDC (normalization level 1, zero seed):
/// the chunker is a pure function of the source bytes and the three size
/// bounds; chunks begin at offset zero, are contiguous and cover the
/// source; every length lies within the maximum, every length but the last
/// reaches the minimum, none is empty, and an empty source yields none.
#[verifier::external_body]
fn cdc_chunk_bounds(data: &Vec<u8>, min_size: usize, avg_size: usize, max_size: usize) -> (r: Vec<
    (usize, usize),
>)
    requires
        64 <= min_size <= 1048576,
        256 <= avg_size <= 4194304,
        1024 <= max_size <= 16777216,
        min_size % 2 == 0,
        avg_size % 2 == 0,
        max_size % 2 == 0,
        min_size <= avg_size <= max_size,
    ensures
        r@ == cdc_cuts(data@, min_size, avg_size, max_size),
        cuts_partition(r@, data@.len() as int, min_size, max_size),
{
    let mut out: Vec<(usize, usize)> = Vec::new();
    for chunk in fastcdc::v2020::FastCDC::new(data.as_slice(), min_size, avg_size, max_size) {
        out.push((chunk.offset, chunk.length));
    }
    out
}

/// Every cut of a partition ends within the data, and offsets grow
/// strictly along the sequence.
pub proof fn lemma_cuts_bounds(cuts: Seq<(usize, usize)>, len: int, min_size: usize, max_size: usize)
    requires
        cuts_partition(cuts, len, min_size, max_size),
    ensures
        forall|i: int| 0 <= i < cuts.len() ==> (#[trigger] cuts[i]).0 + cuts[i].1 <= len,
        forall|i: int, j: int|
            0 <= i < j < cuts.len() ==> (#[trigger] cuts[i]).0 + cuts[i].1 <= (#[trigger] cuts[j]).0,
{
    assert forall|i: int, j: int| 0 <= i <= j < cuts.len() implies cuts[i].0 + cuts[i].1 <= cuts[j].0
        + cuts[j].1 by {
        lemma_cut_ends_grow(cuts, len, min_size, max_size, i, j);
    }
    assert forall|i: int, j: int| 0 <= i < j < cuts.len() implies (#[trigger] cuts[i]).0 + cuts[i].1
        <= (#[trigger] cuts[j]).0 by {
        lemma_cut_ends_grow(cuts, len, min_size, max_size, i, j - 1);
    }
}

proof fn lemma_cut_ends_grow(
    cuts: Seq<(usize, usize)>,
    len: int,
    min_size: usize,
    max_size: usize,
    i: int,
    j: int,
)
    requires
        cuts_partition(cuts, len, min_size, max_size),
        0 <= i <= j < cuts.len(),
    ensures
        cuts[i].0 + cuts[i].1 <= cuts[j].0 + cuts[j].1,
    decreases j - i,
{
    if i < j {
        lemma_cut_ends_grow(cuts, len, min_size, max_size, i, j - 1);
        assert(cuts[j].0 == cuts[j - 1].0 + cuts[j - 1].1);
    }
}

/// The digest of the bytes one cut covers.
pub open spec fn cut_digest(data: Seq<u8>, cut: (usize, usize)) -> Seq<char> {
    digest_of(data.subrange(cut.0 as int, cut.0 as int + cut.1 as int))
}

/// The chunk occurrence one cut contributes to a file record.
pub open spec fn cut_file_chunk(data: Seq<u8>, cut: (usize, usize)) -> FileChunkView {
    FileChunkView { hash: cut_digest(data, cut), offset: cut.0 as u64, length: cut.1 }
}

/// The record chunks after processing the given cuts in order, keyed by
/// offset: one occurrence per cut, in cut order.
pub open spec fn record_chunks_of(data: Seq<u8>, cuts: Seq<(usize, usize)>) -> Seq<FileChunkView>
    decreases cuts.len(),
{
    if cuts.len() == 0 {
        Seq::empty()
    } else {
        spec_insert(
            record_chunks_of(data, cuts.drop_last()),
            fc_offset_key(),
            cut_file_chunk(data, cuts.last()),
        )
    }
}

/// The chunk index after processing the cuts: each digest the index did not
/// yet know is appended once, with its cut's length.
pub open spec fn index_after(data: Seq<u8>, cuts: Seq<(usize, usize)>, index0: Seq<ChunkView>) -> Seq<
    ChunkView,
>
    decreases cuts.len(),
{
    if cuts.len() == 0 {
        index0
    } else {
        let prev = index_after(data, cuts.drop_last(), index0);
        let h = cut_digest(data, cuts.last());
        if has_key(prev, chunk_view_key(), h) {
            prev
        } else {
            prev.push(ChunkView { hash: h, length: cuts.last().1 })
        }
    }
}

/// The blob buffer after processing the cuts: a cut whose digest the index
/// did not yet know files its compressed bytes under the digest.
pub open spec fn blobs_after(
    data: Seq<u8>,
    cuts: Seq<(usize, usize)>,
    index0: Seq<ChunkView>,
    blobs0: Seq<BlobView>,
) -> Seq<BlobView>
    decreases cuts.len(),
{
    if cuts.len() == 0 {
        blobs0
    } else {
        let prev_index = index_after(data, cuts.drop_last(), index0);
        let prev = blobs_after(data, cuts.drop_last(), index0, blobs0);
        let cut = cuts.last();
        let h = cut_digest(data, cut);
        if has_key(prev_index, chunk_view_key(), h) {
            prev
        } else {
            spec_insert(
                prev,
                blob_key(),
                BlobView {
                    hash: h,
                    data: zstd_encode(
                        data.subrange(cut.0 as int, cut.0 as int + cut.1 as int),
                        COMPRESSION_LEVEL,
                    ),
                },
            )
        }
    }
}

/// The bytes of one chunk: `data[start .. start + len]`.
pub(crate) fn copy_range(data: &Vec<u8>, start: usize, len: usize) -> (r: Vec<u8>)
    requires
        start + len <= data@.len(),
    ensures
        r@ == data@.subrange(start as int, start as int + len as int),
{
    let mut out: Vec<u8> = Vec::new();
    let mut k: usize = 0;
    let n = data.len();
    proof {
        assert(out@ =~= data@.subrange(start as int, start as int));
    }
    while k < len
        invariant
            k <= len,
            n == data@.len(),
            start + len <= n,
            out@ == data@.subrange(start as int, start as int + k as int),
        decreases len - k,
    {
        out.push(data[start + k]);
        proof {
            assert(out@ =~= data@.subrange(start as int, start as int + (k + 1) as int));
        }
        k += 1;
    }
    out
}

/// Splits one file's bytes into content-defined chunks, files each unseen
/// chunk into the store, and derives the file's record.
#[derive(Debug, PartialEq, Eq)]
pub struct FileChunker {
    pub backup_config: BackupConfig,
}

impl FileChunker {
    pub fn new(backup_config: BackupConfig) -> (r: FileChunker)
        ensures
            r.backup_config == backup_config,
    {
        FileChunker { backup_config }
    }

    /// The lower chunk-size bound handed to the chunker.
    pub open spec fn spec_min(self) -> usize {
        (self.backup_config.average_size / 4) as usize
    }

    /// The average chunk size handed to the chunker.
    pub open spec fn spec_avg(self) -> usize {
        self.backup_config.average_size as usize
    }

    /// The upper chunk-size bound handed to the chunker.
    pub open spec fn spec_max(self) -> usize {
        (self.backup_config.average_size * 4) as usize
    }

    /// Feeds one file through the chunker.  Each cut's digest that the
    /// index does not know yet has its compressed bytes buffered in the
    /// store and is added to the index; the returned record lists every
    /// cut.  The pass over in-memory bytes cannot fail.
    #[verifier::rlimit(100)]
    pub fn chunk_file(
        &self,
        file_path: &String,
        data: &Vec<u8>,
        storage: &mut LocalChunkStorage,
    ) -> (fm: FileMetadata)
        requires
            self.backup_config.wf(),
            old(storage).wf(),
        ensures
            final(storage).wf(),
            final(storage).backup_config == old(storage).backup_config,
            ({
                let cuts = cdc_cuts(data@, self.spec_min(), self.spec_avg(), self.spec_max());
                &&& cuts_partition(cuts, data@.len() as int, self.spec_min(), self.spec_max())
                &&& fm.path@ == file_path@
                &&& fm@.chunks == record_chunks_of(data@, cuts)
                &&& fm.wf()
                &&& chunk_map_views(final(storage).chunk_map.entries@) == index_after(
                    data@,
                    cuts,
                    chunk_map_views(old(storage).chunk_map.entries@),
                )
                &&& final(storage).blob_view() == blobs_after(
                    data@,
                    cuts,
                    chunk_map_views(old(storage).chunk_map.entries@),
                    old(storage).blob_view(),
                )
            }),
    {
        let min_size = (self.backup_config.min_size()) as usize;
        let avg_size = self.backup_config.average_size as usize;
        let max_size = (self.backup_config.max_size()) as usize;
        let bounds = cdc_chunk_bounds(data, min_size, avg_size, max_size);
        let ghost cuts = bounds@;
        let ghost dlen = data@.len() as int;
        let ghost idx0 = chunk_map_views(old(storage).chunk_map.entries@);
        let ghost blobs0 = old(storage).blob_view();
        proof {
            assert(min_size == self.spec_min());
            assert(avg_size == self.spec_avg());
            assert(max_size == self.spec_max());
            lemma_cuts_bounds(cuts, dlen, min_size, max_size);
        }
        let mut file_metadata = FileMetadata::new(file_path.clone());
        let mut i: usize = 0;
        proof {
            assert(cuts.take(0) =~= Seq::<(usize, usize)>::empty());
        }
        while i < bounds.len()
            invariant
                self.backup_config.wf(),
                min_size == self.spec_min(),
                avg_size == self.spec_avg(),
                max_size == self.spec_max(),
                bounds@ == cuts,
                i <= cuts.len(),
                cuts_partition(cuts, data@.len() as int, min_size, max_size),
                forall|k: int| 0 <= k < cuts.len() ==> (#[trigger] cuts[k]).0 + cuts[k].1
                    <= data@.len(),
                forall|k: int, l: int|
                    0 <= k < l < cuts.len() ==> (#[trigger] cuts[k]).0 + cuts[k].1 <= (
                    #[trigger] cuts[l]).0,
                storage.wf(),
                storage.backup_config == old(storage).backup_config,
                idx0 == chunk_map_views(old(storage).chunk_map.entries@),
                blobs0 == old(storage).blob_view(),
                file_metadata.path@ == file_path@,
                file_metadata@.chunks == record_chunks_of(data@, cuts.take(i as int)),
                file_metadata.wf(),
                i > 0 ==> (forall|e: int|
                    0 <= e < file_metadata@.chunks.len() ==> (
                    #[trigger] file_metadata@.chunks[e]).offset <= cuts[i as int - 1].0),
                chunk_map_views(storage.chunk_map.entries@) == index_after(
                    data@,
                    cuts.take(i as int),
                    idx0,
                ),
                storage.blob_view() == blobs_after(data@, cuts.take(i as int), idx0, blobs0),
            decreases cuts.len() - i,
        {
            let pair = bounds[i];
            let offset = pair.0;
            let length = pair.1;
            let chunk_bytes = copy_range(data, offset, length);
            let hash = hash_hex(chunk_bytes.as_slice());
            let ghost slice = data@.subrange(offset as int, offset as int + length as int);
            let ghost h = cut_digest(data@, cuts[i as int]);
            let ghost prev_idx = chunk_map_views(storage.chunk_map.entries@);
            let ghost prev_blobs = storage.blob_view();
            let ghost prev_chunks = file_metadata@.chunks;
            proof {
                assert(hash@ == h);
                assert(cuts.take(i as int + 1).drop_last() =~= cuts.take(i as int));
                assert(cuts.take(i as int + 1).last() == cuts[i as int]);
            }
            if !storage.chunk_exists(&hash) {
                proof {
                    lemma_map_values_find(
                        storage.chunk_map.entries@,
                        chunk_key(),
                        h,
                        |c: Chunk| c@,
                        chunk_view_key(),
                    );
                    assert(chunk_map_views(storage.chunk_map.entries@)
                        =~= storage.chunk_map.entries@.map_values(|c: Chunk| c@));
                    assert(!has_key(prev_idx, chunk_view_key(), h));
                }
                storage.store_chunk(&hash, &chunk_bytes);
                proof {
                    assert(storage.blob_view() == spec_insert(
                        prev_blobs,
                        blob_key(),
                        BlobView { hash: h, data: zstd_encode(slice, COMPRESSION_LEVEL) },
                    ));
                    assert(storage.blob_view() == blobs_after(
                        data@,
                        cuts.take(i as int + 1),
                        idx0,
                        blobs0,
                    ));
                }
                let ghost entries_before = storage.chunk_map.entries@;
                storage.add_chunk(Chunk { hash: hash.clone(), length });
                proof {
                    // the digest was absent, so the index gained one entry at its end
                    assert(spec_find(entries_before, chunk_key(), h) is None);
                    lemma_find_first_index_absent(entries_before, chunk_key(), h);
                    let c = (Chunk { hash: hash, length });
                    assert(storage.chunk_map.entries@ == spec_insert(
                        entries_before,
                        chunk_key(),
                        c,
                    ));
                    lemma_insert_fresh(entries_before, chunk_key(), c);
                    assert(chunk_map_views(storage.chunk_map.entries@) =~= prev_idx.push(
                        ChunkView { hash: h, length: length },
                    ));
                    assert(chunk_map_views(storage.chunk_map.entries@) == index_after(
                        data@,
                        cuts.take(i as int + 1),
                        idx0,
                    ));
                }
            } else {
                proof {
                    lemma_map_values_find(
                        storage.chunk_map.entries@,
                        chunk_key(),
                        h,
                        |c: Chunk| c@,
                        chunk_view_key(),
                    );
                    assert(chunk_map_views(storage.chunk_map.entries@)
                        =~= storage.chunk_map.entries@.map_values(|c: Chunk| c@));
                    assert(has_key(prev_idx, chunk_view_key(), h));
                    assert(chunk_map_views(storage.chunk_map.entries@) == index_after(
                        data@,
                        cuts.take(i as int + 1),
                        idx0,
                    ));
                    assert(storage.blob_view() == blobs_after(
                        data@,
                        cuts.take(i as int + 1),
                        idx0,
                        blobs0,
                    ));
                }
            }
            let ghost fcv = FileChunkView { hash: h, offset: offset as u64, length: length };
            proof {
                assert(fcv == cut_file_chunk(data@, cuts[i as int]));
                assert forall|e: int| 0 <= e < prev_chunks.len() implies (
                #[trigger] prev_chunks[e]).offset < fcv.offset by {
                    assert(i > 0);
                    assert(prev_chunks[e].offset <= cuts[i as int - 1].0);
                    assert(cuts[i as int - 1].0 + cuts[i as int - 1].1 <= cuts[i as int].0);
                }
                lemma_record_insert_wf(prev_chunks, fcv);
            }
            file_metadata.add_chunk(hash.clone(), FileChunk { hash, offset: offset as u64, length });
            proof {
                assert(file_metadata@.chunks == spec_insert(prev_chunks, fc_offset_key(), fcv));
                assert(file_metadata@.chunks == record_chunks_of(data@, cuts.take(i as int + 1)));
            }
            i += 1;
        }
        proof {
            assert(cuts.take(cuts.len() as int) =~= cuts);
        }
        file_metadata
    }
}

/// Inserting a chunk whose offset lies strictly beyond every present offset
/// appends it and keeps a record well formed.
proof fn lemma_record_insert_wf(s: Seq<FileChunkView>, x: FileChunkView)
    requires
        distinct_offsets(s),
        forall|e: int| 0 <= e < s.len() ==> chunk_view_wf(#[trigger] s[e]),
        forall|e: int| 0 <= e < s.len() ==> (#[trigger] s[e]).offset < x.offset,
        chunk_view_wf(x),
    ensures
        spec_insert(s, fc_offset_key(), x) == s.push(x),
        distinct_offsets(spec_insert(s, fc_offset_key(), x)),
        forall|e: int|
            0 <= e < spec_insert(s, fc_offset_key(), x).len() ==> chunk_view_wf(
                #[trigger] spec_insert(s, fc_offset_key(), x)[e],
            ),
        forall|e: int|
            0 <= e < spec_insert(s, fc_offset_key(), x).len() ==> (#[trigger] spec_insert(
                s,
                fc_offset_key(),
                x,
            )[e]).offset <= x.offset,
{
    lemma_insert_fresh(s, fc_offset_key(), x);
    let t = spec_insert(s, fc_offset_key(), x);
    assert(t =~= s.push(x));
    assert forall|a: int, b: int| 0 <= a < b < t.len() implies t[a].offset != t[b].offset by {
        if b == s.len() {
            assert(t[a] == s[a]);
        } else {
            assert(t[a] == s[a] && t[b] == s[b]);
        }
    }
    assert forall|e: int| 0 <= e < t.len() implies chunk_view_wf(#[trigger] t[e]) by {
        if e < s.len() {
            assert(t[e] == s[e]);
        }
    }
    assert forall|e: int| 0 <= e < t.len() implies (#[trigger] t[e]).offset <= x.offset by {
        if e < s.len() {
            assert(t[e] == s[e]);
        }
    }
}

} // verus!
