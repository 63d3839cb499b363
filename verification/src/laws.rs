use vstd::prelude::*;
use vstd::relations::sorted_by;
use crate::chunk::ChunkView;
use crate::chunk_reader_writer::{zstd_decode, zstd_encode, COMPRESSION_LEVEL};
use crate::chunk_storage::{blob_key, BlobView};
use crate::chunk_table::chunk_view_key;

use crate::file_chunker::{
    blobs_after, cdc_cuts, cut_digest, cut_file_chunk, cuts_partition, index_after,
    lemma_cuts_bounds, record_chunks_of
};
use crate::file_metadata::{
    distinct_offsets, fc_offset_key, lemma_ordered_props, lemma_sorted_offsets_unique, offset_le,
    spec_ordered
};
use crate::keyed::{
    has_key, lemma_find_after_insert, lemma_find_first_index_absent, lemma_find_push, lemma_insert_fresh, spec_find, spec_insert
};
use crate::backup_metadata::{file_key, BackupMetadata};
use crate::chunk::Chunk;
use crate::chunk_table::{chunk_key, chunk_map_views};
use crate::keyed::lemma_map_values_find;
use crate::backup_service::{pass_after, pass_step, spec_link_insert, PassView, WalkEntryView};
use crate::symlink::SymlinkView;
use crate::file_metadata::FileRecordView;
use crate::restore_service::restore_file_bytes;

verus! {

/// The bytes one cut of a file covers.
pub open spec fn cut_slice(data: Seq<u8>, cut: (usize, usize)) -> Seq<u8> {
    data.subrange(cut.0 as int, cut.0 as int + cut.1 as int)
}

/// Whenever two cuts of one file carry the same digest, they cover the same
/// bytes: what a collision-resistant content hash is chosen for.  Equal
/// content trivially satisfies it; only a true digest collision violates it.
pub open spec fn digests_consistent(data: Seq<u8>, cuts: Seq<(usize, usize)>) -> bool {
    forall|i: int, j: int|
        0 <= i < cuts.len() && 0 <= j < cuts.len() && cut_digest(data, #[trigger] cuts[i])
            == cut_digest(data, #[trigger] cuts[j]) ==> cut_slice(data, cuts[i]) == cut_slice(
            data,
            cuts[j],
        )
}

/// Each cut's compressed bytes decompress back to the cut: what the store's
/// write contract gives for every blob it buffers.
pub open spec fn cuts_recoverable(data: Seq<u8>, cuts: Seq<(usize, usize)>) -> bool {
    forall|j: int|
        0 <= j < cuts.len() ==> zstd_decode(
            zstd_encode(cut_slice(data, #[trigger] cuts[j]), COMPRESSION_LEVEL),
        ) == Some(cut_slice(data, cuts[j]))
}

/// What chunking one file into a fresh, empty store leaves: the record
/// lists exactly the cuts in order; every cut's digest is indexed, every
/// indexed digest is some cut's, the blob buffer holds the same digests as
/// the index, and the blob under each cut's digest decompresses to that
/// cut's bytes.
#[verifier::rlimit(100)]
#[verifier::spinoff_prover]
proof fn lemma_folds_cover(
    data: Seq<u8>,
    cuts: Seq<(usize, usize)>,
    min_size: usize,
    max_size: usize,
    k: int,
)
    requires
        cuts_partition(cuts, data.len() as int, min_size, max_size),
        digests_consistent(data, cuts),
        cuts_recoverable(data, cuts),
        0 <= k <= cuts.len(),
    ensures
        ({
            let idx = index_after(data, cuts.take(k), Seq::<ChunkView>::empty());
            let blobs = blobs_after(
                data,
                cuts.take(k),
                Seq::<ChunkView>::empty(),
                Seq::<BlobView>::empty(),
            );
            &&& record_chunks_of(data, cuts.take(k)) =~= Seq::new(
                k as nat,
                |j: int| cut_file_chunk(data, cuts[j]),
            )
            &&& forall|j: int|
                0 <= j < k ==> has_key(idx, chunk_view_key(), cut_digest(data, #[trigger] cuts[j]))
            &&& forall|h: Seq<char>|
                has_key(idx, chunk_view_key(), h) ==> exists|j: int|
                    0 <= j < k && cut_digest(data, #[trigger] cuts[j]) == h
            &&& forall|h: Seq<char>|
                has_key(blobs, blob_key(), h) ==> has_key(idx, chunk_view_key(), h)
            &&& forall|j: int|
                0 <= j < k ==> match spec_find(
                    blobs,
                    blob_key(),
                    cut_digest(data, #[trigger] cuts[j]),
                ) {
                    Some(b) => zstd_decode(b.data) == Some(cut_slice(data, cuts[j])),
                    None => false,
                }
        }),
    decreases k,
{
    lemma_cuts_bounds(cuts, data.len() as int, min_size, max_size);
    if k == 0 {
        assert(cuts.take(0) =~= Seq::<(usize, usize)>::empty());
    } else {
        lemma_folds_cover(data, cuts, min_size, max_size, k - 1);
        assert(cuts.take(k).drop_last() =~= cuts.take(k - 1));
        assert(cuts.take(k).last() == cuts[k - 1]);
        let prev_rec = record_chunks_of(data, cuts.take(k - 1));
        let prev_idx = index_after(data, cuts.take(k - 1), Seq::<ChunkView>::empty());
        let prev_blobs = blobs_after(
            data,
            cuts.take(k - 1),
            Seq::<ChunkView>::empty(),
            Seq::<BlobView>::empty(),
        );
        let idx = index_after(data, cuts.take(k), Seq::<ChunkView>::empty());
        let blobs = blobs_after(
            data,
            cuts.take(k),
            Seq::<ChunkView>::empty(),
            Seq::<BlobView>::empty(),
        );
        let h = cut_digest(data, cuts[k - 1]);
        let fcv = cut_file_chunk(data, cuts[k - 1]);
        // the record gains the cut: its offset lies beyond every earlier one
        assert forall|e: int| 0 <= e < prev_rec.len() implies fc_offset_key()(
            #[trigger] prev_rec[e],
        ) != fc_offset_key()(fcv) by {
            assert(prev_rec[e] == cut_file_chunk(data, cuts[e]));
            assert(cuts[e].0 + cuts[e].1 <= cuts[k - 1].0);
            assert(cuts[e].1 >= 1);
        }
        lemma_insert_fresh(prev_rec, fc_offset_key(), fcv);
        if has_key(prev_idx, chunk_view_key(), h) {
            // a seen digest: nothing moves; the earlier blob already covers it
            assert(idx == prev_idx && blobs == prev_blobs);
            let j0 = choose|j0: int| 0 <= j0 < k - 1 && cut_digest(data, #[trigger] cuts[j0]) == h;
            assert(cut_slice(data, cuts[j0]) == cut_slice(data, cuts[k - 1]));
            assert forall|j: int| 0 <= j < k implies match spec_find(
                blobs,
                blob_key(),
                cut_digest(data, #[trigger] cuts[j]),
            ) {
                Some(b) => zstd_decode(b.data) == Some(cut_slice(data, cuts[j])),
                None => false,
            } by {
                if j == k - 1 {
                    assert(cut_digest(data, cuts[j0]) == cut_digest(data, cuts[k - 1]));
                }
            }
        } else {
            // an unseen digest: both the index and the blob buffer gain it
            let cv = ChunkView { hash: h, length: cuts[k - 1].1 };
            let bv = BlobView {
                hash: h,
                data: zstd_encode(cut_slice(data, cuts[k - 1]), COMPRESSION_LEVEL),
            };
            assert(idx == prev_idx.push(cv));
            assert(!has_key(prev_blobs, blob_key(), h));
            lemma_find_first_index_absent(prev_blobs, blob_key(), h);
            lemma_insert_fresh(prev_blobs, blob_key(), bv);
            assert(blobs =~= prev_blobs.push(bv));
            assert forall|h2: Seq<char>| #[trigger] has_key(idx, chunk_view_key(), h2) implies
                exists|j: int| 0 <= j < k && cut_digest(data, #[trigger] cuts[j]) == h2 by {
                lemma_find_push(prev_idx, chunk_view_key(), cv, h2);
                if has_key(prev_idx, chunk_view_key(), h2) {
                } else {
                    assert(cut_digest(data, cuts[k - 1]) == h2);
                }
            }
            assert forall|h2: Seq<char>| #[trigger] has_key(blobs, blob_key(), h2) implies has_key(
                idx,
                chunk_view_key(),
                h2,
            ) by {
                lemma_find_push(prev_blobs, blob_key(), bv, h2);
                lemma_find_push(prev_idx, chunk_view_key(), cv, h2);
                if spec_find(prev_blobs, blob_key(), h2) is Some {
                    assert(has_key(prev_blobs, blob_key(), h2));
                    assert(has_key(prev_idx, chunk_view_key(), h2));
                } else {
                    assert(h2 == h);
                }
            }
            assert forall|j: int| 0 <= j < k implies has_key(
                idx,
                chunk_view_key(),
                cut_digest(data, #[trigger] cuts[j]),
            ) by {
                lemma_find_push(prev_idx, chunk_view_key(), cv, cut_digest(data, cuts[j]));
            }
            assert forall|j: int| 0 <= j < k implies match spec_find(
                blobs,
                blob_key(),
                cut_digest(data, #[trigger] cuts[j]),
            ) {
                Some(b) => zstd_decode(b.data) == Some(cut_slice(data, cuts[j])),
                None => false,
            } by {
                lemma_find_push(prev_blobs, blob_key(), bv, cut_digest(data, cuts[j]));
                if j < k - 1 {
                    if cut_digest(data, cuts[j]) == h {
                        // then the digest would already be indexed
                        assert(has_key(prev_idx, chunk_view_key(), h));
                        assert(false);
                    }
                } else {
                    assert(spec_find(blobs, blob_key(), h) == Some(bv));
                }
            }
        }
    }
}

/// Restoring the first `k` chunks of such a file yields exactly the bytes
/// up to the end of its `k`-th cut.
#[verifier::rlimit(100)]
#[verifier::spinoff_prover]
proof fn lemma_restore_fresh(
    data: Seq<u8>,
    cuts: Seq<(usize, usize)>,
    rec: Seq<crate::file_chunk::FileChunkView>,
    blobs: Seq<BlobView>,
    min_size: usize,
    max_size: usize,
    k: int,
)
    requires
        cuts_partition(cuts, data.len() as int, min_size, max_size),
        0 <= k <= cuts.len(),
        rec.len() == cuts.len(),
        forall|j: int| 0 <= j < cuts.len() ==> #[trigger] rec[j] == cut_file_chunk(data, cuts[j]),
        forall|j: int|
            0 <= j < cuts.len() ==> match spec_find(
                blobs,
                blob_key(),
                cut_digest(data, #[trigger] cuts[j]),
            ) {
                Some(b) => zstd_decode(b.data) == Some(cut_slice(data, cuts[j])),
                None => false,
            },
    ensures
        restore_file_bytes(rec.take(k), blobs) == Some(
            if k == 0 {
                Seq::<u8>::empty()
            } else {
                data.subrange(0, cuts[k - 1].0 as int + cuts[k - 1].1 as int)
            },
        ),
    decreases k,
{
    lemma_cuts_bounds(cuts, data.len() as int, min_size, max_size);
    if k == 0 {
        assert(rec.take(0) =~= Seq::<crate::file_chunk::FileChunkView>::empty());
    } else {
        lemma_restore_fresh(data, cuts, rec, blobs, min_size, max_size, k - 1);
        assert(rec.take(k).drop_last() =~= rec.take(k - 1));
        assert(rec.take(k).last() == rec[k - 1]);
        let h = cut_digest(data, cuts[k - 1]);
        assert(rec[k - 1].hash == h);
        let slice = cut_slice(data, cuts[k - 1]);
        if k == 1 {
            assert(cuts[0].0 == 0);
            assert(Seq::<u8>::empty() + slice =~= data.subrange(
                0,
                cuts[0].0 as int + cuts[0].1 as int,
            ));
        } else {
            assert(cuts[k - 1].0 == cuts[k - 2].0 + cuts[k - 2].1);
            assert(data.subrange(0, cuts[k - 2].0 as int + cuts[k - 2].1 as int) + slice
                =~= data.subrange(0, cuts[k - 1].0 as int + cuts[k - 1].1 as int));
        }
    }
}

/// Round trip: a file backed up into a fresh, empty store restores to its
/// original bytes, chunk by chunk in ascending offset order.  The record
/// keeps one occurrence per offset, so repeated content round-trips too;
/// the hypotheses say only that equal digests mean equal bytes (no digest
/// collision inside the file) and that decompression inverts compression on
/// each cut, which the store's write contract supplies for every blob.
pub proof fn lemma_backup_restore_round_trip(
    data: Seq<u8>,
    min_size: usize,
    avg_size: usize,
    max_size: usize,
)
    requires
        cuts_partition(
            cdc_cuts(data, min_size, avg_size, max_size),
            data.len() as int,
            min_size,
            max_size,
        ),
        digests_consistent(data, cdc_cuts(data, min_size, avg_size, max_size)),
        cuts_recoverable(data, cdc_cuts(data, min_size, avg_size, max_size)),
    ensures
        restore_file_bytes(
            spec_ordered(record_chunks_of(data, cdc_cuts(data, min_size, avg_size, max_size))),
            blobs_after(
                data,
                cdc_cuts(data, min_size, avg_size, max_size),
                Seq::<ChunkView>::empty(),
                Seq::<BlobView>::empty(),
            ),
        ) == Some(data),
{
    let cuts = cdc_cuts(data, min_size, avg_size, max_size);
    let n = cuts.len() as int;
    lemma_cuts_bounds(cuts, data.len() as int, min_size, max_size);
    lemma_folds_cover(data, cuts, min_size, max_size, n);
    assert(cuts.take(n) =~= cuts);
    let rec = Seq::new(cuts.len(), |j: int| cut_file_chunk(data, cuts[j]));
    let blobs = blobs_after(data, cuts, Seq::<ChunkView>::empty(), Seq::<BlobView>::empty());
    assert(record_chunks_of(data, cuts) =~= rec);
    // the record is already in ascending offset order
    assert forall|a: int, b: int| 0 <= a < b < rec.len() implies offset_le()(rec[a], rec[b]) by {
        assert(cuts[a].0 + cuts[a].1 <= cuts[b].0);
    }
    assert(sorted_by(rec, offset_le()));
    assert forall|a: int, b: int| 0 <= a < b < rec.len() implies rec[a].offset != rec[b].offset by {
        assert(cuts[a].0 + cuts[a].1 <= cuts[b].0);
        assert(cuts[a].1 >= 1);
    }
    assert(distinct_offsets(rec));
    lemma_ordered_props(rec);
    lemma_sorted_offsets_unique(rec, spec_ordered(rec));
    assert(spec_ordered(rec) =~= rec);
    assert forall|j: int| 0 <= j < cuts.len() implies #[trigger] rec[j] == cut_file_chunk(
        data,
        cuts[j],
    ) by {}
    lemma_restore_fresh(data, cuts, rec, blobs, min_size, max_size, n);
    assert(rec.take(n) =~= rec);
    if n == 0 {
        assert(data =~= Seq::<u8>::empty());
    } else {
        assert(cuts[n - 1].0 + cuts[n - 1].1 == data.len());
        assert(data.subrange(0, data.len() as int) =~= data);
    }
}

/// Deduplication: one pass over a file adds at most one index entry per
/// emitted chunk, so the unique digests never outnumber the chunks emitted.
pub proof fn lemma_index_growth(data: Seq<u8>, cuts: Seq<(usize, usize)>, index0: Seq<ChunkView>)
    ensures
        index0.len() <= index_after(data, cuts, index0).len() <= index0.len() + cuts.len(),
    decreases cuts.len(),
{
    if cuts.len() > 0 {
        lemma_index_growth(data, cuts.drop_last(), index0);
    }
}

/// A digest the index holds survives any further chunking.
proof fn lemma_index_monotone(
    data: Seq<u8>,
    cuts: Seq<(usize, usize)>,
    index0: Seq<ChunkView>,
    h: Seq<char>,
)
    requires
        has_key(index0, chunk_view_key(), h),
    ensures
        has_key(index_after(data, cuts, index0), chunk_view_key(), h),
    decreases cuts.len(),
{
    if cuts.len() > 0 {
        lemma_index_monotone(data, cuts.drop_last(), index0, h);
        let prev = index_after(data, cuts.drop_last(), index0);
        let hh = cut_digest(data, cuts.last());
        if !has_key(prev, chunk_view_key(), hh) {
            lemma_find_push(
                prev,
                chunk_view_key(),
                ChunkView { hash: hh, length: cuts.last().1 },
                h,
            );
        }
    }
}

/// After a file is chunked, the index holds the digest of each of its cuts.
proof fn lemma_index_has_digests(
    data: Seq<u8>,
    cuts: Seq<(usize, usize)>,
    index0: Seq<ChunkView>,
    k: int,
)
    requires
        0 <= k < cuts.len(),
    ensures
        has_key(index_after(data, cuts, index0), chunk_view_key(), cut_digest(data, cuts[k])),
    decreases cuts.len(),
{
    let prev = index_after(data, cuts.drop_last(), index0);
    let hh = cut_digest(data, cuts.last());
    let x = ChunkView { hash: hh, length: cuts.last().1 };
    if k == cuts.len() - 1 {
        if !has_key(prev, chunk_view_key(), hh) {
            lemma_find_push(prev, chunk_view_key(), x, hh);
        }
    } else {
        lemma_index_has_digests(data, cuts.drop_last(), index0, k);
        assert(cuts.drop_last()[k] == cuts[k]);
        if !has_key(prev, chunk_view_key(), hh) {
            lemma_find_push(prev, chunk_view_key(), x, cut_digest(data, cuts[k]));
        }
    }
}

/// Chunking a file whose digests the index all knows changes nothing.
proof fn lemma_chunking_saturated(
    data: Seq<u8>,
    cuts: Seq<(usize, usize)>,
    index0: Seq<ChunkView>,
    blobs0: Seq<BlobView>,
)
    requires
        forall|k: int|
            0 <= k < cuts.len() ==> has_key(
                index0,
                chunk_view_key(),
                cut_digest(data, #[trigger] cuts[k]),
            ),
    ensures
        index_after(data, cuts, index0) == index0,
        blobs_after(data, cuts, index0, blobs0) == blobs0,
    decreases cuts.len(),
{
    if cuts.len() > 0 {
        assert(forall|k: int|
            0 <= k < cuts.drop_last().len() ==> #[trigger] cuts.drop_last()[k] == cuts[k]);
        lemma_chunking_saturated(data, cuts.drop_last(), index0, blobs0);
    }
}

/// Whether the index already holds every chunk digest one entry emits.
pub open spec fn entry_digests_present(
    index: Seq<ChunkView>,
    e: WalkEntryView,
    min_size: usize,
    avg_size: usize,
    max_size: usize,
) -> bool {
    match e {
        WalkEntryView::File { path, data } => forall|k: int|
            0 <= k < cdc_cuts(data, min_size, avg_size, max_size).len() ==> has_key(
                index,
                chunk_view_key(),
                cut_digest(data, #[trigger] cdc_cuts(data, min_size, avg_size, max_size)[k]),
            ),
        WalkEntryView::Link { from, to } => true,
    }
}

/// Digests present before a pass are still present after it.
proof fn lemma_pass_index_monotone(
    st: PassView,
    entries: Seq<WalkEntryView>,
    min_size: usize,
    avg_size: usize,
    max_size: usize,
    h: Seq<char>,
)
    requires
        has_key(st.index, chunk_view_key(), h),
    ensures
        has_key(
            pass_after(st, entries, min_size, avg_size, max_size).index,
            chunk_view_key(),
            h,
        ),
    decreases entries.len(),
{
    if entries.len() > 0 {
        lemma_pass_index_monotone(st, entries.drop_last(), min_size, avg_size, max_size, h);
        let prev = pass_after(st, entries.drop_last(), min_size, avg_size, max_size);
        match entries.last() {
            WalkEntryView::File { path, data } => {
                lemma_index_monotone(
                    data,
                    cdc_cuts(data, min_size, avg_size, max_size),
                    prev.index,
                    h,
                );
            },
            WalkEntryView::Link { from, to } => {},
        }
    }
}

/// After a pass, the index holds every digest any of its entries emitted.
proof fn lemma_pass_saturated(
    st: PassView,
    entries: Seq<WalkEntryView>,
    min_size: usize,
    avg_size: usize,
    max_size: usize,
    e: int,
)
    requires
        0 <= e < entries.len(),
    ensures
        entry_digests_present(
            pass_after(st, entries, min_size, avg_size, max_size).index,
            entries[e],
            min_size,
            avg_size,
            max_size,
        ),
    decreases entries.len(),
{
    let once = pass_after(st, entries, min_size, avg_size, max_size);
    let prev = pass_after(st, entries.drop_last(), min_size, avg_size, max_size);
    if e == entries.len() - 1 {
        match entries.last() {
            WalkEntryView::File { path, data } => {
                let cuts = cdc_cuts(data, min_size, avg_size, max_size);
                assert forall|k: int| 0 <= k < cuts.len() implies has_key(
                    once.index,
                    chunk_view_key(),
                    cut_digest(data, #[trigger] cuts[k]),
                ) by {
                    lemma_index_has_digests(data, cuts, prev.index, k);
                }
            },
            WalkEntryView::Link { from, to } => {},
        }
    } else {
        lemma_pass_saturated(st, entries.drop_last(), min_size, avg_size, max_size, e);
        assert(entries.drop_last()[e] == entries[e]);
        match entries[e] {
            WalkEntryView::File { path, data } => {
                let cuts = cdc_cuts(data, min_size, avg_size, max_size);
                assert forall|k: int| 0 <= k < cuts.len() implies has_key(
                    once.index,
                    chunk_view_key(),
                    cut_digest(data, #[trigger] cuts[k]),
                ) by {
                    match entries.last() {
                        WalkEntryView::File { path: p2, data: d2 } => {
                            lemma_index_monotone(
                                d2,
                                cdc_cuts(d2, min_size, avg_size, max_size),
                                prev.index,
                                cut_digest(data, cuts[k]),
                            );
                        },
                        WalkEntryView::Link { from, to } => {},
                    }
                }
            },
            WalkEntryView::Link { from, to } => {},
        }
    }
}

/// Re-running a pass whose digests the index all knows moves neither the
/// index nor the blob buffer.
proof fn lemma_pass_rerun_frozen(
    st: PassView,
    entries: Seq<WalkEntryView>,
    min_size: usize,
    avg_size: usize,
    max_size: usize,
)
    requires
        forall|e: int|
            0 <= e < entries.len() ==> entry_digests_present(
                st.index,
                #[trigger] entries[e],
                min_size,
                avg_size,
                max_size,
            ),
    ensures
        pass_after(st, entries, min_size, avg_size, max_size).index == st.index,
        pass_after(st, entries, min_size, avg_size, max_size).blobs == st.blobs,
    decreases entries.len(),
{
    if entries.len() > 0 {
        assert(forall|e: int|
            0 <= e < entries.drop_last().len() ==> #[trigger] entries.drop_last()[e]
                == entries[e]);
        lemma_pass_rerun_frozen(st, entries.drop_last(), min_size, avg_size, max_size);
        let prev = pass_after(st, entries.drop_last(), min_size, avg_size, max_size);
        match entries.last() {
            WalkEntryView::File { path, data } => {
                assert(entries[entries.len() - 1] == entries.last());
                lemma_chunking_saturated(
                    data,
                    cdc_cuts(data, min_size, avg_size, max_size),
                    prev.index,
                    prev.blobs,
                );
            },
            WalkEntryView::Link { from, to } => {},
        }
    }
}

/// Whether the link an entry would record is already on the list.
pub open spec fn entry_link_present(symlinks: Seq<SymlinkView>, e: WalkEntryView) -> bool {
    match e {
        WalkEntryView::Link { from, to } => symlinks.contains(SymlinkView { from, to }),
        WalkEntryView::File { path, data } => true,
    }
}

/// Recording one link keeps every link already recorded.
proof fn lemma_link_insert_monotone(s: Seq<SymlinkView>, x: SymlinkView, l: SymlinkView)
    requires
        s.contains(l),
    ensures
        spec_link_insert(s, x).contains(l),
        spec_link_insert(s, x).contains(x),
{
    if !s.contains(x) {
        let i = choose|i: int| 0 <= i < s.len() && s[i] == l;
        assert(s.push(x)[i] == l);
        assert(s.push(x)[s.len() as int] == x);
    }
}

/// A link once recorded stays recorded through a pass.
proof fn lemma_pass_links_monotone(
    st: PassView,
    entries: Seq<WalkEntryView>,
    min_size: usize,
    avg_size: usize,
    max_size: usize,
    l: SymlinkView,
)
    requires
        st.symlinks.contains(l),
    ensures
        pass_after(st, entries, min_size, avg_size, max_size).symlinks.contains(l),
    decreases entries.len(),
{
    if entries.len() > 0 {
        lemma_pass_links_monotone(st, entries.drop_last(), min_size, avg_size, max_size, l);
        let prev = pass_after(st, entries.drop_last(), min_size, avg_size, max_size);
        match entries.last() {
            WalkEntryView::Link { from, to } => {
                lemma_link_insert_monotone(prev.symlinks, SymlinkView { from, to }, l);
            },
            WalkEntryView::File { path, data } => {},
        }
    }
}

/// After a pass, every walked link is on the list.
proof fn lemma_pass_links_collect(
    st: PassView,
    entries: Seq<WalkEntryView>,
    min_size: usize,
    avg_size: usize,
    max_size: usize,
    e: int,
)
    requires
        0 <= e < entries.len(),
    ensures
        entry_link_present(
            pass_after(st, entries, min_size, avg_size, max_size).symlinks,
            entries[e],
        ),
    decreases entries.len(),
{
    let prev = pass_after(st, entries.drop_last(), min_size, avg_size, max_size);
    if e == entries.len() - 1 {
        match entries.last() {
            WalkEntryView::Link { from, to } => {
                let l = SymlinkView { from, to };
                if !prev.symlinks.contains(l) {
                    assert(prev.symlinks.push(l)[prev.symlinks.len() as int] == l);
                }
            },
            WalkEntryView::File { path, data } => {},
        }
    } else {
        lemma_pass_links_collect(st, entries.drop_last(), min_size, avg_size, max_size, e);
        assert(entries.drop_last()[e] == entries[e]);
        match entries[e] {
            WalkEntryView::Link { from, to } => {
                let l = SymlinkView { from, to };
                match entries.last() {
                    WalkEntryView::Link { from: f2, to: t2 } => {
                        lemma_link_insert_monotone(
                            prev.symlinks,
                            SymlinkView { from: f2, to: t2 },
                            l,
                        );
                    },
                    WalkEntryView::File { path, data } => {},
                }
            },
            WalkEntryView::File { path, data } => {},
        }
    }
}

/// Re-walking links the list already holds appends nothing.
proof fn lemma_pass_links_frozen(
    st: PassView,
    entries: Seq<WalkEntryView>,
    min_size: usize,
    avg_size: usize,
    max_size: usize,
)
    requires
        forall|e: int|
            0 <= e < entries.len() ==> entry_link_present(st.symlinks, #[trigger] entries[e]),
    ensures
        pass_after(st, entries, min_size, avg_size, max_size).symlinks == st.symlinks,
    decreases entries.len(),
{
    if entries.len() > 0 {
        assert(forall|e: int|
            0 <= e < entries.drop_last().len() ==> #[trigger] entries.drop_last()[e]
                == entries[e]);
        lemma_pass_links_frozen(st, entries.drop_last(), min_size, avg_size, max_size);
        let prev = pass_after(st, entries.drop_last(), min_size, avg_size, max_size);
        match entries.last() {
            WalkEntryView::Link { from, to } => {
                assert(entries[entries.len() - 1] == entries.last());
                assert(prev.symlinks.contains(SymlinkView { from, to }));
            },
            WalkEntryView::File { path, data } => {},
        }
    }
}

/// The record that the last file entry of a given path leaves, if any.
pub open spec fn last_record_for(
    entries: Seq<WalkEntryView>,
    p: Seq<char>,
    min_size: usize,
    avg_size: usize,
    max_size: usize,
) -> Option<FileRecordView>
    decreases entries.len(),
{
    if entries.len() == 0 {
        None
    } else {
        match entries.last() {
            WalkEntryView::File { path, data } => {
                if path == p {
                    Some(
                        FileRecordView {
                            path,
                            chunks: record_chunks_of(
                                data,
                                cdc_cuts(data, min_size, avg_size, max_size),
                            ),
                        },
                    )
                } else {
                    last_record_for(entries.drop_last(), p, min_size, avg_size, max_size)
                }
            },
            WalkEntryView::Link { from, to } => last_record_for(
                entries.drop_last(),
                p,
                min_size,
                avg_size,
                max_size,
            ),
        }
    }
}

/// What a pass leaves findable under each path: the record of the last
/// file entry with that path, or what was there before.
proof fn lemma_pass_files_find(
    st: PassView,
    entries: Seq<WalkEntryView>,
    min_size: usize,
    avg_size: usize,
    max_size: usize,
    p: Seq<char>,
)
    ensures
        spec_find(
            pass_after(st, entries, min_size, avg_size, max_size).files,
            file_key(),
            p,
        ) == match last_record_for(entries, p, min_size, avg_size, max_size) {
            Some(r) => Some(r),
            None => spec_find(st.files, file_key(), p),
        },
    decreases entries.len(),
{
    if entries.len() > 0 {
        lemma_pass_files_find(st, entries.drop_last(), min_size, avg_size, max_size, p);
        let prev = pass_after(st, entries.drop_last(), min_size, avg_size, max_size);
        match entries.last() {
            WalkEntryView::File { path, data } => {
                let r = FileRecordView {
                    path,
                    chunks: record_chunks_of(data, cdc_cuts(data, min_size, avg_size, max_size)),
                };
                lemma_find_after_insert(prev.files, file_key(), r, p);
            },
            WalkEntryView::Link { from, to } => {},
        }
    }
}

/// Running the same pass again, seeded with its own result, reproduces the
/// chunk index, the file map and the symlink list, and stores no new blob.
/// The maps are compared as maps: same answer for every digest and every
/// path; the symlink list is reproduced exactly.
pub proof fn lemma_backup_idempotent(
    st0: PassView,
    st1: PassView,
    entries: Seq<WalkEntryView>,
    min_size: usize,
    avg_size: usize,
    max_size: usize,
)
    requires
        st1.index == pass_after(st0, entries, min_size, avg_size, max_size).index,
        st1.blobs == pass_after(st0, entries, min_size, avg_size, max_size).blobs,
        st1.files == pass_after(st0, entries, min_size, avg_size, max_size).files,
        st1.symlinks == pass_after(st0, entries, min_size, avg_size, max_size).symlinks,
    ensures
        ({
            let once = pass_after(st0, entries, min_size, avg_size, max_size);
            let twice = pass_after(st1, entries, min_size, avg_size, max_size);
            &&& twice.index == once.index
            &&& twice.blobs == once.blobs
            &&& twice.symlinks == once.symlinks
            &&& forall|p: Seq<char>|
                spec_find(twice.files, file_key(), p) == spec_find(once.files, file_key(), p)
        }),
{
    let once = pass_after(st0, entries, min_size, avg_size, max_size);
    let twice = pass_after(st1, entries, min_size, avg_size, max_size);
    assert forall|e: int| 0 <= e < entries.len() implies entry_digests_present(
        st1.index,
        #[trigger] entries[e],
        min_size,
        avg_size,
        max_size,
    ) by {
        lemma_pass_saturated(st0, entries, min_size, avg_size, max_size, e);
    }
    lemma_pass_rerun_frozen(st1, entries, min_size, avg_size, max_size);
    assert forall|e: int| 0 <= e < entries.len() implies entry_link_present(
        st1.symlinks,
        #[trigger] entries[e],
    ) by {
        lemma_pass_links_collect(st0, entries, min_size, avg_size, max_size, e);
    }
    lemma_pass_links_frozen(st1, entries, min_size, avg_size, max_size);
    assert forall|p: Seq<char>|
        spec_find(twice.files, file_key(), p) == spec_find(once.files, file_key(), p) by {
        lemma_pass_files_find(st0, entries, min_size, avg_size, max_size, p);
        lemma_pass_files_find(st1, entries, min_size, avg_size, max_size, p);
    }
}

/// The manifest invariant over a pass state: every chunk any record
/// references is indexed under its digest, with the same length.
pub open spec fn state_complete(index: Seq<ChunkView>, files: Seq<FileRecordView>) -> bool {
    forall|i: int, j: int|
        0 <= i < files.len() && 0 <= j < (#[trigger] files[i]).chunks.len() ==> {
            let c = #[trigger] files[i].chunks[j];
            match spec_find(index, chunk_view_key(), c.hash) {
                Some(e) => e.length == c.length,
                None => false,
            }
        }
}

/// Whether a pass may come to associate digest `h` with length `l`: the
/// digest stands in the starting index with that length, or some file
/// entry's cut carries it.
pub open spec fn pass_claims(
    index0: Seq<ChunkView>,
    entries: Seq<WalkEntryView>,
    min_size: usize,
    avg_size: usize,
    max_size: usize,
    h: Seq<char>,
    l: usize,
) -> bool {
    ||| exists|i: int| 0 <= i < index0.len() && (#[trigger] index0[i]).hash == h && index0[i].length == l
    ||| exists|e: int, j: int|
        0 <= e < entries.len() && entries[e] is File && 0 <= j < cdc_cuts(
            entries[e]->File_data,
            min_size,
            avg_size,
            max_size,
        ).len() && cut_digest(
            entries[e]->File_data,
            #[trigger] cdc_cuts(entries[e]->File_data, min_size, avg_size, max_size)[j],
        ) == h && cdc_cuts(entries[e]->File_data, min_size, avg_size, max_size)[j].1 == l
}

/// One length per digest among everything the pass may index: what a
/// collision-resistant content hash provides.
pub open spec fn pass_lengths_consistent(
    index0: Seq<ChunkView>,
    entries: Seq<WalkEntryView>,
    min_size: usize,
    avg_size: usize,
    max_size: usize,
) -> bool {
    forall|h: Seq<char>, l1: usize, l2: usize|
        #[trigger] pass_claims(index0, entries, min_size, avg_size, max_size, h, l1)
            && #[trigger] pass_claims(index0, entries, min_size, avg_size, max_size, h, l2) ==> l1
            == l2
}

/// Chunking one file only appends to the index: what was findable before
/// is found unchanged.
proof fn lemma_index_find_preserved(
    data: Seq<u8>,
    cuts: Seq<(usize, usize)>,
    index0: Seq<ChunkView>,
    h: Seq<char>,
)
    requires
        spec_find(index0, chunk_view_key(), h) is Some,
    ensures
        spec_find(index_after(data, cuts, index0), chunk_view_key(), h) == spec_find(
            index0,
            chunk_view_key(),
            h,
        ),
    decreases cuts.len(),
{
    if cuts.len() > 0 {
        lemma_index_find_preserved(data, cuts.drop_last(), index0, h);
        let prev = index_after(data, cuts.drop_last(), index0);
        let hh = cut_digest(data, cuts.last());
        if !has_key(prev, chunk_view_key(), hh) {
            lemma_find_push(
                prev,
                chunk_view_key(),
                ChunkView { hash: hh, length: cuts.last().1 },
                h,
            );
        }
    }
}

/// Every entry the index gains while chunking one file carries the digest
/// and length of one of the file's cuts.
proof fn lemma_index_entries_from_cuts(
    data: Seq<u8>,
    cuts: Seq<(usize, usize)>,
    index0: Seq<ChunkView>,
    i: int,
)
    requires
        0 <= i < index_after(data, cuts, index0).len(),
    ensures
        ({
            let e = index_after(data, cuts, index0)[i];
            ||| (i < index0.len() && e == index0[i])
            ||| exists|j: int|
                0 <= j < cuts.len() && cut_digest(data, #[trigger] cuts[j]) == e.hash && cuts[j].1
                    == e.length
        }),
    decreases cuts.len(),
{
    if cuts.len() > 0 {
        let prev = index_after(data, cuts.drop_last(), index0);
        let hh = cut_digest(data, cuts.last());
        if has_key(prev, chunk_view_key(), hh) {
            lemma_index_entries_from_cuts(data, cuts.drop_last(), index0, i);
        } else {
            if i < prev.len() {
                lemma_index_entries_from_cuts(data, cuts.drop_last(), index0, i);
            } else {
                assert(index_after(data, cuts, index0)[i] == (ChunkView {
                    hash: hh,
                    length: cuts.last().1,
                }));
                assert(cuts[cuts.len() - 1] == cuts.last());
            }
        }
    }
}

/// A claim about a shorter walk is a claim about the longer one.
proof fn lemma_claims_monotone(
    index0: Seq<ChunkView>,
    entries: Seq<WalkEntryView>,
    min_size: usize,
    avg_size: usize,
    max_size: usize,
    h: Seq<char>,
    l: usize,
)
    requires
        entries.len() > 0,
        pass_claims(index0, entries.drop_last(), min_size, avg_size, max_size, h, l),
    ensures
        pass_claims(index0, entries, min_size, avg_size, max_size, h, l),
{
    if exists|e: int, j: int|
        0 <= e < entries.drop_last().len() && entries.drop_last()[e] is File && 0 <= j < cdc_cuts(
            entries.drop_last()[e]->File_data,
            min_size,
            avg_size,
            max_size,
        ).len() && cut_digest(
            entries.drop_last()[e]->File_data,
            #[trigger] cdc_cuts(
                entries.drop_last()[e]->File_data,
                min_size,
                avg_size,
                max_size,
            )[j],
        ) == h && cdc_cuts(entries.drop_last()[e]->File_data, min_size, avg_size, max_size)[j].1
            == l {
        let (e, j) = choose|e: int, j: int|
            0 <= e < entries.drop_last().len() && entries.drop_last()[e] is File && 0 <= j
                < cdc_cuts(
                entries.drop_last()[e]->File_data,
                min_size,
                avg_size,
                max_size,
            ).len() && cut_digest(
                entries.drop_last()[e]->File_data,
                #[trigger] cdc_cuts(
                    entries.drop_last()[e]->File_data,
                    min_size,
                    avg_size,
                    max_size,
                )[j],
            ) == h && cdc_cuts(entries.drop_last()[e]->File_data, min_size, avg_size, max_size)[j].1
                == l;
        assert(entries.drop_last()[e] == entries[e]);
    }
}

/// Every element of an insert is the inserted value or one of the old
/// entries.
proof fn lemma_insert_elements(s: Seq<FileRecordView>, x: FileRecordView, i: int)
    requires
        0 <= i < spec_insert(s, file_key(), x).len(),
    ensures
        spec_insert(s, file_key(), x)[i] == x || s.contains(spec_insert(s, file_key(), x)[i]),
    decreases s.len(),
{
    let t = spec_insert(s, file_key(), x);
    if s.len() == 0 {
    } else if file_key()(s[0]) == file_key()(x) {
        assert(t == seq![x] + s.drop_first());
        if i > 0 {
            assert(t[i] == s.drop_first()[i - 1]);
            assert(s[i] == t[i]);
        }
    } else {
        assert(t == seq![s[0]] + spec_insert(s.drop_first(), file_key(), x));
        if i > 0 {
            lemma_insert_elements(s.drop_first(), x, i - 1);
            if s.drop_first().contains(t[i]) {
                let q = choose|q: int| 0 <= q < s.drop_first().len() && s.drop_first()[q] == t[i];
                assert(s[q + 1] == t[i]);
            }
        }
    }
}

/// Every chunk of a derived record is one of the file's cuts.
proof fn lemma_record_elements(data: Seq<u8>, cuts: Seq<(usize, usize)>, i: int)
    requires
        0 <= i < record_chunks_of(data, cuts).len(),
    ensures
        exists|j: int|
            0 <= j < cuts.len() && record_chunks_of(data, cuts)[i] == cut_file_chunk(
                data,
                #[trigger] cuts[j],
            ),
    decreases cuts.len(),
{
    let rec = record_chunks_of(data, cuts);
    if cuts.len() > 0 {
        let prev = record_chunks_of(data, cuts.drop_last());
        let fcv = cut_file_chunk(data, cuts.last());
        // every element of the insert is the new cut's value or an earlier one
        assert forall|q: int| 0 <= q < rec.len() implies rec[q] == fcv || prev.contains(
            #[trigger] rec[q],
        ) by {
            lemma_fc_insert_elements(prev, fcv, q);
        }
        if rec[i] == fcv {
            assert(cuts[cuts.len() - 1] == cuts.last());
        } else {
            let q = choose|q: int| 0 <= q < prev.len() && prev[q] == rec[i];
            lemma_record_elements(data, cuts.drop_last(), q);
            let j = choose|j: int|
                0 <= j < cuts.drop_last().len() && prev[q] == cut_file_chunk(
                    data,
                    #[trigger] cuts.drop_last()[j],
                );
            assert(cuts.drop_last()[j] == cuts[j]);
        }
    }
}

/// Every element of a record insert is the inserted chunk or an old one.
proof fn lemma_fc_insert_elements(
    s: Seq<crate::file_chunk::FileChunkView>,
    x: crate::file_chunk::FileChunkView,
    i: int,
)
    requires
        0 <= i < spec_insert(s, fc_offset_key(), x).len(),
    ensures
        spec_insert(s, fc_offset_key(), x)[i] == x || s.contains(
            spec_insert(s, fc_offset_key(), x)[i],
        ),
    decreases s.len(),
{
    let t = spec_insert(s, fc_offset_key(), x);
    if s.len() == 0 {
    } else if fc_offset_key()(s[0]) == fc_offset_key()(x) {
        assert(t == seq![x] + s.drop_first());
        if i > 0 {
            assert(t[i] == s.drop_first()[i - 1]);
            assert(s[i] == t[i]);
        }
    } else {
        assert(t == seq![s[0]] + spec_insert(s.drop_first(), fc_offset_key(), x));
        if i > 0 {
            lemma_fc_insert_elements(s.drop_first(), x, i - 1);
            if s.drop_first().contains(t[i]) {
                let q = choose|q: int| 0 <= q < s.drop_first().len() && s.drop_first()[q] == t[i];
                assert(s[q + 1] == t[i]);
            }
        }
    }
}

/// The manifest invariant survives a pass: starting from a complete state,
/// with one length per digest among everything the pass may index, the
/// finished state is complete -- every chunk any record references stands
/// in the index under its digest with the same length.
#[verifier::rlimit(100)]
#[verifier::spinoff_prover]
pub proof fn lemma_pass_complete(
    st: PassView,
    entries: Seq<WalkEntryView>,
    min_size: usize,
    avg_size: usize,
    max_size: usize,
)
    requires
        state_complete(st.index, st.files),
        pass_lengths_consistent(st.index, entries, min_size, avg_size, max_size),
    ensures
        state_complete(
            pass_after(st, entries, min_size, avg_size, max_size).index,
            pass_after(st, entries, min_size, avg_size, max_size).files,
        ),
        forall|i: int|
            0 <= i < pass_after(st, entries, min_size, avg_size, max_size).index.len()
                ==> pass_claims(
                st.index,
                entries,
                min_size,
                avg_size,
                max_size,
                (#[trigger] pass_after(st, entries, min_size, avg_size, max_size).index[i]).hash,
                pass_after(st, entries, min_size, avg_size, max_size).index[i].length,
            ),
    decreases entries.len(),
{
    let once = pass_after(st, entries, min_size, avg_size, max_size);
    if entries.len() == 0 {
        assert forall|i: int| 0 <= i < once.index.len() implies pass_claims(
            st.index,
            entries,
            min_size,
            avg_size,
            max_size,
            (#[trigger] once.index[i]).hash,
            once.index[i].length,
        ) by {}
    } else {
        assert forall|h: Seq<char>, l1: usize, l2: usize|
            #[trigger] pass_claims(
                st.index,
                entries.drop_last(),
                min_size,
                avg_size,
                max_size,
                h,
                l1,
            ) && #[trigger] pass_claims(
                st.index,
                entries.drop_last(),
                min_size,
                avg_size,
                max_size,
                h,
                l2,
            ) implies l1 == l2 by {
            lemma_claims_monotone(st.index, entries, min_size, avg_size, max_size, h, l1);
            lemma_claims_monotone(st.index, entries, min_size, avg_size, max_size, h, l2);
        }
        lemma_pass_complete(st, entries.drop_last(), min_size, avg_size, max_size);
        let prev = pass_after(st, entries.drop_last(), min_size, avg_size, max_size);
        match entries.last() {
            WalkEntryView::Link { from, to } => {
                assert forall|i: int| 0 <= i < once.index.len() implies pass_claims(
                    st.index,
                    entries,
                    min_size,
                    avg_size,
                    max_size,
                    (#[trigger] once.index[i]).hash,
                    once.index[i].length,
                ) by {
                    lemma_claims_monotone(
                        st.index,
                        entries,
                        min_size,
                        avg_size,
                        max_size,
                        once.index[i].hash,
                        once.index[i].length,
                    );
                }
            },
            WalkEntryView::File { path, data } => {
                let cuts = cdc_cuts(data, min_size, avg_size, max_size);
                let rec = FileRecordView { path, chunks: record_chunks_of(data, cuts) };
                assert(entries[entries.len() - 1] == entries.last());
                // each index entry is an old one or carries a cut's digest and length
                assert forall|i: int| 0 <= i < once.index.len() implies pass_claims(
                    st.index,
                    entries,
                    min_size,
                    avg_size,
                    max_size,
                    (#[trigger] once.index[i]).hash,
                    once.index[i].length,
                ) by {
                    lemma_index_entries_from_cuts(data, cuts, prev.index, i);
                    if i < prev.index.len() && once.index[i] == prev.index[i] {
                        lemma_claims_monotone(
                            st.index,
                            entries,
                            min_size,
                            avg_size,
                            max_size,
                            prev.index[i].hash,
                            prev.index[i].length,
                        );
                    }
                }
                // every record of the new file map keeps the invariant
                assert forall|i: int, j: int|
                    0 <= i < once.files.len() && 0 <= j < (
                    #[trigger] once.files[i]).chunks.len() implies {
                    let c = #[trigger] once.files[i].chunks[j];
                    match spec_find(once.index, chunk_view_key(), c.hash) {
                        Some(e) => e.length == c.length,
                        None => false,
                    }
                } by {
                    lemma_insert_elements(prev.files, rec, i);
                    let r = once.files[i];
                    let c = r.chunks[j];
                    if r == rec {
                        lemma_record_elements(data, cuts, j);
                        let q = choose|q: int|
                            0 <= q < cuts.len() && rec.chunks[j] == cut_file_chunk(
                                data,
                                #[trigger] cuts[q],
                            );
                        lemma_index_has_digests(data, cuts, prev.index, q);
                        assert(has_key(once.index, chunk_view_key(), c.hash));
                        let e = spec_find(once.index, chunk_view_key(), c.hash)->Some_0;
                        lemma_find_is_element(once.index, c.hash);
                        assert(pass_claims(
                            st.index,
                            entries,
                            min_size,
                            avg_size,
                            max_size,
                            e.hash,
                            e.length,
                        ));
                        assert(pass_claims(
                            st.index,
                            entries,
                            min_size,
                            avg_size,
                            max_size,
                            cut_digest(data, cuts[q]),
                            cuts[q].1,
                        ));
                    } else {
                        let p0 = choose|p0: int| 0 <= p0 < prev.files.len() && prev.files[p0] == r;
                        assert(spec_find(prev.index, chunk_view_key(), c.hash) is Some);
                        lemma_index_find_preserved(data, cuts, prev.index, c.hash);
                    }
                }
            },
        }
    }
}

/// What `spec_find` answers is one of the entries.
proof fn lemma_find_is_element(s: Seq<ChunkView>, h: Seq<char>)
    requires
        spec_find(s, chunk_view_key(), h) is Some,
    ensures
        s.contains(spec_find(s, chunk_view_key(), h)->Some_0),
        (spec_find(s, chunk_view_key(), h)->Some_0).hash == h,
    decreases s.len(),
{
    if chunk_view_key()(s[0]) == h {
        assert(s[0] == spec_find(s, chunk_view_key(), h)->Some_0);
    } else {
        lemma_find_is_element(s.drop_first(), h);
        let v = spec_find(s, chunk_view_key(), h)->Some_0;
        let q = choose|q: int| 0 <= q < s.drop_first().len() && s.drop_first()[q] == v;
        assert(s[q + 1] == v);
    }
}

/// Deduplication across files: walking a second file with the very same
/// bytes adds no entry to the chunk index and stores no blob -- the second
/// record only references the digests the first already filed.
pub proof fn lemma_duplicate_content(
    st: PassView,
    path1: Seq<char>,
    path2: Seq<char>,
    data: Seq<u8>,
    min_size: usize,
    avg_size: usize,
    max_size: usize,
)
    ensures
        ({
            let one = seq![WalkEntryView::File { path: path1, data }];
            let two = one.push(WalkEntryView::File { path: path2, data });
            let once = pass_after(st, one, min_size, avg_size, max_size);
            let both = pass_after(st, two, min_size, avg_size, max_size);
            &&& both.index == once.index
            &&& both.blobs == once.blobs
        }),
{
    let cuts = cdc_cuts(data, min_size, avg_size, max_size);
    let one = seq![WalkEntryView::File { path: path1, data }];
    let two = one.push(WalkEntryView::File { path: path2, data });
    let once = pass_after(st, one, min_size, avg_size, max_size);
    let both = pass_after(st, two, min_size, avg_size, max_size);
    assert(one.drop_last() =~= Seq::<WalkEntryView>::empty());
    assert(two.drop_last() =~= one);
    assert(one.last() == (WalkEntryView::File { path: path1, data }));
    assert(two.last() == (WalkEntryView::File { path: path2, data }));
    assert(pass_after(st, one.drop_last(), min_size, avg_size, max_size) == st);
    assert(once == pass_step(
        st,
        WalkEntryView::File { path: path1, data },
        min_size,
        avg_size,
        max_size,
    ));
    assert(once.index == index_after(data, cuts, st.index));
    assert forall|j: int| 0 <= j < cuts.len() implies has_key(
        once.index,
        chunk_view_key(),
        cut_digest(data, #[trigger] cuts[j]),
    ) by {
        lemma_index_has_digests(data, cuts, st.index, j);
    }
    lemma_chunking_saturated(data, cuts, once.index, once.blobs);
}

/// Round trip at the pass level: backing one file up into a fresh, empty
/// store leaves a record and a blob buffer from which the file's bytes
/// restore exactly, under the same hypotheses as the per-file round trip.
pub proof fn lemma_pass_round_trip(
    path: Seq<char>,
    data: Seq<u8>,
    min_size: usize,
    avg_size: usize,
    max_size: usize,
)
    requires
        cuts_partition(
            cdc_cuts(data, min_size, avg_size, max_size),
            data.len() as int,
            min_size,
            max_size,
        ),
        digests_consistent(data, cdc_cuts(data, min_size, avg_size, max_size)),
        cuts_recoverable(data, cdc_cuts(data, min_size, avg_size, max_size)),
    ensures
        ({
            let fresh = PassView {
                index: Seq::<ChunkView>::empty(),
                blobs: Seq::<BlobView>::empty(),
                files: Seq::<FileRecordView>::empty(),
                symlinks: Seq::<SymlinkView>::empty(),
            };
            let done = pass_after(
                fresh,
                seq![WalkEntryView::File { path, data }],
                min_size,
                avg_size,
                max_size,
            );
            &&& done.files.len() == 1
            &&& done.files[0].path == path
            &&& restore_file_bytes(spec_ordered(done.files[0].chunks), done.blobs) == Some(data)
        }),
{
    let fresh = PassView {
        index: Seq::<ChunkView>::empty(),
        blobs: Seq::<BlobView>::empty(),
        files: Seq::<FileRecordView>::empty(),
        symlinks: Seq::<SymlinkView>::empty(),
    };
    let one = seq![WalkEntryView::File { path, data }];
    let done = pass_after(fresh, one, min_size, avg_size, max_size);
    let cuts = cdc_cuts(data, min_size, avg_size, max_size);
    assert(one.drop_last() =~= Seq::<WalkEntryView>::empty());
    assert(one.last() == (WalkEntryView::File { path, data }));
    assert(pass_after(fresh, one.drop_last(), min_size, avg_size, max_size) == fresh);
    assert(done == pass_step(
        fresh,
        WalkEntryView::File { path, data },
        min_size,
        avg_size,
        max_size,
    ));
    let rec = FileRecordView { path, chunks: record_chunks_of(data, cuts) };
    assert(done.files =~= seq![rec]);
    lemma_backup_restore_round_trip(data, min_size, avg_size, max_size);
}

/// The manifest invariant of the data model, stated on a manifest value,
/// is exactly the pass-level statement over its views.
pub proof fn lemma_manifest_complete(m: BackupMetadata)
    ensures
        m.complete() <==> state_complete(
            chunk_map_views(m.chunk_map.entries@),
            m.file_metadata_map.records(),
        ),
{
    let idx = chunk_map_views(m.chunk_map.entries@);
    let recs = m.file_metadata_map.records();
    assert forall|h: Seq<char>|
        #[trigger] spec_find(idx, chunk_view_key(), h) == (match spec_find(
            m.chunk_map.entries@,
            chunk_key(),
            h,
        ) {
            Some(c) => Some(c@),
            None => None,
        }) by {
        lemma_map_values_find(m.chunk_map.entries@, chunk_key(), h, |c: Chunk| c@, chunk_view_key());
        assert(m.chunk_map.entries@.map_values(|c: Chunk| c@) =~= idx);
    }
    if m.complete() {
        assert forall|i: int, j: int|
            0 <= i < recs.len() && 0 <= j < (#[trigger] recs[i]).chunks.len() implies {
            let c = #[trigger] recs[i].chunks[j];
            match spec_find(idx, chunk_view_key(), c.hash) {
                Some(e) => e.length == c.length,
                None => false,
            }
        } by {
            assert(spec_find(idx, chunk_view_key(), recs[i].chunks[j].hash) == (match spec_find(
                m.chunk_map.entries@,
                chunk_key(),
                recs[i].chunks[j].hash,
            ) {
                Some(c) => Some(c@),
                None => None,
            }));
        }
    }
    if state_complete(idx, recs) {
        assert forall|i: int, j: int|
            0 <= i < recs.len() && 0 <= j < (#[trigger] recs[i]).chunks.len() implies {
            let c = #[trigger] recs[i].chunks[j];
            match m.chunk_map.spec_get(c.hash) {
                Some(e) => e.length == c.length,
                None => false,
            }
        } by {
            assert(spec_find(idx, chunk_view_key(), recs[i].chunks[j].hash) == (match spec_find(
                m.chunk_map.entries@,
                chunk_key(),
                recs[i].chunks[j].hash,
            ) {
                Some(c) => Some(c@),
                None => None,
            }));
        }
    }
}

} // verus!
