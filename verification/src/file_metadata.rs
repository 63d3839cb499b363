use vstd::prelude::*;
use vstd::multiset::Multiset;
use vstd::relations::sorted_by;
use vstd::seq_lib::lemma_multiset_commutative;
use crate::digest::{digest_of, hash_hex, is_digest};
use crate::file_chunk::{FileChunk, FileChunkView};
use crate::keyed::{
    lemma_insert_at_index, lemma_insert_fresh, spec_find, spec_insert
};

verus! {

/// The key of a file chunk entry: the offset it begins at.  Keying by
/// offset keeps every occurrence of a chunk, also when one file holds the
/// same content twice.
pub open spec fn fc_offset_key() -> spec_fn(FileChunkView) -> u64 {
    |c: FileChunkView| c.offset
}

/// A file chunk carries a real digest and a positive length.
pub open spec fn chunk_view_wf(c: FileChunkView) -> bool {
    is_digest(c.hash) && c.length > 0
}

/// Ascending offset order on file chunks.
pub open spec fn offset_le() -> spec_fn(FileChunkView, FileChunkView) -> bool {
    |a: FileChunkView, b: FileChunkView| a.offset <= b.offset
}

/// No two chunks of the sequence begin at the same offset.
pub open spec fn distinct_offsets(s: Seq<FileChunkView>) -> bool {
    forall|i: int, j: int| 0 <= i < j < s.len() ==> s[i].offset != s[j].offset
}

/// A sorted sequence with `x` placed before its first strictly larger
/// element.
pub open spec fn spec_insert_sorted(t: Seq<FileChunkView>, x: FileChunkView) -> Seq<FileChunkView>
    decreases t.len(),
{
    if t.len() == 0 {
        seq![x]
    } else if x.offset <= t[0].offset {
        seq![x] + t
    } else {
        seq![t[0]] + spec_insert_sorted(t.drop_first(), x)
    }
}

/// The chunks of a record in ascending offset order: an insertion sort at
/// the specification level.
pub open spec fn spec_ordered(s: Seq<FileChunkView>) -> Seq<FileChunkView>
    decreases s.len(),
{
    if s.len() == 0 {
        Seq::empty()
    } else {
        spec_insert_sorted(spec_ordered(s.drop_first()), s[0])
    }
}

/// The UTF-8 bytes of the chunks' digest strings, concatenated in sequence
/// order.
pub open spec fn spec_digest_bytes(s: Seq<FileChunkView>) -> Seq<u8>
    decreases s.len(),
{
    if s.len() == 0 {
        Seq::empty()
    } else {
        vstd::utf8::encode_utf8(s[0].hash) + spec_digest_bytes(s.drop_first())
    }
}

/// The fingerprint of a chunk collection: the digest of the chunk digests
/// taken in ascending offset order.
pub open spec fn spec_fingerprint(s: Seq<FileChunkView>) -> Seq<char> {
    digest_of(spec_digest_bytes(spec_ordered(s)))
}

pub proof fn lemma_insert_sorted_props(t: Seq<FileChunkView>, x: FileChunkView)
    requires
        sorted_by(t, offset_le()),
    ensures
        sorted_by(spec_insert_sorted(t, x), offset_le()),
        spec_insert_sorted(t, x).to_multiset() == t.to_multiset().insert(x),
        spec_insert_sorted(t, x).len() == t.len() + 1,
    decreases t.len(),
{
    broadcast use vstd::multiset::group_multiset_axioms;
    broadcast use vstd::seq_lib::group_to_multiset_ensures;

    let r = spec_insert_sorted(t, x);
    if t.len() == 0 {
        assert(seq![x] =~= Seq::<FileChunkView>::empty().push(x));
        assert(r.to_multiset() =~= t.to_multiset().insert(x));
    } else if x.offset <= t[0].offset {
        assert(r == seq![x] + t);
        assert forall|a: int, b: int| 0 <= a < b < r.len() implies offset_le()(r[a], r[b]) by {
            if a == 0 {
                if b > 1 {
                    assert(offset_le()(t[0], t[b - 1]));
                }
            } else {
                assert(offset_le()(t[a - 1], t[b - 1]));
            }
        }
        lemma_multiset_commutative(seq![x], t);
        assert(seq![x].to_multiset() =~= Multiset::<FileChunkView>::empty().insert(x)) by {
            assert(seq![x] =~= Seq::<FileChunkView>::empty().push(x));
        }
        assert(r.to_multiset() =~= t.to_multiset().insert(x));
    } else {
        let rest = spec_insert_sorted(t.drop_first(), x);
        lemma_insert_sorted_props(t.drop_first(), x);
        assert(r == seq![t[0]] + rest);
        assert forall|a: int, b: int| 0 <= a < b < r.len() implies offset_le()(r[a], r[b]) by {
            if a > 0 {
                assert(offset_le()(rest[a - 1], rest[b - 1]));
            } else {
                // the head is no later than anything inserted behind it
                let y = rest[b - 1];
                assert(rest.to_multiset().contains(y));
                assert(rest.to_multiset() == t.drop_first().to_multiset().insert(x));
                if y == x {
                    assert(t[0].offset < x.offset);
                } else {
                    if t.drop_first().to_multiset().count(y) > 0 {
                        assert(t.drop_first().contains(y));
                        let k = choose|k: int|
                            0 <= k < t.drop_first().len() && t.drop_first()[k] == y;
                        assert(offset_le()(t[0], t[k + 1]));
                    }
                }
            }
        }
        lemma_multiset_commutative(seq![t[0]], rest);
        assert(seq![t[0]].to_multiset() =~= Multiset::<FileChunkView>::empty().insert(t[0])) by {
            assert(seq![t[0]] =~= Seq::<FileChunkView>::empty().push(t[0]));
        }
        assert(t =~= seq![t[0]] + t.drop_first());
        lemma_multiset_commutative(seq![t[0]], t.drop_first());
        assert(r.to_multiset() =~= t.to_multiset().insert(x));
    }
}

pub proof fn lemma_ordered_props(s: Seq<FileChunkView>)
    ensures
        sorted_by(spec_ordered(s), offset_le()),
        spec_ordered(s).to_multiset() == s.to_multiset(),
        spec_ordered(s).len() == s.len(),
    decreases s.len(),
{
    broadcast use vstd::multiset::group_multiset_axioms;
    broadcast use vstd::seq_lib::group_to_multiset_ensures;

    if s.len() > 0 {
        lemma_ordered_props(s.drop_first());
        lemma_insert_sorted_props(spec_ordered(s.drop_first()), s[0]);
        assert(s =~= seq![s[0]] + s.drop_first());
        lemma_multiset_commutative(seq![s[0]], s.drop_first());
        assert(seq![s[0]].to_multiset() =~= Multiset::<FileChunkView>::empty().insert(s[0])) by {
            assert(seq![s[0]] =~= Seq::<FileChunkView>::empty().push(s[0]));
        }
        assert(spec_ordered(s).to_multiset() =~= s.to_multiset());
    }
}

/// Two offset-sorted sequences over the same chunks, without repeated
/// offsets, are the same sequence.
pub proof fn lemma_sorted_offsets_unique(x: Seq<FileChunkView>, y: Seq<FileChunkView>)
    requires
        sorted_by(x, offset_le()),
        sorted_by(y, offset_le()),
        x.to_multiset() == y.to_multiset(),
        distinct_offsets(x),
    ensures
        x =~= y,
    decreases x.len(),
{
    broadcast use vstd::multiset::group_multiset_axioms;
    broadcast use vstd::seq_lib::group_to_multiset_ensures;

    if x.len() == 0 {
        assert(x.to_multiset().len() == 0);
    } else if y.len() == 0 {
        assert(y.to_multiset().len() == 0);
    } else {
        assert(y.to_multiset().contains(y[0]));
        assert(x.to_multiset().contains(y[0]));
        assert(x.contains(y[0]));
        let i = choose|i: int| 0 <= i < x.len() && x[i] == y[0];
        assert(x.contains(x[0]));
        assert(y.to_multiset().contains(x[0]));
        assert(y.contains(x[0]));
        let j = choose|j: int| 0 <= j < y.len() && y[j] == x[0];
        if i > 0 {
            assert(offset_le()(x[0], x[i]));
        }
        if j > 0 {
            assert(offset_le()(y[0], y[j]));
        }
        assert(x[0].offset == y[0].offset);
        if i > 0 {
            assert(x[0].offset != x[i].offset);
            assert(false);
        }
        assert(x[0] == y[0]);
        assert(x.drop_first().to_multiset() =~= x.to_multiset().remove(x[0])) by {
            assert(x.drop_first() =~= x.remove(0));
        }
        assert(y.drop_first().to_multiset() =~= y.to_multiset().remove(y[0])) by {
            assert(y.drop_first() =~= y.remove(0));
        }
        lemma_sorted_offsets_unique(x.drop_first(), y.drop_first());
        assert(x =~= seq![x[0]] + x.drop_first());
        assert(y =~= seq![y[0]] + y.drop_first());
    }
}

/// Distinct offsets carry over to any rearrangement of the same chunks.
pub proof fn lemma_distinct_offsets_permuted(v: Seq<FileChunkView>, w: Seq<FileChunkView>)
    requires
        distinct_offsets(v),
        v.to_multiset() == w.to_multiset(),
    ensures
        distinct_offsets(w),
{
    broadcast use vstd::multiset::group_multiset_axioms;
    broadcast use vstd::seq_lib::group_to_multiset_ensures;

    assert(v.no_duplicates());
    v.lemma_multiset_has_no_duplicates();
    w.lemma_multiset_has_no_duplicates_conv();
    assert forall|a: int, b: int| 0 <= a < b < w.len() implies w[a].offset != w[b].offset by {
        assert(w[a] != w[b]);
        assert(w.contains(w[a]) && w.contains(w[b]));
        assert(v.to_multiset().contains(w[a]));
        assert(v.to_multiset().contains(w[b]));
        assert(v.contains(w[a]));
        assert(v.contains(w[b]));
        let p = choose|p: int| 0 <= p < v.len() && v[p] == w[a];
        let q = choose|q: int| 0 <= q < v.len() && v[q] == w[b];
        if w[a].offset == w[b].offset {
            assert(p != q);
            assert(v[p].offset != v[q].offset);
            assert(false);
        }
    }
}

/// Concatenating one more digest extends the byte stream at its end.
pub proof fn lemma_digest_bytes_push(s: Seq<FileChunkView>, x: FileChunkView)
    ensures
        spec_digest_bytes(s.push(x)) =~= spec_digest_bytes(s) + vstd::utf8::encode_utf8(x.hash),
    decreases s.len(),
{
    reveal_with_fuel(spec_digest_bytes, 3);
    if s.len() == 0 {
        assert(s.push(x) =~= seq![x]);
        assert(seq![x].drop_first() =~= Seq::<FileChunkView>::empty());
        assert(spec_digest_bytes(s.push(x)) =~= vstd::utf8::encode_utf8(x.hash)
            + Seq::<u8>::empty());
        assert(spec_digest_bytes(s) =~= Seq::<u8>::empty());
    } else {
        assert(s.push(x)[0] == s[0]);
        assert(s.push(x).drop_first() =~= s.drop_first().push(x));
        lemma_digest_bytes_push(s.drop_first(), x);
        assert(spec_digest_bytes(s.push(x)) =~= vstd::utf8::encode_utf8(s[0].hash) + (
        spec_digest_bytes(s.drop_first()) + vstd::utf8::encode_utf8(x.hash)));
        assert(spec_digest_bytes(s) =~= vstd::utf8::encode_utf8(s[0].hash) + spec_digest_bytes(
            s.drop_first(),
        ));
    }
}

/// The values of a chunk vector.
pub open spec fn chunk_views(v: Seq<FileChunk>) -> Seq<FileChunkView> {
    v.map_values(|c: FileChunk| c@)
}

/// Sorts file chunks by ascending offset.
fn sort_file_chunks(v: &Vec<FileChunk>) -> (r: Vec<FileChunk>)
    ensures
        sorted_by(chunk_views(r@), offset_le()),
        chunk_views(r@).to_multiset() == chunk_views(v@).to_multiset(),
{
    let mut out: Vec<FileChunk> = Vec::new();
    let mut i: usize = 0;
    proof {
        broadcast use vstd::seq_lib::group_to_multiset_ensures;

        assert(chunk_views(v@.take(0)) =~= Seq::<FileChunkView>::empty());
        assert(chunk_views(out@) =~= Seq::<FileChunkView>::empty());
        assert(chunk_views(out@).to_multiset() =~= chunk_views(v@.take(0)).to_multiset());
    }
    while i < v.len()
        invariant
            i <= v@.len(),
            sorted_by(chunk_views(out@), offset_le()),
            chunk_views(out@).to_multiset() == chunk_views(v@.take(i as int)).to_multiset(),
        decreases v@.len() - i,
    {
        broadcast use vstd::multiset::group_multiset_axioms;
        broadcast use vstd::seq_lib::group_to_multiset_ensures;

        let x = v[i].clone();
        let mut p: usize = 0;
        while p < out.len() && out[p].offset <= x.offset
            invariant
                p <= out@.len(),
                forall|q: int| 0 <= q < p ==> (#[trigger] out@[q]).offset <= x.offset,
            decreases out@.len() - p,
        {
            p += 1;
        }
        let ghost ov = chunk_views(out@);
        let ghost t = ov.insert(p as int, x@);
        proof {
            assert forall|a: int, b: int| 0 <= a < b < t.len() implies offset_le()(t[a], t[b]) by {
                if b < p {
                    assert(offset_le()(ov[a], ov[b]));
                } else if a < p && b == p {
                    assert(out@[a].offset <= x.offset);
                    assert(ov[a].offset <= x.offset);
                } else if a < p && b > p {
                    assert(offset_le()(ov[a], ov[b - 1]));
                } else if a == p {
                    // everything behind the insertion point is strictly later
                    assert(out@[p as int].offset > x.offset);
                    if b > p + 1 {
                        assert(offset_le()(ov[p as int], ov[b - 1]));
                    }
                } else {
                    assert(offset_le()(ov[a - 1], ov[b - 1]));
                }
            }
            assert(t.remove(p as int) =~= ov);
            assert(t.remove(p as int).to_multiset() == t.to_multiset().remove(t[p as int]));
            assert(t.contains(x@)) by {
                assert(t[p as int] == x@);
            }
            assert(t.to_multiset().count(x@) > 0);
            assert(t.to_multiset() =~= ov.to_multiset().insert(x@));
            assert(chunk_views(v@.take(i as int + 1)) =~= chunk_views(v@.take(i as int)).push(
                v@[i as int]@,
            ));
        }
        out.insert(p, x);
        proof {
            assert(chunk_views(out@) =~= t);
        }
        i += 1;
    }
    proof {
        assert(v@.take(v@.len() as int) =~= v@);
    }
    out
}

/// The record of one regular file: its path and the chunks that make it up,
/// at most one entry per offset.  A file holding the same chunk content at
/// two offsets keeps both occurrences, under their own offsets.
#[derive(Debug, PartialEq, Eq)]
pub struct FileMetadata {
    pub path: String,
    pub chunks: Vec<FileChunk>,
}

/// The mathematical value of a file record: its path and its chunk
/// sequence.
#[verifier::ext_equal]
pub ghost struct FileRecordView {
    pub path: Seq<char>,
    pub chunks: Seq<FileChunkView>,
}

/// A record is well formed when every chunk is, and no offset appears
/// twice.
pub open spec fn record_wf(r: FileRecordView) -> bool {
    &&& distinct_offsets(r.chunks)
    &&& forall|i: int| 0 <= i < r.chunks.len() ==> chunk_view_wf(#[trigger] r.chunks[i])
}

impl View for FileMetadata {
    type V = FileRecordView;

    open spec fn view(&self) -> FileRecordView {
        FileRecordView { path: self.path@, chunks: chunk_views(self.chunks@) }
    }
}

impl FileMetadata {
    /// Every chunk is well formed and no offset appears twice.
    pub open spec fn wf(self) -> bool {
        record_wf(self@)
    }

    /// The chunk recorded at an offset, if any.
    pub open spec fn spec_get(self, offset: u64) -> Option<FileChunkView> {
        spec_find(self@.chunks, fc_offset_key(), offset)
    }

    pub fn new(path: String) -> (r: FileMetadata)
        ensures
            r.path@ == path@,
            r@.chunks == Seq::<FileChunkView>::empty(),
            r.wf(),
    {
        let r = FileMetadata { path, chunks: Vec::new() };
        proof {
            assert(r@.chunks =~= Seq::<FileChunkView>::empty());
        }
        r
    }

    /// Records one chunk occurrence under its offset, replacing an earlier
    /// occurrence at the same offset.
    pub fn add_chunk(&mut self, hash: String, file_chunk: FileChunk)
        requires
            hash@ == file_chunk.hash@,
        ensures
            final(self).path == old(self).path,
            final(self)@.chunks == spec_insert(old(self)@.chunks, fc_offset_key(), file_chunk@),
    {
        let ghost s = self@.chunks;
        let ghost fv = file_chunk@;
        let mut i: usize = 0;
        while i < self.chunks.len()
            invariant
                s == self@.chunks,
                s == old(self)@.chunks,
                self == old(self),
                i <= s.len(),
                self.chunks@.len() == s.len(),
                fv == file_chunk@,
                forall|j: int| 0 <= j < i ==> (#[trigger] s[j]).offset != fv.offset,
            decreases s.len() - i,
        {
            if self.chunks[i].offset == file_chunk.offset {
                proof {
                    assert(s[i as int].offset == self.chunks@[i as int].offset);
                    lemma_insert_at_index(s, fc_offset_key(), fv, i as int);
                }
                self.chunks.set(i, file_chunk);
                proof {
                    assert(self@.chunks =~= s.update(i as int, fv));
                }
                return ;
            }
            i += 1;
        }
        proof {
            lemma_insert_fresh(s, fc_offset_key(), fv);
        }
        self.chunks.push(file_chunk);
        proof {
            assert(self@.chunks =~= s.push(fv));
        }
    }

    /// Decides whether this record is well formed: every chunk carries a
    /// real digest and a positive length, and no offset repeats.
    pub fn check_wf(&self) -> (r: bool)
        ensures
            r == self.wf(),
    {
        let n = self.chunks.len();
        let mut i: usize = 0;
        while i < n
            invariant
                n == self.chunks@.len(),
                i <= n,
                forall|a: int| 0 <= a < i ==> chunk_view_wf(#[trigger] self@.chunks[a]),
                forall|a: int, b: int|
                    0 <= a < b < i ==> (#[trigger] self@.chunks[a]).offset != (
                    #[trigger] self@.chunks[b]).offset,
            decreases n - i,
        {
            if !crate::digest::check_digest(&self.chunks[i].hash) || self.chunks[i].length == 0 {
                proof {
                    assert(!chunk_view_wf(self@.chunks[i as int]));
                }
                return false;
            }
            let mut j: usize = 0;
            while j < i
                invariant
                    n == self.chunks@.len(),
                    j <= i < n,
                    forall|a: int|
                        0 <= a < j ==> (#[trigger] self@.chunks[a]).offset != self@.chunks[i as int].offset,
                decreases i - j,
            {
                if self.chunks[j].offset == self.chunks[i].offset {
                    proof {
                        assert(self@.chunks[j as int].offset == self@.chunks[i as int].offset);
                        assert(!distinct_offsets(self@.chunks));
                    }
                    return false;
                }
                j += 1;
            }
            i += 1;
        }
        true
    }

    /// This record's chunks in ascending offset order: the order restore
    /// writes them back in.
    pub fn sorted_by_offset(&self) -> (r: Vec<FileChunk>)
        requires
            distinct_offsets(self@.chunks),
        ensures
            chunk_views(r@) == spec_ordered(self@.chunks),
    {
        let sorted = sort_file_chunks(&self.chunks);
        proof {
            lemma_ordered_props(self@.chunks);
            lemma_distinct_offsets_permuted(self@.chunks, chunk_views(sorted@));
            lemma_sorted_offsets_unique(chunk_views(sorted@), spec_ordered(self@.chunks));
        }
        sorted
    }

    /// The stable digest over this record's chunk digests in ascending
    /// offset order.  It answers "did this file change?" without re-reading
    /// the file's bytes.
    pub fn fingerprint(&self) -> (r: String)
        requires
            distinct_offsets(self@.chunks),
        ensures
            r@ == spec_fingerprint(self@.chunks),
            is_digest(r@),
    {
        let sorted = sort_file_chunks(&self.chunks);
        let ghost sv = chunk_views(sorted@);
        proof {
            lemma_ordered_props(self@.chunks);
            lemma_distinct_offsets_permuted(self@.chunks, sv);
            lemma_sorted_offsets_unique(sv, spec_ordered(self@.chunks));
        }
        let mut bytes: Vec<u8> = Vec::new();
        let mut i: usize = 0;
        proof {
            assert(sv.take(0) =~= Seq::<FileChunkView>::empty());
        }
        while i < sorted.len()
            invariant
                sv == chunk_views(sorted@),
                sv == spec_ordered(self@.chunks),
                i <= sv.len(),
                sorted@.len() == sv.len(),
                bytes@ == spec_digest_bytes(sv.take(i as int)),
            decreases sv.len() - i,
        {
            let mut part = sorted[i].hash.as_str().as_bytes_vec();
            proof {
                assert(sv.take(i as int + 1) =~= sv.take(i as int).push(sv[i as int]));
                lemma_digest_bytes_push(sv.take(i as int), sv[i as int]);
                assert(sorted@[i as int]@ == sv[i as int]);
            }
            bytes.append(&mut part);
            i += 1;
        }
        proof {
            assert(sv.take(sv.len() as int) =~= sv);
        }
        hash_hex(bytes.as_slice())
    }
}

impl Clone for FileMetadata {
    fn clone(&self) -> (r: Self)
        ensures
            r.path == self.path,
            r@ == self@,
    {
        let mut chunks: Vec<FileChunk> = Vec::new();
        let mut i: usize = 0;
        while i < self.chunks.len()
            invariant
                i <= self.chunks@.len(),
                chunks@ =~= self.chunks@.take(i as int),
            decreases self.chunks@.len() - i,
        {
            chunks.push(self.chunks[i].clone());
            i += 1;
        }
        proof {
            assert(chunks@ =~= self.chunks@);
        }
        let r = FileMetadata { path: self.path.clone(), chunks };
        proof {
            assert(r@ =~= self@);
        }
        r
    }
}

/// Fingerprint stability: the fingerprint depends only on which chunks a
/// record holds (the ordered sequence of digests it induces), not on the
/// order its storage keeps them in.
pub proof fn lemma_fingerprint_stable(a: Seq<FileChunkView>, b: Seq<FileChunkView>)
    requires
        a.to_multiset() == b.to_multiset(),
        distinct_offsets(a),
    ensures
        spec_fingerprint(a) == spec_fingerprint(b),
{
    lemma_ordered_props(a);
    lemma_ordered_props(b);
    lemma_distinct_offsets_permuted(a, spec_ordered(a));
    lemma_sorted_offsets_unique(spec_ordered(a), spec_ordered(b));
}

} // verus!
