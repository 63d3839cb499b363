use vstd::prelude::*;
use crate::chunk::{Chunk, ChunkView};
use crate::keyed::{
    distinct_keys, has_key, lemma_find_at_index, lemma_find_none, lemma_insert_at_index,
    lemma_insert_distinct, lemma_insert_fresh, spec_find, spec_insert,
};

verus! {

/// The key of a chunk entry: its digest string.
pub open spec fn chunk_key() -> spec_fn(Chunk) -> Seq<char> {
    |c: Chunk| c.hash@
}

/// The key of a chunk value: its digest.
pub open spec fn chunk_view_key() -> spec_fn(ChunkView) -> Seq<char> {
    |c: ChunkView| c.hash
}

/// The values of a chunk vector.
pub open spec fn chunk_map_views(s: Seq<Chunk>) -> Seq<ChunkView> {
    s.map_values(|c: Chunk| c@)
}

/// The chunk index: digest to chunk record, at most one entry per digest.
/// It answers "is this chunk already stored" without touching the store.
#[derive(Debug, PartialEq, Eq)]
pub struct ChunkMap {
    pub entries: Vec<Chunk>,
}

impl ChunkMap {
    /// Every entry is well formed and no digest appears twice.
    pub open spec fn wf(self) -> bool {
        &&& distinct_keys(self.entries@, chunk_key())
        &&& forall|i: int| 0 <= i < self.entries@.len() ==> (#[trigger] self.entries@[i]).wf()
    }

    /// The entry stored under a digest, if any.
    pub open spec fn spec_get(self, h: Seq<char>) -> Option<Chunk> {
        spec_find(self.entries@, chunk_key(), h)
    }

    /// Whether a digest is present.
    pub open spec fn spec_contains(self, h: Seq<char>) -> bool {
        has_key(self.entries@, chunk_key(), h)
    }

    pub fn new() -> (r: ChunkMap)
        ensures
            r.entries@ == Seq::<Chunk>::empty(),
            r.wf(),
    {
        ChunkMap { entries: Vec::new() }
    }

    pub fn len(&self) -> (r: usize)
        ensures
            r == self.entries@.len(),
    {
        self.entries.len()
    }

    pub fn contains(&self, hash: &String) -> (r: bool)
        ensures
            r == self.spec_contains(hash@),
    {
        let mut i: usize = 0;
        while i < self.entries.len()
            invariant
                i <= self.entries@.len(),
                forall|j: int| 0 <= j < i ==> (#[trigger] self.entries@[j]).hash@ != hash@,
            decreases self.entries@.len() - i,
        {
            if self.entries[i].hash == *hash {
                proof {
                    lemma_find_at_index(self.entries@, chunk_key(), i as int);
                }
                return true;
            }
            i += 1;
        }
        proof {
            lemma_find_none(self.entries@, chunk_key(), hash@);
        }
        false
    }

    pub fn get(&self, hash: &String) -> (r: Option<&Chunk>)
        ensures
            match r {
                Some(c) => self.spec_get(hash@) == Some(*c),
                None => self.spec_get(hash@) is None,
            },
    {
        let mut i: usize = 0;
        while i < self.entries.len()
            invariant
                i <= self.entries@.len(),
                forall|j: int| 0 <= j < i ==> (#[trigger] self.entries@[j]).hash@ != hash@,
            decreases self.entries@.len() - i,
        {
            if self.entries[i].hash == *hash {
                proof {
                    lemma_find_at_index(self.entries@, chunk_key(), i as int);
                }
                return Some(&self.entries[i]);
            }
            i += 1;
        }
        proof {
            lemma_find_none(self.entries@, chunk_key(), hash@);
        }
        None
    }

    /// Puts a chunk record under its digest, replacing an existing record of
    /// the same digest.
    pub fn insert(&mut self, chunk: Chunk)
        ensures
            final(self).entries@ == spec_insert(old(self).entries@, chunk_key(), chunk),
            old(self).wf() && chunk.wf() ==> final(self).wf(),
    {
        proof {
            if old(self).wf() && chunk.wf() {
                lemma_insert_distinct(old(self).entries@, chunk_key(), chunk);
            }
        }
        let ghost s = self.entries@;
        let mut i: usize = 0;
        while i < self.entries.len()
            invariant
                s == self.entries@,
                s == old(self).entries@,
                i <= s.len(),
                forall|j: int| 0 <= j < i ==> (#[trigger] s[j]).hash@ != chunk.hash@,
            decreases s.len() - i,
        {
            if self.entries[i].hash == chunk.hash {
                proof {
                    lemma_insert_at_index(s, chunk_key(), chunk, i as int);
                }
                self.entries.set(i, chunk);
                proof {
                    assert(spec_insert(s, chunk_key(), chunk) =~= s.update(i as int, chunk));
                    if old(self).wf() && chunk.wf() {
                        assert forall|q: int| 0 <= q < self.entries@.len() implies (
                        #[trigger] self.entries@[q]).wf() by {
                            if q != i as int {
                                assert(self.entries@[q] == s[q]);
                            }
                        }
                    }
                }
                return ;
            }
            i += 1;
        }
        proof {
            lemma_insert_fresh(s, chunk_key(), chunk);
        }
        self.entries.push(chunk);
        proof {
            if old(self).wf() && chunk.wf() {
                assert forall|q: int| 0 <= q < self.entries@.len() implies (
                #[trigger] self.entries@[q]).wf() by {
                    if q < s.len() {
                        assert(self.entries@[q] == s[q]);
                    }
                }
            }
        }
    }

    /// Decides whether this index is well formed: every entry carries a
    /// real digest and a positive length, and no digest repeats.
    pub fn check_wf(&self) -> (r: bool)
        ensures
            r == self.wf(),
    {
        let n = self.entries.len();
        let mut i: usize = 0;
        while i < n
            invariant
                n == self.entries@.len(),
                i <= n,
                forall|a: int| 0 <= a < i ==> (#[trigger] self.entries@[a]).wf(),
                forall|a: int, b: int|
                    0 <= a < b < i ==> (#[trigger] self.entries@[a]).hash@ != (
                    #[trigger] self.entries@[b]).hash@,
            decreases n - i,
        {
            if !crate::digest::check_digest(&self.entries[i].hash) || self.entries[i].length == 0 {
                proof {
                    assert(!self.entries@[i as int].wf());
                }
                return false;
            }
            let mut j: usize = 0;
            while j < i
                invariant
                    n == self.entries@.len(),
                    j <= i < n,
                    forall|a: int|
                        0 <= a < j ==> (#[trigger] self.entries@[a]).hash@ != self.entries@[i as int].hash@,
                decreases i - j,
            {
                if self.entries[j].hash == self.entries[i].hash {
                    return false;
                }
                j += 1;
            }
            i += 1;
        }
        true
    }

    /// A copy of the whole index.
    pub fn duplicate(&self) -> (r: ChunkMap)
        ensures
            r.entries@ == self.entries@,
    {
        let mut entries: Vec<Chunk> = Vec::new();
        let mut i: usize = 0;
        while i < self.entries.len()
            invariant
                i <= self.entries@.len(),
                entries@ =~= self.entries@.take(i as int),
            decreases self.entries@.len() - i,
        {
            entries.push(self.entries[i].clone());
            i += 1;
        }
        proof {
            assert(entries@ =~= self.entries@);
        }
        ChunkMap { entries }
    }
}

/// The aggregate that carries the chunk index inside a manifest.
#[derive(Debug, PartialEq, Eq)]
pub struct ChunkTable {
    pub chunk_map: ChunkMap,
}

impl ChunkTable {
    pub fn new() -> (r: ChunkTable)
        ensures
            r.chunk_map.entries@ == Seq::<Chunk>::empty(),
    {
        ChunkTable { chunk_map: ChunkMap::new() }
    }
}

} // verus!
