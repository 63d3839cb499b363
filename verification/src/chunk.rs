use vstd::prelude::*;
use vstd::string::StrSliceExecFns;
use crate::chunk_path::spec_fanout;
use crate::digest::is_digest;

verus! {

/// One unique chunk of content: its digest and its byte length.  The digest
/// is the chunk's identity; the bytes themselves live in the blob store.
#[derive(Debug, PartialEq, Eq)]
pub struct Chunk {
    pub hash: String,
    pub length: usize,
}

/// The mathematical value of a chunk record.
#[verifier::ext_equal]
pub ghost struct ChunkView {
    pub hash: Seq<char>,
    pub length: usize,
}

impl View for Chunk {
    type V = ChunkView;

    open spec fn view(&self) -> ChunkView {
        ChunkView { hash: self.hash@, length: self.length }
    }
}

impl Chunk {
    /// A chunk record carries a real digest and a positive length.
    pub open spec fn wf(self) -> bool {
        is_digest(self.hash@) && self.length > 0
    }

    /// The digest's store-path components: its two-character fan-out
    /// directory, then the digest itself.
    pub fn split_hash(&self) -> (r: Vec<String>)
        requires
            self.hash@.len() >= 2,
        ensures
            r.deep_view() == seq![spec_fanout(self.hash@), self.hash@],
    {
        let mut parts: Vec<String> = Vec::new();
        parts.push(self.hash.as_str().substring_char(0, 2).to_owned());
        parts.push(self.hash.clone());
        proof {
            assert(parts.deep_view() =~= seq![spec_fanout(self.hash@), self.hash@]);
        }
        parts
    }
}

impl Clone for Chunk {
    fn clone(&self) -> (r: Self)
        ensures
            r == *self,
    {
        Chunk { hash: self.hash.clone(), length: self.length }
    }
}

} // verus!
