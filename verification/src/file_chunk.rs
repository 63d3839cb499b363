use vstd::prelude::*;
use crate::digest::is_digest;

verus! {

/// One occurrence of a chunk inside a particular file: the chunk's digest,
/// the byte offset at which it begins, and its length.
#[derive(Debug, PartialEq, Eq)]
pub struct FileChunk {
    pub hash: String,
    pub offset: u64,
    pub length: usize,
}

/// The mathematical value of a file chunk.
#[verifier::ext_equal]
pub ghost struct FileChunkView {
    pub hash: Seq<char>,
    pub offset: u64,
    pub length: usize,
}

impl View for FileChunk {
    type V = FileChunkView;

    open spec fn view(&self) -> FileChunkView {
        FileChunkView { hash: self.hash@, offset: self.offset, length: self.length }
    }
}

impl FileChunk {
    /// A file chunk carries a real digest and a positive length.
    pub open spec fn wf(self) -> bool {
        is_digest(self.hash@) && self.length > 0
    }
}

impl Clone for FileChunk {
    fn clone(&self) -> (r: Self)
        ensures
            r == *self,
    {
        FileChunk { hash: self.hash.clone(), offset: self.offset, length: self.length }
    }
}

} // verus!
