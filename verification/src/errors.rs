use vstd::prelude::*;

verus! {

/// The error kinds that the engine surfaces.  There is no local recovery:
/// every failure aborts the pass that met it.
#[derive(Clone, Copy, Debug, PartialEq, Eq, Structural)]
pub enum BackupError {
    /// A blob or manifest could not be moved to or from its store.
    IoError,
    /// A chunk that the manifest references is absent from the store.
    NotFound,
    /// Neither manifest decoder accepted the bytes.
    ManifestCorrupt,
    /// The chunk producer surfaced an error: the failure class of a
    /// streaming producer, which the in-memory chunker never raises.
    ChunkerError,
}

impl BackupError {
    /// A short human-readable description of the error kind.
    pub fn message(&self) -> (r: &'static str)
        ensures
            r@ == self.spec_message(),
    {
        match self {
            BackupError::IoError => "i/o error",
            BackupError::NotFound => "chunk not found",
            BackupError::ManifestCorrupt => "could not deserialize backup metadata",
            BackupError::ChunkerError => "chunker error",
        }
    }

    pub open spec fn spec_message(self) -> Seq<char> {
        match self {
            BackupError::IoError => "i/o error"@,
            BackupError::NotFound => "chunk not found"@,
            BackupError::ManifestCorrupt => "could not deserialize backup metadata"@,
            BackupError::ChunkerError => "chunker error"@,
        }
    }
}

} // verus!
