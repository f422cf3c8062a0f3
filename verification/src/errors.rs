//! Failure taxonomy of the import engine.

use vstd::prelude::*;

verus! {

/// Why converting an archive or recording a version failed.
#[derive(Clone, Copy, Debug, PartialEq, Eq, Structural)]
pub enum ImportError {
    /// A tar entry's permission bits fit no supported file mode.
    InvalidArchiveMode,
    /// The archive bytes could not be decompressed or read as tar entries.
    MalformedArchive,
    /// The repository store failed to write an object or move a reference.
    RepositoryWrite,
}

impl ImportError {
    /// A short description of the failure.
    pub fn describe(&self) -> (r: &'static str)
        ensures
            r@ == match *self {
                ImportError::InvalidArchiveMode => "invalid tar archive mode"@,
                ImportError::MalformedArchive => "malformed archive"@,
                ImportError::RepositoryWrite => "repository write failed"@,
            },
    {
        match self {
            ImportError::InvalidArchiveMode => "invalid tar archive mode",
            ImportError::MalformedArchive => "malformed archive",
            ImportError::RepositoryWrite => "repository write failed",
        }
    }
}

} // verus!
