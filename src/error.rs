use vstd::prelude::*;

verus! {

/// The ways an operation on the file store can fail.
#[derive(Debug, Clone, Copy, PartialEq, Eq, Structural)]
pub enum FsError {
    /// The path does not start with `/`.
    InvalidPath,
    /// The root has no parent directory and no name.
    RootHasNoParent,
    NotFound,
    ParentMissing,
    DestinationExists,
    IsADirectory,
    NotADirectory,
    NotEmpty,
    RootUndeletable,
    Unsupported,
    CorruptState,
}

} // verus!
