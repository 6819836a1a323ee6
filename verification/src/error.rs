//! The ways in which an operation on a repository can fail.

use vstd::prelude::*;

verus! {

/// The cause of a failure.
#[derive(Clone, Copy, Debug, PartialEq, Eq, Structural)]
pub enum FitError {
    /// An object, a branch, a commit, `HEAD`, the index or a stash entry is
    /// missing.
    NotFound,
    /// The repository or the branch to create is already there.
    AlreadyExists,
    /// The operation would create or delete `master`, delete the branch in
    /// use, or merge against the merge policy.
    PermissionDenied,
    /// A stored text is not in the form that its reader expects.
    InvalidData,
    /// A branch is to be merged into itself.
    InvalidInput,
    /// The compression or the decompression of an object failed.
    Io,
}

} // verus!
