use vstd::prelude::*;

verus! {

/// The failure kinds of the repository engine.
///
/// Every fallible operation of this crate reports one of these; no verified
/// function panics.
#[derive(Clone, Copy, Debug, PartialEq, Eq, Structural)]
pub enum RepoError {
    /// No repository metadata directory was found in any ancestor.
    NotARepository,
    /// A hex hash string had the wrong length or a non-hex byte.
    InvalidHash,
    /// A stored object's header or body failed to parse.
    InvalidObjectFormat,
    /// A line of the staging index file failed to parse, or the entries
    /// were not a sorted, conflict-free set of paths.
    InvalidIndexFormat,
    /// HEAD or a branch ref file was missing or held no valid content.
    MissingOrInvalidRef,
    /// A branch of the requested name does not exist.
    BranchNotFound,
    /// The path handed to an operation lies outside the repository root.
    PathOutsideRepository,
    /// An `add` of a path that neither exists in the working tree nor was
    /// ever indexed.
    NoSuchFile,
    /// An underlying byte-level operation failed.
    IOFailure,
    /// `init` on a directory that already holds repository metadata.
    AlreadyInitialized,
}

} // verus!
