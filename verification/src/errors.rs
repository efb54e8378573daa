//! Error taxonomy for stack operations.

use vstd::prelude::*;

verus! {

/// Failures surfaced by stack discovery, navigation and tracking mutations.
///
/// `RestackState` conflicts are deliberately not represented here: a conflicted
/// restack is a suspended, resumable state, not a terminal error.
#[derive(Debug, Clone, PartialEq, Eq)]
pub enum StError {
    /// The discovered stack holds only the trunk branch, so the requested
    /// operation has no branch to act on.
    NoStackFound,
    /// The named branch is not present in the branch-link store and is not
    /// the trunk branch.
    BranchNotTracked(String),
    /// The named branch does not exist in the repository at all.
    UnknownBranch(String),
    /// Assigning the requested parent would make the parent chain circular.
    CycleDetected,
    /// The requested parent branch is neither trunk nor itself tracked, so
    /// nothing may be stacked on top of it.
    ParentNotTracked(String),
    /// A failure reported by the underlying version-control layer, surfaced
    /// verbatim.
    VcsError(String),
}

/// Result alias used by every fallible stack operation.
pub type StResult<T> = Result<T, StError>;

} // verus!
