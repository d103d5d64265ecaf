//! Data describing linked worktree sets across the workspace's
//! repositories. Creating, listing and removing the worktrees themselves is
//! git and filesystem work that lives outside this library.
use vstd::prelude::*;

verus! {

/// A named set of linked worktrees, one per repository.
pub struct WorktreeSet {
    pub name: String,
    pub worktrees: Vec<WorktreeInfo>,
}

/// One repository's worktree within a set: where it lies, which branch it
/// is on, and whether it is present on disk.
pub struct WorktreeInfo {
    pub repo_name: String,
    pub branch: String,
    pub path: String,
    pub present: bool,
}

} // verus!
