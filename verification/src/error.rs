//! The error type of the worktree manager.

use vstd::prelude::*;

verus! {

/// `std::io::Error`, carried through unchanged.
#[verifier::external_type_specification]
#[verifier::external_body]
pub struct ExIoError(std::io::Error);

/// What can go wrong while managing worktrees.
#[derive(Debug)]
pub enum WtError {
    /// The current directory is not inside a git repository.
    NotAGitRepo,
    /// The `fzf` program is not installed.
    FzfNotFound,
    /// A git command failed, or an operation was refused; holds the message.
    GitCommand(String),
    /// No worktree matches the given name.
    WorktreeNotFound(String),
    /// A directory that is not a worktree already exists at the given path.
    WorktreeExists(String),
    /// An I/O error.
    Io(std::io::Error),
}

} // verus!
