//! Worktree bookkeeping for a git worktree manager: the parsing, naming and
//! decision logic, verified with Verus.

pub mod text;
pub mod path;
pub mod error;
pub mod git;
pub mod codex;
pub mod fzf;
pub mod shell;
pub mod commands;
pub mod laws;
