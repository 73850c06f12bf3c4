//! The decisions that the commands make between their git calls and file reads.

use vstd::prelude::*;
use crate::error::WtError;
use crate::git::{opt_worktree, Worktree, WorktreeView};
use crate::text::{push_text, same_text, trim, trim_of, views};

verus! {

/// The text of a command's output or a file, trimmed, when anything is left
/// (how a configured prefix and the remembered last worktree are read).
pub open spec fn nonempty_trimmed_spec(s: Seq<char>) -> Option<Seq<char>> {
    if trim(s).len() == 0 {
        None
    } else {
        Some(trim(s))
    }
}

/// The text, trimmed, when anything is left.
pub fn nonempty_trimmed(s: &str) -> (r: Option<String>)
    ensures
        match r {
            Some(x) => nonempty_trimmed_spec(s@) == Some(x@),
            None => nonempty_trimmed_spec(s@) is None,
        },
{
    let t = trim_of(s);
    if t.as_str().is_empty() {
        None
    } else {
        Some(t)
    }
}

/// The branch to remember as the last worktree before switching away from
/// `current`: its branch, unless it is the main worktree.
pub open spec fn to_remember_spec(current: Option<WorktreeView>) -> Option<Seq<char>> {
    match current {
        Some(w) => if w.is_main {
            None
        } else {
            Some(w.branch)
        },
        None => None,
    }
}

/// The branch to remember before switching away from the current worktree.
pub fn worktree_to_remember(current: &Option<Worktree>) -> (r: Option<String>)
    ensures
        match r {
            Some(b) => to_remember_spec(opt_worktree(*current)) == Some(b@),
            None => to_remember_spec(opt_worktree(*current)) is None,
        },
{
    match current {
        Some(w) => if w.is_main {
            None
        } else {
            Some(w.branch.clone())
        },
        None => None,
    }
}

/// The worktree a removal is about: the name given, or else the remembered
/// last worktree; an error when there is neither.
pub fn removal_target(name: Option<String>, last: Option<String>) -> (r: Result<String, WtError>)
    ensures
        name matches Some(n) ==> (r matches Ok(t) && t@ == n@),
        name is None ==> (last matches Some(l) ==> (r matches Ok(t) && t@ == l@)),
        name is None && last is None ==> (r matches Err(WtError::GitCommand(m))
            && m@ == "no previous worktree to remove"@),
{
    match name {
        Some(n) => Ok(n),
        None => match last {
            Some(l) => Ok(l),
            None => Err(WtError::GitCommand("no previous worktree to remove".to_string())),
        },
    }
}

/// True when removing `target` is refused because it is the worktree the
/// user is in (and not the main one).
pub open spec fn is_current_spec(current: Option<WorktreeView>, target: Seq<char>) -> bool {
    match current {
        Some(w) => !w.is_main && w.branch == target,
        None => false,
    }
}

/// Refuses to remove the worktree the user is in.
pub fn check_removable(current: &Option<Worktree>, target: &str) -> (r: Result<(), WtError>)
    ensures
        r is Ok <==> !is_current_spec(opt_worktree(*current), target@),
        r matches Err(e) ==> (e matches WtError::GitCommand(m)
            && m@ == "cannot remove the current worktree, run `wt exit` first"@),
{
    match current {
        Some(w) => {
            if !w.is_main && same_text(w.branch.as_str(), target) {
                return Err(
                    WtError::GitCommand(
                        "cannot remove the current worktree, run `wt exit` first".to_string(),
                    ),
                );
            }
            Ok(())
        },
        None => Ok(()),
    }
}

/// The reference of a local branch: `refs/heads/<branch>`.
pub fn branch_ref(branch: &str) -> (r: String)
    ensures
        r@ == "refs/heads/"@ + branch@,
{
    let mut r = "refs/heads/".to_string();
    push_text(&mut r, branch);
    r
}

/// The arguments of the `git` call that adds a worktree at `path`: on the
/// existing branch, or on a new branch created there.
pub open spec fn add_args_spec(path: Seq<char>, branch: Seq<char>, exists: bool) -> Seq<Seq<char>> {
    if exists {
        seq!["worktree"@, "add"@, path, branch]
    } else {
        seq!["worktree"@, "add"@, "-b"@, branch, path]
    }
}

/// The arguments of the `git` call that adds a worktree.
pub fn worktree_add_args(path: &str, branch: &str, exists: bool) -> (r: Vec<String>)
    ensures
        views(r@) == add_args_spec(path@, branch@, exists),
{
    let mut r: Vec<String> = Vec::new();
    r.push("worktree".to_string());
    r.push("add".to_string());
    if exists {
        r.push(path.to_string());
        r.push(branch.to_string());
    } else {
        r.push("-b".to_string());
        r.push(branch.to_string());
        r.push(path.to_string());
    }
    assert(views(r@) =~= add_args_spec(path@, branch@, exists));
    r
}

} // verus!
