//! The picker's side of the worktree manager: what is fed to `fzf`, and what
//! its answer means.

use vstd::prelude::*;
use crate::git::{Worktree, WorktreeView};
use crate::text::{before_first, before_first_of, lines, push_char, push_text, split_lines, trim, trim_of, views};

verus! {

/// What the user did in the picker.
pub enum FzfResult {
    /// Picked the worktree with this name.
    Selected(String),
    /// Typed this name, which matches no worktree.
    New(String),
    /// Left the picker without a choice.
    Cancelled,
}

/// The meaning of a picker answer, with the names as text.
pub enum PickSpec {
    Selected(Seq<char>),
    New(Seq<char>),
    Cancelled,
}

/// The meaning of an `FzfResult`.
pub open spec fn pick_view(r: FzfResult) -> PickSpec {
    match r {
        FzfResult::Selected(s) => PickSpec::Selected(s@),
        FzfResult::New(s) => PickSpec::New(s@),
        FzfResult::Cancelled => PickSpec::Cancelled,
    }
}

/// The line that presents a worktree to the picker: its branch, a tab, its path.
pub open spec fn picker_line_spec(w: WorktreeView) -> Seq<char> {
    w.branch + seq!['\t'] + w.path + seq!['\n']
}

/// The line that presents a worktree to the picker.
pub fn picker_line(wt: &Worktree) -> (r: String)
    ensures
        r@ == picker_line_spec(wt@),
{
    let mut r = wt.branch.clone();
    push_char(&mut r, '\t');
    push_text(&mut r, wt.path.as_str());
    push_char(&mut r, '\n');
    r
}

/// A typed query as a new name: trimmed, and no choice when that is empty.
pub open spec fn query_pick(ls: Seq<Seq<char>>) -> PickSpec {
    if ls.len() > 0 && trim(ls[0]).len() > 0 {
        PickSpec::New(trim(ls[0]))
    } else {
        PickSpec::Cancelled
    }
}

/// The meaning of the picker's exit status and output (run with
/// `--print-query`, so the first line is the query and the second, if any,
/// the chosen line): status 0 with a chosen line selects the name before its
/// first tab; status 0 or 1 with only a query asks for a new worktree of
/// that name; anything else is a cancel.
pub open spec fn interpret_spec(code: Option<i32>, out: Seq<char>) -> PickSpec {
    let ls = lines(out);
    match code {
        Some(0) => if ls.len() >= 2 {
            PickSpec::Selected(before_first(ls[1], '\t'))
        } else {
            query_pick(ls)
        },
        Some(1) => query_pick(ls),
        _ => PickSpec::Cancelled,
    }
}

fn query_result(ls: &Vec<String>) -> (r: FzfResult)
    ensures
        pick_view(r) == query_pick(views(ls@)),
{
    if ls.len() > 0 {
        let q = trim_of(ls[0].as_str());
        assert(views(ls@)[0] == ls@[0]@);
        if q.as_str().is_empty() {
            FzfResult::Cancelled
        } else {
            FzfResult::New(q)
        }
    } else {
        FzfResult::Cancelled
    }
}

/// Interprets the picker's exit status and output.
pub fn interpret_fzf_output(code: Option<i32>, stdout: &str) -> (r: FzfResult)
    ensures
        pick_view(r) == interpret_spec(code, stdout@),
{
    let ls = split_lines(stdout);
    match code {
        Some(0) => {
            if ls.len() >= 2 {
                assert(views(ls@)[1] == ls@[1]@);
                FzfResult::Selected(before_first_of(ls[1].as_str(), '\t'))
            } else {
                query_result(&ls)
            }
        },
        Some(1) => query_result(&ls),
        _ => FzfResult::Cancelled,
    }
}

} // verus!
