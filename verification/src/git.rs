//! Worktrees as git lists them, and the logic that names, finds and selects them.

use vstd::prelude::*;
use crate::commands::{add_args_spec, worktree_add_args};
use crate::error::WtError;
use crate::path::{
    components, ends_with_spec, file_name, file_name_spec, join_spec, normal_components, normal_components_of,
    path_ends_with, path_eq, path_eq_spec, path_join, path_starts_with, starts_with_spec,
};
use crate::text::{
    before_first, before_first_of, chars_of, lines, push_char, push_text, same_text,
    split_lines, strip_prefix, strip_prefix_of, views,
};

verus! {

/// A worktree of the repository.
#[derive(Debug, Clone)]
pub struct Worktree {
    /// Where the worktree is checked out.
    pub path: String,
    /// Its branch (without `refs/heads/`), or `(detached)`.
    pub branch: String,
    /// True for the repository's main worktree (the first one git lists).
    pub is_main: bool,
    /// A short description shown beside the name, when one is known.
    pub hint: Option<String>,
}

/// The mathematical value of a worktree.
pub struct WorktreeView {
    pub path: Seq<char>,
    pub branch: Seq<char>,
    pub is_main: bool,
    pub hint: Option<Seq<char>>,
}

/// The view of an optional string.
pub open spec fn opt_view(o: Option<String>) -> Option<Seq<char>> {
    match o {
        Some(s) => Some(s@),
        None => None,
    }
}

impl View for Worktree {
    type V = WorktreeView;

    open spec fn view(&self) -> WorktreeView {
        WorktreeView {
            path: self.path@,
            branch: self.branch@,
            is_main: self.is_main,
            hint: opt_view(self.hint),
        }
    }
}

/// The views of a sequence of worktrees.
pub open spec fn worktree_views(v: Seq<Worktree>) -> Seq<WorktreeView> {
    v.map_values(|w: Worktree| w@)
}

/// The session id of a worktree that Codex manages: the component right
/// after the first `.codex`, `worktrees` pair of normal components.
pub open spec fn codex_window(n: Seq<Seq<char>>) -> Option<Seq<char>>
    decreases n.len(),
{
    if n.len() < 3 {
        None
    } else if n[0] == ".codex"@ && n[1] == "worktrees"@ {
        Some(n[2])
    } else {
        codex_window(n.drop_first())
    }
}

/// The name Codex's worktree at `path` is shown under: `codex/<session id>`.
pub open spec fn codex_name(path: Seq<char>) -> Option<Seq<char>> {
    match codex_window(normal_components(path)) {
        Some(id) => Some("codex/"@ + id),
        None => None,
    }
}

/// True for a detached worktree that Codex manages.
pub open spec fn codex_managed(w: WorktreeView) -> bool {
    w.branch == "(detached)"@ && codex_name(w.path) is Some
}

/// The name a worktree is shown and looked up under.
pub open spec fn display_name_spec(w: WorktreeView) -> Seq<char> {
    if codex_managed(w) {
        codex_name(w.path)->0
    } else {
        w.branch
    }
}

/// The label shown for a worktree: its name, then a tab and its hint when it has one.
pub open spec fn display_label_spec(w: WorktreeView) -> Seq<char> {
    match w.hint {
        Some(h) => display_name_spec(w) + seq!['\t'] + h,
        None => display_name_spec(w),
    }
}

/// True when `name` (up to its first tab) is the worktree's branch, its
/// display name, or whole trailing components of its path.
pub open spec fn matches_name_spec(w: WorktreeView, name: Seq<char>) -> bool {
    let n = before_first(name, '\t');
    w.branch == n || display_name_spec(w) == n || ends_with_spec(w.path, n)
}

/// The name Codex's worktree at `path` is shown under, when `path` is one.
pub fn codex_worktree_name(path: &str) -> (r: Option<String>)
    ensures
        opt_view(r) == codex_name(path@),
{
    let comps = normal_components_of(path);
    let ghost n = views(comps@);
    let len = comps.len();
    let mut i: usize = 0;
    assert(n.skip(0) =~= n);
    while len > 2 && i < len - 2
        invariant
            n == views(comps@),
            n == normal_components(path@),
            len == comps@.len(),
            i <= len,
            codex_window(n.skip(i as int)) == codex_window(n),
        decreases len - i,
    {
        let ghost t = n.skip(i as int);
        let a = same_text(comps[i].as_str(), ".codex");
        let b = same_text(comps[i + 1].as_str(), "worktrees");
        assert(t[0] == comps@[i as int]@ && t[1] == comps@[i + 1]@ && t[2] == comps@[i + 2]@);
        if a && b {
            let mut r = "codex/".to_string();
            push_text(&mut r, comps[i + 2].as_str());
            return Some(r);
        }
        assert(t.drop_first() =~= n.skip(i + 1));
        i = i + 1;
    }
    assert(n.skip(i as int).len() < 3);
    None
}

impl Worktree {
    /// A copy of this worktree.
    pub fn duplicate(&self) -> (r: Worktree)
        ensures
            r@ == self@,
    {
        Worktree {
            path: self.path.clone(),
            branch: self.branch.clone(),
            is_main: self.is_main,
            hint: match &self.hint {
                Some(h) => Some(h.clone()),
                None => None,
            },
        }
    }

    /// The name this worktree is shown and looked up under: `codex/<session id>`
    /// for a detached worktree that Codex manages, its branch otherwise.
    pub fn display_name(&self) -> (r: String)
        ensures
            r@ == display_name_spec(self@),
    {
        if same_text(self.branch.as_str(), "(detached)") {
            if let Some(name) = codex_worktree_name(self.path.as_str()) {
                return name;
            }
        }
        self.branch.clone()
    }

    /// The label shown in the picker: the display name, then a tab and the hint.
    pub fn display_label(&self) -> (r: String)
        ensures
            r@ == display_label_spec(self@),
    {
        match &self.hint {
            Some(hint) => {
                let mut r = self.display_name();
                push_char(&mut r, '\t');
                push_text(&mut r, hint.as_str());
                r
            },
            None => self.display_name(),
        }
    }

    /// True for a detached worktree that Codex manages.
    pub fn is_codex_managed(&self) -> (r: bool)
        ensures
            r == codex_managed(self@),
    {
        same_text(self.branch.as_str(), "(detached)") && codex_worktree_name(
            self.path.as_str(),
        ).is_some()
    }

    /// Sets the hint shown beside the worktree's name.
    pub fn set_hint(&mut self, hint: String)
        ensures
            final(self)@ == (WorktreeView { hint: Some(hint@), ..old(self)@ }),
    {
        self.hint = Some(hint);
    }

    /// True when `name`, up to its first tab, is this worktree's branch, its
    /// display name, or whole trailing components of its path.
    pub fn matches_name(&self, name: &str) -> (r: bool)
        ensures
            r == matches_name_spec(self@, name@),
    {
        let n = before_first_of(name, '\t');
        if same_text(self.branch.as_str(), n.as_str()) {
            return true;
        }
        let d = self.display_name();
        if same_text(d.as_str(), n.as_str()) {
            return true;
        }
        path_ends_with(self.path.as_str(), n.as_str())
    }
}

/// What has been read of `git worktree list --porcelain` output so far: the
/// complete worktrees, and the path and branch of the one being read.
pub struct ParseState {
    pub done: Seq<WorktreeView>,
    pub path: Option<Seq<char>>,
    pub branch: Option<Seq<char>>,
}

/// The worktrees read so far, with the one being read added when both its
/// path and its branch are known. The first worktree is the main one.
pub open spec fn flush(st: ParseState) -> Seq<WorktreeView> {
    match (st.path, st.branch) {
        (Some(p), Some(b)) => st.done.push(
            WorktreeView { path: p, branch: b, is_main: st.done.len() == 0, hint: None },
        ),
        _ => st.done,
    }
}

/// A branch reference without its `refs/heads/` prefix.
pub open spec fn branch_name(r: Seq<char>) -> Seq<char> {
    match strip_prefix(r, "refs/heads/"@) {
        Some(b) => b,
        None => r,
    }
}

/// The effect of one line of the porcelain listing: `worktree <path>` closes
/// the previous record and opens a new one, `branch <ref>` and `detached`
/// set the branch, and any other line changes nothing.
pub open spec fn parse_step(st: ParseState, line: Seq<char>) -> ParseState {
    match strip_prefix(line, "worktree "@) {
        Some(p) => ParseState { done: flush(st), path: Some(p), branch: None },
        None => match strip_prefix(line, "branch "@) {
            Some(r) => ParseState { branch: Some(branch_name(r)), ..st },
            None => if line == "detached"@ {
                ParseState { branch: Some("(detached)"@), ..st }
            } else {
                st
            },
        },
    }
}

/// The state after reading the given lines, from the first.
pub open spec fn parse_fold(ls: Seq<Seq<char>>) -> ParseState
    decreases ls.len(),
{
    if ls.len() == 0 {
        ParseState { done: Seq::empty(), path: None, branch: None }
    } else {
        parse_step(parse_fold(ls.drop_last()), ls.last())
    }
}

/// The worktrees listed in `git worktree list --porcelain` output.
pub open spec fn parsed_worktrees(out: Seq<char>) -> Seq<WorktreeView> {
    flush(parse_fold(lines(out)))
}

/// True when exactly the first worktree is the main one and none has a hint.
pub open spec fn main_first(ws: Seq<WorktreeView>) -> bool {
    forall|k: int| 0 <= k < ws.len() ==> (#[trigger] ws[k]).is_main == (k == 0) && ws[k].hint is None
}

/// Reading never marks any worktree but the first as the main one.
pub proof fn lemma_parse_fold_main_first(ls: Seq<Seq<char>>)
    ensures
        main_first(parse_fold(ls).done),
        main_first(flush(parse_fold(ls))),
    decreases ls.len(),
{
    if ls.len() > 0 {
        lemma_parse_fold_main_first(ls.drop_last());
    }
}

/// The path of the first `worktree <path>` line, the main worktree.
pub open spec fn first_worktree_line(ls: Seq<Seq<char>>) -> Option<Seq<char>>
    decreases ls.len(),
{
    if ls.len() == 0 {
        None
    } else {
        match strip_prefix(ls[0], "worktree "@) {
            Some(p) => Some(p),
            None => first_worktree_line(ls.drop_first()),
        }
    }
}

/// The worktrees listed in `git worktree list --porcelain` output, in order.
/// A record is kept once both its path and its branch (or `detached`) are
/// known; the first kept record is the main worktree.
pub fn parse_worktrees(stdout: &str) -> (out: Vec<Worktree>)
    ensures
        worktree_views(out@) == parsed_worktrees(stdout@),
        forall|k: int| 0 <= k < out@.len() ==> (#[trigger] out@[k]).is_main == (k == 0),
        forall|k: int| 0 <= k < out@.len() ==> (#[trigger] out@[k]).hint is None,
{
    let ls = split_lines(stdout);
    let ghost lv = views(ls@);
    let mut wts: Vec<Worktree> = Vec::new();
    let mut cur_path: Option<String> = None;
    let mut cur_branch: Option<String> = None;
    let mut i: usize = 0;
    assert(lv.take(0) =~= Seq::<Seq<char>>::empty());
    assert(worktree_views(wts@) =~= Seq::<WorktreeView>::empty());
    while i < ls.len()
        invariant
            lv == views(ls@),
            lv == lines(stdout@),
            i <= ls@.len(),
            parse_fold(lv.take(i as int)) == (ParseState {
                done: worktree_views(wts@),
                path: opt_view(cur_path),
                branch: opt_view(cur_branch),
            }),
        decreases ls@.len() - i,
    {
        let ghost st = parse_fold(lv.take(i as int));
        assert(lv.take(i + 1).drop_last() =~= lv.take(i as int));
        assert(lv.take(i + 1).last() == ls@[i as int]@);
        let line = ls[i].as_str();
        if let Some(p) = strip_prefix_of(line, "worktree ") {
            match (cur_path, cur_branch) {
                (Some(pp), Some(bb)) => {
                    let is_main = wts.len() == 0;
                    wts.push(Worktree { path: pp, branch: bb, is_main, hint: None });
                    assert(worktree_views(wts@) =~= flush(st));
                },
                _ => {
                    assert(worktree_views(wts@) =~= flush(st));
                },
            }
            cur_path = Some(p);
            cur_branch = None;
        } else if let Some(r) = strip_prefix_of(line, "branch ") {
            let b = match strip_prefix_of(r.as_str(), "refs/heads/") {
                Some(b) => b,
                None => r,
            };
            cur_branch = Some(b);
        } else if same_text(line, "detached") {
            cur_branch = Some("(detached)".to_string());
        }
        i = i + 1;
    }
    assert(lv.take(i as int) =~= lv);
    let ghost st = parse_fold(lv);
    match (cur_path, cur_branch) {
        (Some(pp), Some(bb)) => {
            let is_main = wts.len() == 0;
            wts.push(Worktree { path: pp, branch: bb, is_main, hint: None });
        },
        _ => {},
    }
    assert(worktree_views(wts@) =~= flush(st));
    proof {
        lemma_parse_fold_main_first(lv);
        assert forall|k: int| 0 <= k < wts@.len() implies (#[trigger] wts@[k]).is_main == (k == 0)
            && wts@[k].hint is None by {
            assert(worktree_views(wts@)[k] == wts@[k]@);
        }
    }
    wts
}

/// The path of the repository's main worktree: the first `worktree <path>`
/// line of `git worktree list --porcelain` output; `NotAGitRepo` when there is none.
pub fn get_main_worktree(stdout: &str) -> (r: Result<String, crate::error::WtError>)
    ensures
        r matches Ok(p) ==> first_worktree_line(lines(stdout@)) == Some(p@),
        r matches Err(e) ==> first_worktree_line(lines(stdout@)) is None
            && e is NotAGitRepo,
{
    let ls = split_lines(stdout);
    let ghost lv = views(ls@);
    let mut i: usize = 0;
    assert(lv.skip(0) =~= lv);
    while i < ls.len()
        invariant
            lv == views(ls@),
            lv == lines(stdout@),
            i <= ls@.len(),
            first_worktree_line(lv.skip(i as int)) == first_worktree_line(lv),
        decreases ls@.len() - i,
    {
        assert(lv.skip(i as int)[0] == ls@[i as int]@);
        if let Some(p) = strip_prefix_of(ls[i].as_str(), "worktree ") {
            return Ok(p);
        }
        assert(lv.skip(i as int).drop_first() =~= lv.skip(i + 1));
        i = i + 1;
    }
    Err(crate::error::WtError::NotAGitRepo)
}

/// The first worktree that `name` matches.
pub open spec fn find_by_name_spec(ws: Seq<WorktreeView>, name: Seq<char>) -> Option<WorktreeView>
    decreases ws.len(),
{
    if ws.len() == 0 {
        None
    } else if matches_name_spec(ws[0], name) {
        Some(ws[0])
    } else {
        find_by_name_spec(ws.drop_first(), name)
    }
}

/// The view of an optional worktree.
pub open spec fn opt_worktree(o: Option<Worktree>) -> Option<WorktreeView> {
    match o {
        Some(w) => Some(w@),
        None => None,
    }
}

/// The first worktree that `name` matches (see `Worktree::matches_name`).
#[verifier::loop_isolation(false)]
pub fn find_worktree_by_name(worktrees: Vec<Worktree>, name: &str) -> (r: Option<Worktree>)
    ensures
        opt_worktree(r) == find_by_name_spec(worktree_views(worktrees@), name@),
{
    let ghost wv = worktree_views(worktrees@);
    let mut worktrees = worktrees;
    let mut i: usize = 0;
    assert(wv.skip(0) =~= wv);
    while i < worktrees.len()
        invariant
            wv == worktree_views(worktrees@),
            i <= worktrees@.len(),
            find_by_name_spec(wv.skip(i as int), name@) == find_by_name_spec(wv, name@),
        decreases worktrees@.len() - i,
    {
        assert(wv.skip(i as int)[0] == worktrees@[i as int]@);
        if worktrees[i].matches_name(name) {
            let w = worktrees.remove(i);
            assert(w@ == wv[i as int]);
            assert(find_by_name_spec(wv.skip(i as int), name@) == Some(wv[i as int]));
            return Some(w);
        }
        assert(wv.skip(i as int).drop_first() =~= wv.skip(i + 1));
        i = i + 1;
    }
    None
}

/// The first worktree whose path holds `dir` (whole leading components).
pub open spec fn containing_spec(ws: Seq<WorktreeView>, dir: Seq<char>) -> Option<WorktreeView>
    decreases ws.len(),
{
    if ws.len() == 0 {
        None
    } else if starts_with_spec(dir, ws[0].path) {
        Some(ws[0])
    } else {
        containing_spec(ws.drop_first(), dir)
    }
}

/// The first worktree that holds the directory `dir` (`Path::starts_with`).
#[verifier::loop_isolation(false)]
pub fn get_current_worktree(worktrees: Vec<Worktree>, dir: &str) -> (r: Option<Worktree>)
    ensures
        opt_worktree(r) == containing_spec(worktree_views(worktrees@), dir@),
{
    let ghost wv = worktree_views(worktrees@);
    let mut worktrees = worktrees;
    let mut i: usize = 0;
    assert(wv.skip(0) =~= wv);
    while i < worktrees.len()
        invariant
            wv == worktree_views(worktrees@),
            i <= worktrees@.len(),
            containing_spec(wv.skip(i as int), dir@) == containing_spec(wv, dir@),
        decreases worktrees@.len() - i,
    {
        assert(wv.skip(i as int)[0] == worktrees@[i as int]@);
        if path_starts_with(dir, worktrees[i].path.as_str()) {
            let w = worktrees.remove(i);
            assert(w@ == wv[i as int]);
            assert(containing_spec(wv.skip(i as int), dir@) == Some(wv[i as int]));
            return Some(w);
        }
        assert(wv.skip(i as int).drop_first() =~= wv.skip(i + 1));
        i = i + 1;
    }
    None
}

/// True when some worktree's path equals `path`, component by component.
pub open spec fn has_worktree_at(ws: Seq<WorktreeView>, path: Seq<char>) -> bool {
    exists|k: int| 0 <= k < ws.len() && path_eq_spec(#[trigger] ws[k].path, path)
}

/// What creating a worktree at `path` comes to when a directory is already
/// there: the path itself when it is one of the worktrees, `WorktreeExists`
/// otherwise.
pub fn existing_worktree(worktrees: &Vec<Worktree>, path: &str) -> (r: Result<String, WtError>)
    ensures
        r matches Ok(p) ==> p@ == path@ && has_worktree_at(worktree_views(worktrees@), path@),
        r matches Err(e) ==> !has_worktree_at(worktree_views(worktrees@), path@)
            && (e matches WtError::WorktreeExists(p) && p@ == path@),
        r is Ok <==> exists|k: int|
            0 <= k < worktrees@.len() && components(#[trigger] worktrees@[k].path@) == components(path@),
{
    let ghost wv = worktree_views(worktrees@);
    let mut i: usize = 0;
    while i < worktrees.len()
        invariant
            wv == worktree_views(worktrees@),
            i <= worktrees@.len(),
            forall|k: int| 0 <= k < i ==> !path_eq_spec(wv[k].path, path@),
        decreases worktrees@.len() - i,
    {
        assert(wv[i as int] == worktrees@[i as int]@);
        if path_eq(worktrees[i].path.as_str(), path) {
            assert(path_eq_spec(wv[i as int].path, path@));
            assert(components(worktrees@[i as int].path@) == components(path@));
            return Ok(path.to_string());
        }
        i = i + 1;
    }
    assert forall|k: int| 0 <= k < worktrees@.len() implies components(
        #[trigger] worktrees@[k].path@,
    ) != components(path@) by {
        assert(wv[k] == worktrees@[k]@);
    }
    Err(WtError::WorktreeExists(path.to_string()))
}

/// The repository's name: the last component of its main worktree's path, or
/// `repo` when that is not a normal component.
pub open spec fn repo_name_spec(main_worktree: Seq<char>) -> Seq<char> {
    match file_name_spec(main_worktree) {
        Some(n) => n,
        None => "repo"@,
    }
}

/// The repository's name, from the path of its main worktree.
pub fn get_repo_name(main_worktree: &str) -> (r: String)
    ensures
        r@ == repo_name_spec(main_worktree@),
{
    match file_name(main_worktree) {
        Some(n) => n,
        None => "repo".to_string(),
    }
}

/// A branch name as a directory name: each `/` replaced by `-`.
pub open spec fn dir_name_spec(branch: Seq<char>) -> Seq<char> {
    branch.map_values(|c: char| if c == '/' { '-' } else { c })
}

/// The directory name for a branch (`branch.replace('/', "-")`).
pub fn worktree_dir_name(branch: &str) -> (r: String)
    ensures
        r@ == dir_name_spec(branch@),
        forall|k: int| 0 <= k < r@.len() ==> r@[k] != '/',
{
    let v = chars_of(branch);
    let mut r = String::new();
    let mut i: usize = 0;
    while i < v.len()
        invariant
            v@ == branch@,
            i <= v@.len(),
            r@ == dir_name_spec(v@.take(i as int)),
        decreases v@.len() - i,
    {
        if v[i] == '/' {
            push_char(&mut r, '-');
        } else {
            push_char(&mut r, v[i]);
        }
        assert(dir_name_spec(v@.take(i + 1)) =~= dir_name_spec(v@.take(i as int)).push(
            if v@[i as int] == '/' { '-' } else { v@[i as int] },
        ));
        i = i + 1;
    }
    assert(v@.take(i as int) =~= v@);
    r
}

/// The branch a new worktree gets: the name as given when that branch
/// exists, otherwise the name behind the configured prefix, if any.
pub open spec fn final_branch_spec(name: Seq<char>, exists: bool, prefix: Option<Seq<char>>) -> Seq<char> {
    if exists {
        name
    } else {
        match prefix {
            Some(p) => p + name,
            None => name,
        }
    }
}

/// The branch a new worktree gets.
pub fn final_branch_name(name: &str, exists: bool, prefix: Option<&str>) -> (r: String)
    ensures
        r@ == final_branch_spec(name@, exists, match prefix {
            Some(p) => Some(p@),
            None => None,
        }),
{
    if exists {
        return name.to_string();
    }
    match prefix {
        Some(p) => {
            let mut r = p.to_string();
            push_text(&mut r, name);
            r
        },
        None => name.to_string(),
    }
}

/// Where worktrees of a repository live: `<home>/.wt/<repo>`.
pub open spec fn base_path_spec(home: Seq<char>, repo: Seq<char>) -> Seq<char> {
    join_spec(join_spec(home, ".wt"@), repo)
}

/// Where worktrees of a repository live: `<home>/.wt/<repo>`.
pub fn worktree_base_path(home: &str, repo_name: &str) -> (r: String)
    ensures
        r@ == base_path_spec(home@, repo_name@),
{
    let wt_dir = path_join(home, ".wt");
    path_join(wt_dir.as_str(), repo_name)
}

/// The file that remembers the last worktree left: `<home>/.wt/<repo>/.last`.
pub fn last_worktree_file(home: &str, repo_name: &str) -> (r: String)
    ensures
        r@ == join_spec(base_path_spec(home@, repo_name@), ".last"@),
{
    let base = worktree_base_path(home, repo_name);
    path_join(base.as_str(), ".last")
}

/// Where the worktree of a branch goes: its directory name under the base path.
pub fn worktree_path(base: &str, branch: &str) -> (r: String)
    ensures
        r@ == join_spec(base@, dir_name_spec(branch@)),
{
    let d = worktree_dir_name(branch);
    path_join(base, d.as_str())
}

/// The current user's home directory, as text (wraps `dirs::home_dir`).
/// What it returns depends on the environment, so nothing is promised of it.
#[verifier::external_body]
pub(crate) fn home_dir() -> Option<String> {
    match dirs::home_dir() {
        Some(p) => Some(p.to_string_lossy().into_owned()),
        None => None,
    }
}

/// The error for a missing home directory: an `std::io::Error` of kind
/// `NotFound` (wraps `std::io::Error::new`).
#[verifier::external_body]
fn home_not_found() -> std::io::Error {
    std::io::Error::new(std::io::ErrorKind::NotFound, "home directory not found")
}

/// Where worktrees of the repository live: `<home>/.wt/<repo>`, or an I/O
/// error when the home directory is unknown.
pub fn get_worktree_base_path(repo_name: &str) -> (r: Result<String, WtError>)
    ensures
        r matches Ok(p) ==> exists|h: Seq<char>| p@ == base_path_spec(h, repo_name@),
        r matches Err(e) ==> e is Io,
{
    match home_dir() {
        Some(h) => Ok(worktree_base_path(h.as_str(), repo_name)),
        None => Err(WtError::Io(home_not_found())),
    }
}

/// The file that remembers the last worktree left, or an I/O error when the
/// home directory is unknown.
pub fn get_last_worktree_file(repo_name: &str) -> (r: Result<String, WtError>)
    ensures
        r matches Ok(p) ==> exists|h: Seq<char>| p@ == join_spec(base_path_spec(h, repo_name@), ".last"@),
        r matches Err(e) ==> e is Io,
{
    match home_dir() {
        Some(h) => Ok(last_worktree_file(h.as_str(), repo_name)),
        None => Err(WtError::Io(home_not_found())),
    }
}

/// The names a removal request stands for: the name as given, and the name
/// behind the configured prefix when that differs from it.
pub open spec fn removal_names_spec(name: Seq<char>, prefix: Option<Seq<char>>) -> Seq<Seq<char>> {
    match prefix {
        Some(p) => if p + name != name {
            seq![name, p + name]
        } else {
            seq![name]
        },
        None => seq![name],
    }
}

/// True when one of `names` matches the worktree.
pub open spec fn matches_any(w: WorktreeView, names: Seq<Seq<char>>) -> bool {
    exists|k: int| 0 <= k < names.len() && matches_name_spec(w, #[trigger] names[k])
}

/// The worktrees that one of `names` matches, in order.
pub open spec fn matching_spec(ws: Seq<WorktreeView>, names: Seq<Seq<char>>) -> Seq<WorktreeView>
    decreases ws.len(),
{
    if ws.len() == 0 {
        Seq::empty()
    } else {
        let rest = matching_spec(ws.drop_last(), names);
        if matches_any(ws.last(), names) {
            rest.push(ws.last())
        } else {
            rest
        }
    }
}

/// Which matching worktrees are removed, in order, and whether the removal
/// then stops at the main worktree: worktrees are removed one after the other
/// until the main one comes up, which is refused.
pub open spec fn removal_plan_spec(m: Seq<WorktreeView>) -> (Seq<WorktreeView>, bool)
    decreases m.len(),
{
    if m.len() == 0 {
        (Seq::empty(), false)
    } else if m[0].is_main {
        (Seq::empty(), true)
    } else {
        let r = removal_plan_spec(m.drop_first());
        (seq![m[0]] + r.0, r.1)
    }
}

/// A planned removal: the worktrees to remove, in order, and whether the
/// request then fails on the main worktree.
pub struct RemovalPlan {
    pub remove: Vec<Worktree>,
    pub refuse_main: bool,
}

/// The names a removal request stands for.
pub fn removal_names(name: &str, prefix: Option<&str>) -> (r: Vec<String>)
    ensures
        views(r@) == removal_names_spec(name@, match prefix {
            Some(p) => Some(p@),
            None => None,
        }),
{
    let mut r: Vec<String> = Vec::new();
    r.push(name.to_string());
    match prefix {
        Some(p) => {
            let mut prefixed = p.to_string();
            push_text(&mut prefixed, name);
            if !same_text(prefixed.as_str(), name) {
                r.push(prefixed);
                assert(views(r@) =~= seq![name@, p@ + name@]);
            } else {
                assert(views(r@) =~= seq![name@]);
            }
        },
        None => {
            assert(views(r@) =~= seq![name@]);
        },
    }
    r
}

fn matches_any_of(w: &Worktree, names: &Vec<String>) -> (r: bool)
    ensures
        r == matches_any(w@, views(names@)),
{
    let mut i: usize = 0;
    while i < names.len()
        invariant
            i <= names@.len(),
            forall|k: int| 0 <= k < i ==> !matches_name_spec(w@, #[trigger] views(names@)[k]),
        decreases names@.len() - i,
    {
        assert(views(names@)[i as int] == names@[i as int]@);
        if w.matches_name(names[i].as_str()) {
            return true;
        }
        i = i + 1;
    }
    false
}

/// The error for a request to remove the main worktree.
pub fn main_worktree_refusal() -> (e: WtError)
    ensures
        e matches WtError::GitCommand(m) && m@ == "cannot remove main worktree"@,
{
    WtError::GitCommand("cannot remove main worktree".to_string())
}

/// Plans the removal of the worktrees that `name` (or the prefixed name)
/// matches: `WorktreeNotFound` when none does; otherwise the matching
/// worktrees up to the first main one, and whether a main one was reached.
/// The main worktree is never among those removed.
pub fn plan_removal(worktrees: &Vec<Worktree>, name: &str, prefix: Option<&str>) -> (r: Result<
    RemovalPlan,
    WtError,
>)
    ensures
        ({
            let m = matching_spec(
                worktree_views(worktrees@),
                removal_names_spec(name@, match prefix {
                    Some(p) => Some(p@),
                    None => None,
                }),
            );
            &&& r is Err <==> m.len() == 0
            &&& r matches Err(e) ==> (e matches WtError::WorktreeNotFound(n) && n@ == name@)
            &&& r matches Ok(plan) ==> worktree_views(plan.remove@) == removal_plan_spec(m).0
                && plan.refuse_main == removal_plan_spec(m).1
        }),
        r matches Ok(plan) ==> forall|k: int|
            0 <= k < plan.remove@.len() ==> !(#[trigger] plan.remove@[k]).is_main,
{
    let names = removal_names(name, prefix);
    let ghost nv = views(names@);
    let ghost wv = worktree_views(worktrees@);
    let mut matching: Vec<Worktree> = Vec::new();
    let mut i: usize = 0;
    assert(wv.take(0) =~= Seq::<WorktreeView>::empty());
    assert(worktree_views(matching@) =~= Seq::<WorktreeView>::empty());
    while i < worktrees.len()
        invariant
            wv == worktree_views(worktrees@),
            nv == views(names@),
            i <= worktrees@.len(),
            worktree_views(matching@) == matching_spec(wv.take(i as int), nv),
        decreases worktrees@.len() - i,
    {
        assert(wv.take(i + 1).drop_last() =~= wv.take(i as int));
        assert(wv.take(i + 1).last() == worktrees@[i as int]@);
        if matches_any_of(&worktrees[i], &names) {
            let ghost before = worktree_views(matching@);
            matching.push(worktrees[i].duplicate());
            assert(worktree_views(matching@) =~= before.push(worktrees@[i as int]@));
        }
        i = i + 1;
    }
    assert(wv.take(i as int) =~= wv);
    let ghost m = worktree_views(matching@);
    if matching.len() == 0 {
        return Err(WtError::WorktreeNotFound(name.to_string()));
    }
    let mut remove: Vec<Worktree> = Vec::new();
    let mut refuse_main = false;
    let mut j: usize = 0;
    let mut stop = false;
    assert(m.skip(0) =~= m);
    assert(worktree_views(remove@) + removal_plan_spec(m).0 =~= removal_plan_spec(m).0);
    while j < matching.len() && !stop
        invariant
            m == worktree_views(matching@),
            j <= matching@.len(),
            !stop ==> removal_plan_spec(m) == (worktree_views(remove@) + removal_plan_spec(
                m.skip(j as int),
            ).0, removal_plan_spec(m.skip(j as int)).1),
            stop ==> removal_plan_spec(m) == (worktree_views(remove@), true) && refuse_main,
            !stop ==> !refuse_main,
            m.len() > 0,
            forall|k: int| 0 <= k < remove@.len() ==> !(#[trigger] remove@[k]).is_main,
        decreases matching@.len() - j,
    {
        let ghost t = m.skip(j as int);
        assert(t[0] == matching@[j as int]@);
        if matching[j].is_main {
            assert(worktree_views(remove@) + Seq::<WorktreeView>::empty() =~= worktree_views(remove@));
            refuse_main = true;
            stop = true;
        } else {
            let ghost before = worktree_views(remove@);
            remove.push(matching[j].duplicate());
            assert(t.drop_first() =~= m.skip(j + 1));
            assert(worktree_views(remove@) =~= before.push(t[0]));
            assert(before + (seq![t[0]] + removal_plan_spec(m.skip(j + 1)).0) =~= worktree_views(remove@)
                + removal_plan_spec(m.skip(j + 1)).0);
        }
        j = j + 1;
    }
    if !stop {
        assert(m.skip(j as int) =~= Seq::<WorktreeView>::empty());
        assert(worktree_views(remove@) + Seq::<WorktreeView>::empty() =~= worktree_views(remove@));
    }
    Ok(RemovalPlan { remove, refuse_main })
}

/// What creating a worktree for a name comes to: the branch (prefixed when
/// it is new and a prefix is set), where its worktree goes under the base
/// path, and the arguments of the `git worktree add` call.
pub struct CreationPlan {
    pub branch: String,
    pub path: String,
    pub add_args: Vec<String>,
}

/// Plans the creation of a worktree for `name` under `base`.
pub fn plan_worktree_creation(base: &str, name: &str, exists: bool, prefix: Option<&str>) -> (p:
    CreationPlan)
    ensures
        p.branch@ == final_branch_spec(name@, exists, match prefix {
            Some(x) => Some(x@),
            None => None,
        }),
        p.path@ == join_spec(base@, dir_name_spec(p.branch@)),
        views(p.add_args@) == add_args_spec(p.path@, p.branch@, exists),
{
    let branch = final_branch_name(name, exists, prefix);
    let path = worktree_path(base, branch.as_str());
    let add_args = worktree_add_args(path.as_str(), branch.as_str(), exists);
    CreationPlan { branch, path, add_args }
}

} // verus!
