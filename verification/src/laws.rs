//! Properties that hold across the library's operations.

use vstd::prelude::*;
use vstd::utf8::{encode_utf8, encode_utf8_decode_utf8, encode_utf8_valid_utf8};
use crate::codex::{
    all_ascii, codex_paths, decode_hex_spec, distinct_paths, double_quotes, first_per_path, has_path,
    hex_bytes, hex_digit, hex_pair, hex_upper, hint_for, hint_row, normalize_title_spec,
    quote_sql_spec, sql_hex, sql_literal_rest, sql_string_value, upper_hex_digit,
};
use crate::fzf::{interpret_spec, picker_line_spec, PickSpec};
use crate::git::{
    base_path_spec, branch_name, flush, parse_fold, parse_step, parsed_worktrees, ParseState,
    codex_managed, codex_name, dir_name_spec, find_by_name_spec, has_worktree_at, display_label_spec, display_name_spec, matches_any,
    matches_name_spec, matching_spec, removal_plan_spec, WorktreeView,
};
use crate::path::{
    components, file_name_spec, has_root, is_normal, join_spec, path_eq_spec, segment_components,
    starts_with_cur_dir, starts_with_spec,
};
use crate::text::{
    before_first, collapse_ws, index_of, is_ws, join, lemma_index_of, lemma_index_of_bounds, lines,
    strip_cr, trim_end, words, ws_index,
};

verus! {

/// A worktree is found by the label the picker shows for it, hint and all,
/// and by its display name, as long as that name holds no tab.
pub proof fn law_label_finds_worktree(w: WorktreeView)
    requires
        forall|k: int| 0 <= k < display_name_spec(w).len() ==> display_name_spec(w)[k] != '\t',
    ensures
        matches_name_spec(w, display_label_spec(w)),
        matches_name_spec(w, display_name_spec(w)),
{
    let d = display_name_spec(w);
    lemma_index_of(d, '\t', d.len() as int);
    assert(before_first(d, '\t') =~= d);
    match w.hint {
        Some(h) => {
            let l = d + seq!['\t'] + h;
            assert(l[d.len() as int] == '\t');
            lemma_index_of(l, '\t', d.len() as int);
            assert(before_first(l, '\t') =~= d);
        },
        None => {},
    }
}

/// A hint changes how a worktree is shown, never which names find it.
pub proof fn law_hint_not_in_lookup(w: WorktreeView, hint: Seq<char>, name: Seq<char>)
    ensures
        display_name_spec(WorktreeView { hint: Some(hint), ..w }) == display_name_spec(w),
        matches_name_spec(WorktreeView { hint: Some(hint), ..w }, name) == matches_name_spec(w, name),
{
}

/// A worktree that Codex manages is shown as `codex/<session id>`; any other
/// worktree under its branch.
pub proof fn law_display_name(w: WorktreeView)
    ensures
        codex_managed(w) ==> display_name_spec(w) == codex_name(w.path)->0
            && display_name_spec(w).take(6) == "codex/"@,
        !codex_managed(w) ==> display_name_spec(w) == w.branch,
{
    if codex_managed(w) {
        reveal_strlit("codex/");
        let id = crate::git::codex_window(crate::path::normal_components(w.path))->0;
        assert(("codex/"@ + id).take(6) =~= "codex/"@);
    }
}

/// The hint kept for a path is the one of the first usable row for that
/// path: rows come newest first, so each worktree gets its newest chat.
pub proof fn law_first_row_wins(rows: Seq<(Seq<char>, Seq<char>)>, p: Seq<char>)
    ensures
        hint_for(first_per_path(rows), p) == hint_for(rows, p),
    decreases rows.len(),
{
    if rows.len() > 0 {
        let prev = rows.drop_last();
        let r = rows.last();
        let kept = first_per_path(prev);
        law_first_row_wins(prev, p);
        lemma_has_path_first_per_path(prev, p);
        assert(rows =~= prev.push(r));
        lemma_hint_for_push(prev, r, p);
        if has_path(kept, r.0) {
            if path_eq_spec(r.0, p) {
                let k = choose|k: int| 0 <= k < kept.len() && path_eq_spec(#[trigger] kept[k].0, r.0);
                assert(path_eq_spec(kept[k].0, p));
                assert(has_path(kept, p));
            }
            if !has_path(prev, p) {
                lemma_hint_for_none(prev, p);
            }
        } else {
            lemma_hint_for_push(kept, r, p);
        }
    }
}

/// No entry holds an equal path, so there is no hint.
pub proof fn lemma_hint_for_none(s: Seq<(Seq<char>, Seq<char>)>, p: Seq<char>)
    requires
        !has_path(s, p),
    ensures
        hint_for(s, p) is None,
    decreases s.len(),
{
    if s.len() > 0 {
        assert(!path_eq_spec(s[0].0, p));
        if has_path(s.drop_first(), p) {
            let k = choose|k: int| 0 <= k < s.drop_first().len() && path_eq_spec(#[trigger] s.drop_first()[k].0, p);
            assert(s[k + 1] == s.drop_first()[k]);
            assert(has_path(s, p));
        }
        lemma_hint_for_none(s.drop_first(), p);
    }
}

/// Adding an entry at the end changes the hint for `p` only when no earlier
/// entry holds an equal path.
pub proof fn lemma_hint_for_push(s: Seq<(Seq<char>, Seq<char>)>, x: (Seq<char>, Seq<char>), p: Seq<char>)
    ensures
        hint_for(s.push(x), p) == if has_path(s, p) {
            hint_for(s, p)
        } else if path_eq_spec(x.0, p) {
            Some(x.1)
        } else {
            None
        },
    decreases s.len(),
{
    if s.len() == 0 {
        assert(s.push(x).drop_first() =~= s);
        assert(!has_path(s, p));
    } else {
        assert(s.push(x).drop_first() =~= s.drop_first().push(x));
        assert(s.push(x)[0] == s[0]);
        lemma_hint_for_push(s.drop_first(), x, p);
        if path_eq_spec(s[0].0, p) {
            assert(has_path(s, p));
        } else {
            if has_path(s, p) {
                let k = choose|k: int| 0 <= k < s.len() && path_eq_spec(#[trigger] s[k].0, p);
                assert(k > 0);
                assert(s.drop_first()[k - 1] == s[k]);
                assert(has_path(s.drop_first(), p));
            }
            if has_path(s.drop_first(), p) {
                let k = choose|k: int| 0 <= k < s.drop_first().len() && path_eq_spec(#[trigger] s.drop_first()[k].0, p);
                assert(s[k + 1] == s.drop_first()[k]);
                assert(has_path(s, p));
            }
        }
    }
}

/// Dropping later rows for paths already seen keeps every path that occurs.
pub proof fn lemma_has_path_first_per_path(rows: Seq<(Seq<char>, Seq<char>)>, q: Seq<char>)
    ensures
        has_path(first_per_path(rows), q) == has_path(rows, q),
    decreases rows.len(),
{
    if rows.len() > 0 {
        let prev = rows.drop_last();
        let r = rows.last();
        let kept = first_per_path(prev);
        lemma_has_path_first_per_path(prev, q);
        assert(rows =~= prev.push(r));
        lemma_has_path_push(prev, r, q);
        if !has_path(kept, r.0) {
            lemma_has_path_push(kept, r, q);
        } else if path_eq_spec(r.0, q) {
            let k = choose|k: int| 0 <= k < kept.len() && path_eq_spec(#[trigger] kept[k].0, r.0);
            assert(path_eq_spec(kept[k].0, q));
        }
    }
}

/// A path occurs after adding an entry when it occurred before or is the new entry's.
pub proof fn lemma_has_path_push(s: Seq<(Seq<char>, Seq<char>)>, x: (Seq<char>, Seq<char>), q: Seq<char>)
    ensures
        has_path(s.push(x), q) == (has_path(s, q) || path_eq_spec(x.0, q)),
{
    if has_path(s, q) {
        let k = choose|k: int| 0 <= k < s.len() && path_eq_spec(#[trigger] s[k].0, q);
        assert(s.push(x)[k] == s[k]);
    }
    if path_eq_spec(x.0, q) {
        assert(s.push(x)[s.len() as int] == x);
    }
    if has_path(s.push(x), q) {
        let k = choose|k: int| 0 <= k < s.push(x).len() && path_eq_spec(#[trigger] s.push(x)[k].0, q);
        if k < s.len() {
            assert(s.push(x)[k] == s[k]);
        }
    }
}

/// The hints read back hold each path at most once.
pub proof fn law_hint_paths_distinct(rows: Seq<(Seq<char>, Seq<char>)>)
    ensures
        distinct_paths(first_per_path(rows)),
    decreases rows.len(),
{
    if rows.len() > 0 {
        let prev = rows.drop_last();
        let r = rows.last();
        let kept = first_per_path(prev);
        law_hint_paths_distinct(prev);
        if !has_path(kept, r.0) {
            let n = kept.push(r);
            assert forall|i: int, j: int|
                0 <= i < j < n.len() implies !path_eq_spec(#[trigger] n[i].0, #[trigger] n[j].0) by {
                if j == kept.len() {
                    assert(n[i] == kept[i]);
                    if path_eq_spec(n[i].0, n[j].0) {
                        assert(path_eq_spec(kept[i].0, r.0));
                    }
                } else {
                    assert(n[i] == kept[i] && n[j] == kept[j]);
                }
            }
        }
    }
}

/// Doubling quotes, seen from the front.
pub proof fn lemma_double_quotes_front(s: Seq<char>)
    requires
        s.len() > 0,
    ensures
        double_quotes(s) == (if s[0] == '\'' {
            seq!['\'', '\'']
        } else {
            seq![s[0]]
        }) + double_quotes(s.drop_first()),
    decreases s.len(),
{
    if s.len() == 1 {
        assert(s.drop_last() =~= Seq::<char>::empty());
        assert(s.drop_first() =~= Seq::<char>::empty());
        assert(s.last() == s[0]);
    } else {
        let a = s.drop_last();
        lemma_double_quotes_front(a);
        assert(a.drop_first() =~= s.drop_first().drop_last());
        assert(s.drop_first().last() == s.last());
        assert(a[0] == s[0]);
        let p0 = if s[0] == '\'' { seq!['\'', '\''] } else { seq![s[0]] };
        let pl = if s.last() == '\'' { seq!['\'', '\''] } else { seq![s.last()] };
        assert(double_quotes(s) == double_quotes(a) + pl);
        assert(double_quotes(s.drop_first()) == double_quotes(a.drop_first()) + pl);
        assert(double_quotes(s) =~= p0 + double_quotes(s.drop_first()));
    }
}

proof fn lemma_literal_rest(s: Seq<char>)
    ensures
        sql_literal_rest(double_quotes(s) + seq!['\'']) == Some(s),
    decreases s.len(),
{
    if s.len() == 0 {
        assert(double_quotes(s) + seq!['\''] =~= seq!['\'']);
    } else {
        lemma_double_quotes_front(s);
        lemma_literal_rest(s.drop_first());
        let rest = double_quotes(s.drop_first()) + seq!['\''];
        let t = double_quotes(s) + seq!['\''];
        if s[0] == '\'' {
            assert(t =~= seq!['\'', '\''] + rest);
            assert(t.skip(2) =~= rest);
            assert(seq!['\''] + s.drop_first() =~= s);
        } else {
            assert(t =~= seq![s[0]] + rest);
            assert(t.drop_first() =~= rest);
            assert(seq![s[0]] + s.drop_first() =~= s);
        }
    }
}

/// The database reads each quoted path back as exactly that path: quoting
/// cannot end the literal early or change what it holds.
pub proof fn law_quote_round_trip(s: Seq<char>)
    ensures
        sql_string_value(quote_sql_spec(s)) == Some(s),
{
    let q = quote_sql_spec(s);
    assert(q.drop_first() =~= double_quotes(s) + seq!['\'']);
    lemma_literal_rest(s);
}

/// The worktrees removed are the matching ones up to the first main one: all
/// of them when none is main.
pub proof fn lemma_removal_prefix(m: Seq<WorktreeView>)
    ensures
        removal_plan_spec(m).0.len() <= m.len(),
        removal_plan_spec(m).0 == m.take(removal_plan_spec(m).0.len() as int),
        removal_plan_spec(m).1 ==> removal_plan_spec(m).0.len() < m.len()
            && m[removal_plan_spec(m).0.len() as int].is_main,
        !removal_plan_spec(m).1 ==> removal_plan_spec(m).0.len() == m.len(),
        forall|k: int| 0 <= k < removal_plan_spec(m).0.len() ==> !(#[trigger] m[k]).is_main,
    decreases m.len(),
{
    if m.len() == 0 {
        assert(m.take(0) =~= Seq::<WorktreeView>::empty());
    } else if m[0].is_main {
        assert(m.take(0) =~= Seq::<WorktreeView>::empty());
    } else {
        let r = removal_plan_spec(m.drop_first());
        lemma_removal_prefix(m.drop_first());
        assert(seq![m[0]] + r.0 =~= m.take(r.0.len() + 1 as int));
        if r.1 {
            assert(m[r.0.len() + 1 as int] == m.drop_first()[r.0.len() as int]);
        }
        assert forall|k: int| 0 <= k < r.0.len() + 1 implies !(#[trigger] m[k]).is_main by {
            if k > 0 {
                assert(m[k] == m.drop_first()[k - 1]);
            }
        }
    }
}

/// Every worktree that the matching picks is matched by one of the names.
pub proof fn lemma_matching_matches(ws: Seq<WorktreeView>, names: Seq<Seq<char>>)
    ensures
        forall|k: int|
            0 <= k < matching_spec(ws, names).len() ==> matches_any(
                #[trigger] matching_spec(ws, names)[k],
                names,
            ),
    decreases ws.len(),
{
    if ws.len() > 0 {
        lemma_matching_matches(ws.drop_last(), names);
        let rest = matching_spec(ws.drop_last(), names);
        let all = matching_spec(ws, names);
        assert forall|k: int| 0 <= k < all.len() implies matches_any(#[trigger] all[k], names) by {
            if k < rest.len() {
                assert(all[k] == rest[k]);
            }
        }
    }
}

/// A removal only ever removes worktrees that one of the requested names
/// matches, and never the main worktree.
pub proof fn law_removal_is_safe(ws: Seq<WorktreeView>, names: Seq<Seq<char>>)
    ensures
        forall|k: int|
            0 <= k < removal_plan_spec(matching_spec(ws, names)).0.len() ==> {
                let w = #[trigger] removal_plan_spec(matching_spec(ws, names)).0[k];
                matches_any(w, names) && !w.is_main
            },
{
    let m = matching_spec(ws, names);
    lemma_removal_prefix(m);
    lemma_matching_matches(ws, names);
    assert forall|k: int| 0 <= k < removal_plan_spec(m).0.len() implies {
        let w = #[trigger] removal_plan_spec(m).0[k];
        matches_any(w, names) && !w.is_main
    } by {
        assert(removal_plan_spec(m).0[k] == m[k]);
    }
}

/// Segments split at the first separator of a concatenation.
pub proof fn lemma_segments_concat(s: Seq<char>, y: Seq<char>, keep_parent: bool)
    ensures
        segment_components(s + seq!['/'] + y, keep_parent) == segment_components(s, keep_parent)
            + segment_components(y, keep_parent),
    decreases s.len(),
{
    let t = s + seq!['/'] + y;
    lemma_index_of_bounds(s, '/');
    let i = index_of(s, '/');
    assert(t[s.len() as int] == '/');
    assert forall|k: int| 0 <= k < i implies t[k] != '/' by {
        assert(t[k] == s[k]);
    }
    if i < s.len() {
        assert(t[i] == s[i]);
        lemma_index_of(t, '/', i);
        assert(t.take(i) =~= s.take(i));
        assert(t.skip(i + 1) =~= s.skip(i + 1) + seq!['/'] + y);
        lemma_segments_concat(s.skip(i + 1), y, keep_parent);
        assert(segment_components(t, keep_parent) =~= segment_components(s, keep_parent)
            + segment_components(y, keep_parent));
    } else {
        lemma_index_of(t, '/', s.len() as int);
        assert(t.take(s.len() as int) =~= s);
        assert(s.take(i) =~= s);
        assert(t.skip(s.len() + 1 as int) =~= y);
    }
}

/// The text of a normal component that holds no separator.
pub open spec fn is_plain_name(x: Seq<char>) -> bool {
    x.len() > 0 && is_normal(x) && forall|k: int| 0 <= k < x.len() ==> x[k] != '/'
}

/// A plain name is a single segment.
pub proof fn lemma_segments_plain(x: Seq<char>, keep_parent: bool)
    requires
        is_plain_name(x),
    ensures
        segment_components(x, keep_parent) == seq![x],
{
    lemma_index_of(x, '/', x.len() as int);
    assert(x.take(x.len() as int) =~= x);
}

/// Appending a plain name to a path adds exactly that one component.
pub proof fn lemma_join_components(base: Seq<char>, x: Seq<char>)
    requires
        is_plain_name(x),
    ensures
        components(join_spec(base, x)) == components(base) + seq![x],
{
    let j = join_spec(base, x);
    lemma_segments_plain(x, true);
    let empty = Seq::<char>::empty();
    assert(segment_components(empty, true) == Seq::<Seq<char>>::empty()) by {
        assert(empty.take(0) =~= empty);
    }
    assert(!has_root(x));
    if base.len() > 0 && base.last() != '/' {
        assert(j == base + seq!['/'] + x);
        lemma_segments_concat(base, x, true);
        assert(j[0] == base[0]);
        if base.len() > 1 {
            assert(j[1] == base[1]);
        } else {
            assert(j[1] == '/');
        }
    } else if base.len() > 0 {
        let t = base.drop_last();
        assert(base =~= t + seq!['/'] + empty);
        assert(j =~= t + seq!['/'] + x);
        lemma_segments_concat(t, x, true);
        lemma_segments_concat(t, empty, true);
        assert(j[0] == base[0]);
        if base.len() > 1 {
            assert(j[1] == base[1]);
        }
    } else {
        assert(j =~= x);
        assert(base.take(0) =~= base);
        assert(!starts_with_cur_dir(x)) by {
            if x.len() == 1 && x[0] == '.' {
                assert(x =~= seq!['.']);
            }
        }
    }
    assert(components(j) =~= components(base) + seq![x]);
}

/// A worktree's directory sits right under the base path: its path starts
/// with the base path and ends in the branch's directory name, one component
/// deeper (branch names that make `.` or `..` aside).
pub proof fn law_worktree_path_under_base(base: Seq<char>, branch: Seq<char>)
    requires
        branch.len() > 0,
        is_normal(dir_name_spec(branch)),
    ensures
        components(join_spec(base, dir_name_spec(branch))) == components(base) + seq![dir_name_spec(branch)],
        starts_with_spec(join_spec(base, dir_name_spec(branch)), base),
        file_name_spec(join_spec(base, dir_name_spec(branch))) == Some(dir_name_spec(branch)),
{
    let d = dir_name_spec(branch);
    assert forall|k: int| 0 <= k < d.len() implies d[k] != '/' by {}
    lemma_join_components(base, d);
    let c = components(base) + seq![d];
    assert(c.take(components(base).len() as int) =~= components(base));
    assert(c.last() == d);
}

/// Text whose only whitespace is single spaces between other characters.
pub open spec fn spaced(s: Seq<char>) -> bool {
    forall|k: int|
        0 <= k < s.len() && is_ws(#[trigger] s[k]) ==> s[k] == ' ' && 0 < k < s.len() - 1 && !is_ws(
            s[k + 1],
        )
}

/// True when no character is whitespace.
pub open spec fn no_ws(s: Seq<char>) -> bool {
    forall|k: int| 0 <= k < s.len() ==> !is_ws(#[trigger] s[k])
}

proof fn lemma_ws_index_bounds(s: Seq<char>)
    ensures
        0 <= ws_index(s) <= s.len(),
        ws_index(s) < s.len() ==> is_ws(s[ws_index(s)]),
        forall|k: int| 0 <= k < ws_index(s) ==> !is_ws(s[k]),
    decreases s.len(),
{
    if s.len() > 0 && !is_ws(s[0]) {
        lemma_ws_index_bounds(s.drop_first());
        assert forall|k: int| 0 <= k < ws_index(s) implies !is_ws(s[k]) by {
            if k > 0 {
                assert(s[k] == s.drop_first()[k - 1]);
            }
        }
    }
}

/// The words of a text are non-empty and hold no whitespace.
proof fn lemma_words_plain(s: Seq<char>)
    ensures
        forall|k: int| 0 <= k < words(s).len() ==> (#[trigger] words(s)[k]).len() > 0 && no_ws(words(s)[k]),
    decreases s.len(),
{
    lemma_ws_index_bounds(s);
    let i = ws_index(s);
    let piece = s.take(i);
    assert(no_ws(piece)) by {
        assert forall|k: int| 0 <= k < piece.len() implies !is_ws(#[trigger] piece[k]) by {
            assert(piece[k] == s[k]);
        }
    }
    if i < s.len() {
        lemma_words_plain(s.skip(i + 1));
        let head = if piece.len() == 0 { Seq::<Seq<char>>::empty() } else { seq![piece] };
        let w = words(s);
        assert(w == head + words(s.skip(i + 1)));
        assert forall|k: int| 0 <= k < w.len() implies (#[trigger] w[k]).len() > 0 && no_ws(w[k]) by {
            if k >= head.len() {
                assert(w[k] == words(s.skip(i + 1))[k - head.len()]);
            }
        }
    }
}

/// Words joined by single spaces are spaced.
proof fn lemma_join_spaced(ps: Seq<Seq<char>>)
    requires
        forall|k: int| 0 <= k < ps.len() ==> (#[trigger] ps[k]).len() > 0 && no_ws(ps[k]),
    ensures
        spaced(join(ps, seq![' '])),
        ps.len() > 0 ==> join(ps, seq![' ']).len() > 0 && !is_ws(join(ps, seq![' '])[0]),
    decreases ps.len(),
{
    if ps.len() == 1 {
        assert(ps[0].len() > 0 && no_ws(ps[0]));
    } else if ps.len() > 1 {
        let rest = ps.drop_first();
        assert forall|k: int| 0 <= k < rest.len() implies (#[trigger] rest[k]).len() > 0 && no_ws(rest[k]) by {
            assert(rest[k] == ps[k + 1]);
        }
        lemma_join_spaced(rest);
        let p0 = ps[0];
        assert(p0.len() > 0 && no_ws(p0));
        let jr = join(rest, seq![' ']);
        let j = join(ps, seq![' ']);
        assert(j == p0 + seq![' '] + jr);
        assert(j[0] == p0[0]);
        assert forall|k: int| 0 <= k < j.len() && is_ws(#[trigger] j[k]) implies j[k] == ' ' && 0 < k < j.len() - 1 && !is_ws(j[k + 1]) by {
            if k < p0.len() {
                assert(j[k] == p0[k]);
            } else if k == p0.len() {
                assert(j[k + 1] == jr[0]);
            } else {
                let m = k - p0.len() - 1;
                assert(j[k] == jr[m]);
                assert(j[k + 1] == jr[m + 1]);
            }
        }
    }
}

/// Collapsed whitespace is spaced.
pub proof fn lemma_collapse_spaced(s: Seq<char>)
    ensures
        spaced(collapse_ws(s)),
        collapse_ws(s).len() > 0 ==> !is_ws(collapse_ws(s)[0]),
{
    lemma_words_plain(s);
    lemma_join_spaced(words(s));
    if words(s).len() == 0 {
        assert(collapse_ws(s).len() == 0);
    }
}

/// Collapsing leaves spaced text as it is.
pub proof fn lemma_collapse_spaced_fixed(s: Seq<char>)
    requires
        spaced(s),
    ensures
        collapse_ws(s) == s,
    decreases s.len(),
{
    lemma_ws_index_bounds(s);
    let i = ws_index(s);
    if i >= s.len() {
        assert(s.take(i) =~= s);
        if s.len() == 0 {
            assert(words(s) =~= Seq::<Seq<char>>::empty());
        } else {
            assert(words(s) =~= seq![s]);
        }
    } else {
        assert(is_ws(s[i]));
        assert(s[i] == ' ' && 0 < i < s.len() - 1 && !is_ws(s[i + 1]));
        let rest = s.skip(i + 1);
        assert(spaced(rest)) by {
            assert forall|k: int| 0 <= k < rest.len() && is_ws(#[trigger] rest[k]) implies rest[k] == ' '
                && 0 < k < rest.len() - 1 && !is_ws(rest[k + 1]) by {
                assert(rest[k] == s[k + i + 1]);
                assert(is_ws(s[k + i + 1]));
                assert(rest[k + 1] == s[k + i + 2]);
            }
        }
        lemma_collapse_spaced_fixed(rest);
        lemma_ws_index_bounds(rest);
        assert(rest[0] == s[i + 1]);
        assert(ws_index(rest) > 0) by {
            if ws_index(rest) == 0 {
                assert(is_ws(rest[0]));
            }
        }
        assert(words(rest).len() > 0) by {
            assert(rest.take(ws_index(rest)).len() > 0);
        }
        assert(words(s) == seq![s.take(i)] + words(rest));
        let ws = seq![s.take(i)] + words(rest);
        assert(ws.drop_first() =~= words(rest));
        assert(ws[0] == s.take(i));
        assert(collapse_ws(s) == s.take(i) + seq![' '] + collapse_ws(rest));
        assert(s =~= s.take(i) + seq![' '] + rest);
    }
}

/// `trim_end` keeps a prefix that ends in a non-whitespace character and
/// drops only whitespace.
proof fn lemma_trim_end(u: Seq<char>)
    ensures
        trim_end(u).len() <= u.len(),
        trim_end(u) == u.take(trim_end(u).len() as int),
        trim_end(u).len() > 0 ==> !is_ws(u[trim_end(u).len() - 1]),
        forall|k: int| trim_end(u).len() <= k < u.len() ==> is_ws(#[trigger] u[k]),
    decreases u.len(),
{
    if u.len() > 0 && is_ws(u.last()) {
        lemma_trim_end(u.drop_last());
        let r = trim_end(u).len();
        assert(u.drop_last().take(r as int) =~= u.take(r as int));
        assert forall|k: int| r <= k < u.len() implies is_ws(#[trigger] u[k]) by {
            if k < u.len() - 1 {
                assert(u[k] == u.drop_last()[k]);
            }
        }
    } else {
        assert(u.take(u.len() as int) =~= u);
    }
}

/// Normalizing a title twice gives what normalizing it once gives: shown
/// titles are already in normal form.
pub proof fn law_normalize_title_idempotent(title: Seq<char>)
    ensures
        normalize_title_spec(normalize_title_spec(title)) == normalize_title_spec(title),
{
    let c = collapse_ws(title);
    lemma_collapse_spaced(c);
    lemma_collapse_spaced(title);
    let n = normalize_title_spec(title);
    if c.len() <= 80 {
        lemma_collapse_spaced_fixed(c);
    } else {
        let u = c.take(80);
        let t = trim_end(u);
        lemma_trim_end(u);
        assert(!is_ws(u[0])) by {
            assert(u[0] == c[0]);
        }
        assert(t.len() > 0) by {
            if t.len() == 0 {
                assert(is_ws(u[0]));
            }
        }
        assert(n == t.push('…'));
        assert(!is_ws('…'));
        assert(spaced(n)) by {
            assert forall|k: int| 0 <= k < n.len() && is_ws(#[trigger] n[k]) implies n[k] == ' ' && 0 < k
                < n.len() - 1 && !is_ws(n[k + 1]) by {
                if k == t.len() {
                    assert(n[k] == '…');
                } else {
                    assert(n[k] == c[k]);
                    assert(is_ws(c[k]));
                    assert(k != t.len() - 1) by {
                        if k == t.len() - 1 {
                            assert(u[k] == c[k]);
                        }
                    }
                    if k + 1 < t.len() {
                        assert(n[k + 1] == c[k + 1]);
                    } else {
                        assert(n[k + 1] == '…');
                    }
                }
            }
        }
        lemma_collapse_spaced_fixed(n);
        if n.len() > 80 {
            assert(t.len() == 80);
            assert(t =~= u);
            assert(n.take(80) =~= t);
            assert(trim_end(t) == t);
        }
    }
}

/// True when `c` does not occur in `s`.
pub open spec fn lacks(s: Seq<char>, c: char) -> bool {
    forall|k: int| 0 <= k < s.len() ==> s[k] != c
}

/// Choosing a worktree's line in the picker selects that worktree: the name
/// read back is its branch, and that name finds the worktree.
pub proof fn law_picker_selects_worktree(query: Seq<char>, w: WorktreeView)
    requires
        lacks(query, '\n'),
        lacks(w.branch, '\n'),
        lacks(w.branch, '\t'),
        lacks(w.path, '\n'),
    ensures
        interpret_spec(Some(0i32), query + seq!['\n'] + picker_line_spec(w)) == PickSpec::Selected(w.branch),
        matches_name_spec(w, w.branch),
{
    let line = w.branch + seq!['\t'] + w.path;
    let out = query + seq!['\n'] + picker_line_spec(w);
    assert(picker_line_spec(w) =~= line + seq!['\n']);
    // the first line is the query
    assert(out[query.len() as int] == '\n');
    assert forall|k: int| 0 <= k < query.len() implies out[k] != '\n' by {
        assert(out[k] == query[k]);
    }
    lemma_index_of(out, '\n', query.len() as int);
    let rest = out.skip(query.len() + 1 as int);
    assert(rest =~= line + seq!['\n']);
    // the second line is the chosen one
    assert(rest[line.len() as int] == '\n');
    assert forall|k: int| 0 <= k < line.len() implies rest[k] != '\n' by {
        assert(rest[k] == line[k]);
        if k < w.branch.len() {
            assert(line[k] == w.branch[k]);
        } else if k > w.branch.len() {
            assert(line[k] == w.path[k - w.branch.len() - 1]);
        }
    }
    lemma_index_of(rest, '\n', line.len() as int);
    assert(rest.take(line.len() as int) =~= line);
    let ls = lines(out);
    assert(lines(out) == seq![strip_cr(out.take(query.len() as int))] + lines(rest));
    assert(lines(rest) == seq![strip_cr(rest.take(line.len() as int))] + lines(
        rest.skip(line.len() + 1 as int),
    ));
    assert(ls.len() >= 2);
    assert(ls[1] == strip_cr(line));
    let sel = strip_cr(line);
    // the selection's name is what precedes its first tab: the branch
    assert(sel.len() >= w.branch.len() + 1);
    assert(sel[w.branch.len() as int] == '\t') by {
        if line.last() == '\r' {
            assert(sel[w.branch.len() as int] == line[w.branch.len() as int]);
        }
    }
    assert forall|k: int| 0 <= k < w.branch.len() implies sel[k] != '\t' by {
        assert(sel[k] == line[k]);
        assert(line[k] == w.branch[k]);
    }
    lemma_index_of(sel, '\t', w.branch.len() as int);
    assert(before_first(sel, '\t') =~= w.branch);
    lemma_index_of(w.branch, '\t', w.branch.len() as int);
    assert(before_first(w.branch, '\t') =~= w.branch);
}

/// A hexadecimal digit reads back as its value.
proof fn lemma_upper_hex_digit(v: u8)
    requires
        v < 16,
    ensures
        hex_digit(upper_hex_digit(v)) == Some(v),
        upper_hex_digit(v) != '+',
        upper_hex_digit(v) != '\t',
        (upper_hex_digit(v) as u32) < 128,
{
}

/// Hexadecimal pairs read back as the bytes they were written from.
proof fn lemma_hex_upper_round_trip(b: Seq<u8>)
    ensures
        hex_bytes(hex_upper(b)) == Some(b),
        hex_upper(b).len() == 2 * b.len(),
        all_ascii(hex_upper(b)),
        forall|k: int| 0 <= k < hex_upper(b).len() ==> #[trigger] hex_upper(b)[k] != '\t',
    decreases b.len(),
{
    if b.len() > 0 {
        let x = b[0];
        let h = hex_upper(b);
        let rest = hex_upper(b.drop_first());
        lemma_hex_upper_round_trip(b.drop_first());
        lemma_upper_hex_digit(x / 16);
        lemma_upper_hex_digit(x % 16);
        assert((x / 16) * 16 + x % 16 == x);
        assert(hex_pair(upper_hex_digit(x / 16), upper_hex_digit(x % 16)) == Some(x));
        assert(h[0] == upper_hex_digit(x / 16) && h[1] == upper_hex_digit(x % 16));
        assert(h.skip(2) =~= rest);
        assert(seq![x] + b.drop_first() =~= b);
        assert forall|k: int| 0 <= k < h.len() implies (h[k] as u32) < 128 && #[trigger] h[k] != '\t' by {
            if k >= 2 {
                assert(h[k] == rest[k - 2]);
            }
        }
    }
}

/// Whatever a title or path holds, tabs and newlines included, hex encoding
/// brings it back unchanged.
pub proof fn law_hex_round_trip(s: Seq<char>)
    ensures
        decode_hex_spec(sql_hex(s)) == Some(s),
{
    let b = encode_utf8(s);
    lemma_hex_upper_round_trip(b);
    encode_utf8_valid_utf8(s);
    encode_utf8_decode_utf8(s);
}

/// A row of the query's output, written as the database writes it, gives back
/// the path and the normalized title, whatever tabs or newlines they hold;
/// a title that normalizes to nothing gives no hint.
pub proof fn law_hint_row_round_trip(path: Seq<char>, title: Seq<char>)
    ensures
        hint_row(sql_hex(path) + seq!['\t'] + sql_hex(title)) == if normalize_title_spec(title).len() == 0 {
            None
        } else {
            Some((path, normalize_title_spec(title)))
        },
{
    let hp = sql_hex(path);
    let ht = sql_hex(title);
    let line = hp + seq!['\t'] + ht;
    lemma_hex_upper_round_trip(encode_utf8(path));
    law_hex_round_trip(path);
    law_hex_round_trip(title);
    assert(line[hp.len() as int] == '\t');
    assert forall|k: int| 0 <= k < hp.len() implies line[k] != '\t' by {
        assert(line[k] == hp[k]);
    }
    lemma_index_of(line, '\t', hp.len() as int);
    assert(line.take(hp.len() as int) =~= hp);
    assert(line.skip(hp.len() + 1 as int) =~= ht);
}

/// New worktrees are created at `<home>/.wt/<repo>/<branch>`, the branch's
/// separators made into dashes, and the last worktree is remembered in
/// `<home>/.wt/<repo>/.last`: exactly three, and three, components below home.
pub proof fn law_worktree_location(home: Seq<char>, repo: Seq<char>, branch: Seq<char>)
    requires
        is_plain_name(repo),
        branch.len() > 0,
        is_normal(dir_name_spec(branch)),
    ensures
        components(join_spec(base_path_spec(home, repo), dir_name_spec(branch))) == components(home)
            + seq![".wt"@, repo, dir_name_spec(branch)],
        components(join_spec(base_path_spec(home, repo), ".last"@)) == components(home) + seq![
            ".wt"@,
            repo,
            ".last"@,
        ],
{
    reveal_strlit(".wt");
    reveal_strlit(".last");
    let d = dir_name_spec(branch);
    assert forall|k: int| 0 <= k < d.len() implies d[k] != '/' by {}
    assert(".wt"@ =~= seq!['.', 'w', 't']);
    assert(".last"@ =~= seq!['.', 'l', 'a', 's', 't']);
    assert(is_plain_name(".wt"@)) by {
        assert(".wt"@.len() != 1 && ".wt"@.len() != 2);
        assert(".wt"@ != seq!['.']);
        assert(".wt"@ != seq!['/']);
        assert(".wt"@ != seq!['.', '.']);
    }
    assert(is_plain_name(".last"@)) by {
        assert(".last"@ != seq!['.']);
        assert(".last"@ != seq!['/']);
        assert(".last"@ != seq!['.', '.']);
    }
    lemma_join_components(home, ".wt"@);
    let w = join_spec(home, ".wt"@);
    lemma_join_components(w, repo);
    let b = join_spec(w, repo);
    lemma_join_components(b, d);
    lemma_join_components(b, ".last"@);
    assert(components(home) + seq![".wt"@] + seq![repo] + seq![d] =~= components(home) + seq![
        ".wt"@,
        repo,
        d,
    ]);
    assert(components(home) + seq![".wt"@] + seq![repo] + seq![".last"@] =~= components(home)
        + seq![".wt"@, repo, ".last"@]);
}

/// The lookup by name returns the first worktree in listing order that the
/// name matches, main or not.
pub proof fn law_find_first_match(ws: Seq<WorktreeView>, name: Seq<char>, j: int)
    requires
        0 <= j < ws.len(),
        matches_name_spec(ws[j], name),
        forall|k: int| 0 <= k < j ==> !matches_name_spec(#[trigger] ws[k], name),
    ensures
        find_by_name_spec(ws, name) == Some(ws[j]),
    decreases j,
{
    if j > 0 {
        assert(!matches_name_spec(ws[0], name));
        let t = ws.drop_first();
        assert(t[j - 1] == ws[j]);
        assert forall|k: int| 0 <= k < j - 1 implies !matches_name_spec(#[trigger] t[k], name) by {
            assert(t[k] == ws[k + 1]);
        }
        law_find_first_match(t, name, j - 1);
    }
}

/// The lookup by name finds nothing exactly when no worktree matches the name.
pub proof fn law_find_none(ws: Seq<WorktreeView>, name: Seq<char>)
    ensures
        find_by_name_spec(ws, name) is None <==> forall|k: int|
            0 <= k < ws.len() ==> !matches_name_spec(#[trigger] ws[k], name),
    decreases ws.len(),
{
    if ws.len() > 0 {
        let t = ws.drop_first();
        law_find_none(t, name);
        if forall|k: int| 0 <= k < ws.len() ==> !matches_name_spec(#[trigger] ws[k], name) {
            assert(!matches_name_spec(ws[0], name));
            assert forall|k: int| 0 <= k < t.len() implies !matches_name_spec(#[trigger] t[k], name) by {
                assert(t[k] == ws[k + 1]);
            }
        }
        if find_by_name_spec(ws, name) is None {
            assert forall|k: int| 0 <= k < ws.len() implies !matches_name_spec(#[trigger] ws[k], name) by {
                if k > 0 {
                    assert(t[k - 1] == ws[k]);
                }
            }
        }
    }
}

/// A worktree whose branch holds no tab is found under its branch, main or
/// not, unless an earlier worktree also answers to that name.
pub proof fn law_find_by_branch(ws: Seq<WorktreeView>, j: int)
    requires
        0 <= j < ws.len(),
        lacks(ws[j].branch, '\t'),
        forall|k: int| 0 <= k < j ==> !matches_name_spec(#[trigger] ws[k], ws[j].branch),
    ensures
        find_by_name_spec(ws, ws[j].branch) == Some(ws[j]),
{
    let b = ws[j].branch;
    lemma_index_of(b, '\t', b.len() as int);
    assert(before_first(b, '\t') =~= b);
    law_find_first_match(ws, b, j);
}

/// A directory is one of the worktrees exactly when some worktree, at any
/// position of the list, has a path equal to it component by component.
pub proof fn law_worktree_at(ws: Seq<WorktreeView>, p: Seq<char>, k: int)
    ensures
        0 <= k < ws.len() && components(ws[k].path) == components(p) ==> has_worktree_at(ws, p),
        has_worktree_at(ws, p) ==> exists|i: int|
            0 <= i < ws.len() && components(#[trigger] ws[i].path) == components(p),
{
    if 0 <= k < ws.len() && components(ws[k].path) == components(p) {
        assert(path_eq_spec(ws[k].path, p));
    }
    if has_worktree_at(ws, p) {
        let i = choose|i: int| 0 <= i < ws.len() && path_eq_spec(#[trigger] ws[i].path, p);
        assert(components(ws[i].path) == components(p));
    }
}

/// The paths hints are asked for are exactly the paths of the worktrees that
/// Codex manages, every one of them, in listing order.
pub proof fn law_codex_paths_complete(ws: Seq<WorktreeView>)
    ensures
        codex_paths(ws) == ws.filter(|w: WorktreeView| codex_managed(w)).map_values(
            |w: WorktreeView| w.path,
        ),
        forall|k: int| 0 <= k < ws.len() && codex_managed(ws[k]) ==> codex_paths(ws).contains(
            #[trigger] ws[k].path,
        ),
    decreases ws.len(),
{
    let pred = |w: WorktreeView| codex_managed(w);
    let f = |w: WorktreeView| w.path;
    reveal(Seq::filter);
    if ws.len() > 0 {
        let prev = ws.drop_last();
        law_codex_paths_complete(prev);
        let fp = prev.filter(pred);
        if codex_managed(ws.last()) {
            assert(ws.filter(pred) == fp.push(ws.last()));
            assert(fp.push(ws.last()).map_values(f) =~= fp.map_values(f).push(ws.last().path));
        } else {
            assert(ws.filter(pred) == fp);
        }
        assert forall|k: int| 0 <= k < ws.len() && codex_managed(ws[k]) implies codex_paths(ws).contains(
            #[trigger] ws[k].path,
        ) by {
            let c = codex_paths(ws);
            if k == ws.len() - 1 {
                assert(c[c.len() - 1] == ws[k].path);
            } else {
                assert(prev[k] == ws[k]);
                assert(codex_paths(prev).contains(prev[k].path));
                let i = choose|i: int| 0 <= i < codex_paths(prev).len() && codex_paths(prev)[i] == prev[k].path;
                assert(c[i] == codex_paths(prev)[i]);
            }
        }
    } else {
        assert(ws.filter(pred).map_values(f) =~= Seq::<Seq<char>>::empty());
    }
}

/// The worktrees a removal considers are exactly those that one of the
/// requested names matches, every one of them, in listing order; there are
/// none exactly when no worktree matches any name.
pub proof fn law_matching_complete(ws: Seq<WorktreeView>, names: Seq<Seq<char>>)
    ensures
        matching_spec(ws, names) == ws.filter(|w: WorktreeView| matches_any(w, names)),
        forall|k: int| 0 <= k < ws.len() && matches_any(ws[k], names) ==> matching_spec(ws, names).contains(
            #[trigger] ws[k],
        ),
        matching_spec(ws, names).len() == 0 <==> forall|k: int|
            0 <= k < ws.len() ==> !matches_any(#[trigger] ws[k], names),
    decreases ws.len(),
{
    let pred = |w: WorktreeView| matches_any(w, names);
    reveal(Seq::filter);
    if ws.len() > 0 {
        let prev = ws.drop_last();
        law_matching_complete(prev, names);
        let m = matching_spec(ws, names);
        assert forall|k: int| 0 <= k < ws.len() && matches_any(ws[k], names) implies m.contains(
            #[trigger] ws[k],
        ) by {
            if k == ws.len() - 1 {
                assert(m[m.len() - 1] == ws[k]);
            } else {
                assert(prev[k] == ws[k]);
                assert(matching_spec(prev, names).contains(prev[k]));
                let i = choose|i: int| 0 <= i < matching_spec(prev, names).len() && matching_spec(prev, names)[i] == prev[k];
                assert(m[i] == matching_spec(prev, names)[i]);
            }
        }
        if m.len() == 0 {
            assert forall|k: int| 0 <= k < ws.len() implies !matches_any(#[trigger] ws[k], names) by {
                if matches_any(ws[k], names) {
                    assert(m.contains(ws[k]));
                }
            }
        }
        if forall|k: int| 0 <= k < ws.len() ==> !matches_any(#[trigger] ws[k], names) {
            assert(!matches_any(ws[ws.len() - 1], names));
            assert forall|k: int| 0 <= k < prev.len() implies !matches_any(#[trigger] prev[k], names) by {
                assert(prev[k] == ws[k]);
            }
        }
    }
}

/// Lines of two texts, the first empty or ending its last line, are the
/// lines of each in turn.
pub proof fn lemma_lines_append(a: Seq<char>, b: Seq<char>)
    requires
        a.len() == 0 || a.last() == '\n',
    ensures
        lines(a + b) == lines(a) + lines(b),
    decreases a.len(),
{
    if a.len() == 0 {
        assert(a + b =~= b);
        assert(lines(a) =~= Seq::<Seq<char>>::empty());
        assert(lines(a) + lines(b) =~= lines(b));
    } else {
        lemma_index_of_bounds(a, '\n');
        let i = index_of(a, '\n');
        assert(i < a.len()) by {
            if i >= a.len() {
                assert(a[a.len() - 1] != '\n');
            }
        }
        let t = a + b;
        assert forall|k: int| 0 <= k < i implies t[k] != '\n' by {
            assert(t[k] == a[k]);
        }
        assert(t[i] == a[i]);
        lemma_index_of(t, '\n', i);
        assert(t.take(i) =~= a.take(i));
        let rest = a.skip(i + 1);
        assert(t.skip(i + 1) =~= rest + b);
        if rest.len() > 0 {
            assert(rest.last() == a.last());
        }
        lemma_lines_append(rest, b);
        assert(lines(t) == seq![strip_cr(a.take(i))] + lines(rest + b));
        assert(lines(a) == seq![strip_cr(a.take(i))] + lines(rest));
        assert(lines(t) =~= lines(a) + lines(b));
    }
}

/// A line without a newline, ended by one, is read back as itself, unless it
/// ends in a carriage return.
pub proof fn lemma_lines_one(l: Seq<char>)
    requires
        lacks(l, '\n'),
        l.len() == 0 || l.last() != '\r',
    ensures
        lines(l + seq!['\n']) == seq![l],
{
    let t = l + seq!['\n'];
    assert forall|k: int| 0 <= k < l.len() implies t[k] != '\n' by {
        assert(t[k] == l[k]);
    }
    lemma_index_of(t, '\n', l.len() as int);
    assert(t.take(l.len() as int) =~= l);
    let e = Seq::<char>::empty();
    assert(t.skip(l.len() + 1 as int) =~= e);
    assert(lines(e) == Seq::<Seq<char>>::empty());
    assert(strip_cr(l) == l);
    assert(lines(t) == seq![strip_cr(t.take(l.len() as int))] + lines(t.skip(l.len() + 1 as int)));
    assert(lines(t) =~= seq![l]);
}

/// One record of `git worktree list --porcelain` output for a worktree at
/// `path` on the local branch `branch`.
pub open spec fn porcelain_record(path: Seq<char>, branch: Seq<char>) -> Seq<char> {
    "worktree "@ + path + seq!['\n'] + ("branch refs/heads/"@ + branch) + seq!['\n']
}

/// The porcelain listing of the given worktrees (path, branch), in order.
pub open spec fn porcelain(rs: Seq<(Seq<char>, Seq<char>)>) -> Seq<char>
    decreases rs.len(),
{
    if rs.len() == 0 {
        Seq::empty()
    } else {
        porcelain(rs.drop_last()) + porcelain_record(rs.last().0, rs.last().1)
    }
}

/// The worktrees that a listing of `rs` stands for: each path with its
/// branch, the first one the main worktree.
pub open spec fn listed(rs: Seq<(Seq<char>, Seq<char>)>) -> Seq<WorktreeView> {
    Seq::new(
        rs.len(),
        |i: int| WorktreeView { path: rs[i].0, branch: rs[i].1, is_main: i == 0, hint: None },
    )
}

/// True when no path or branch holds a line break.
pub open spec fn plain_records(rs: Seq<(Seq<char>, Seq<char>)>) -> bool {
    forall|i: int|
        0 <= i < rs.len() ==> lacks(#[trigger] rs[i].0, '\n') && lacks(rs[i].0, '\r') && lacks(
            rs[i].1,
            '\n',
        ) && lacks(rs[i].1, '\r')
}

proof fn lemma_record_lines(p: Seq<char>, b: Seq<char>)
    requires
        lacks(p, '\n'),
        lacks(p, '\r'),
        lacks(b, '\n'),
        lacks(b, '\r'),
    ensures
        lines(porcelain_record(p, b)) == seq!["worktree "@ + p, "branch refs/heads/"@ + b],
        porcelain_record(p, b).last() == '\n',
{
    reveal_strlit("worktree ");
    reveal_strlit("branch refs/heads/");
    let l1 = "worktree "@ + p;
    let l2 = "branch refs/heads/"@ + b;
    assert(lacks(l1, '\n') && l1.last() != '\r') by {
        assert forall|k: int| 0 <= k < l1.len() implies l1[k] != '\n' by {
            if k >= 9 {
                assert(l1[k] == p[k - 9]);
            }
        }
        if p.len() > 0 {
            assert(l1.last() == p.last());
        }
    }
    assert(lacks(l2, '\n') && l2.last() != '\r') by {
        assert forall|k: int| 0 <= k < l2.len() implies l2[k] != '\n' by {
            if k >= 18 {
                assert(l2[k] == b[k - 18]);
            }
        }
        if b.len() > 0 {
            assert(l2.last() == b.last());
        }
    }
    lemma_lines_one(l1);
    lemma_lines_one(l2);
    assert(porcelain_record(p, b) =~= (l1 + seq!['\n']) + (l2 + seq!['\n']));
    lemma_lines_append(l1 + seq!['\n'], l2 + seq!['\n']);
    assert(seq![l1] + seq![l2] =~= seq![l1, l2]);
}

/// The effect of a record's two lines on what has been read.
proof fn lemma_record_steps(st: ParseState, p: Seq<char>, b: Seq<char>)
    ensures
        parse_step(parse_step(st, "worktree "@ + p), "branch refs/heads/"@ + b) == (ParseState {
            done: flush(st),
            path: Some(p),
            branch: Some(b),
        }),
{
    reveal_strlit("worktree ");
    reveal_strlit("branch refs/heads/");
    reveal_strlit("branch ");
    reveal_strlit("refs/heads/");
    let l1 = "worktree "@ + p;
    let l2 = "branch refs/heads/"@ + b;
    assert(l1.take(9) =~= "worktree "@);
    assert(l1.skip(9) =~= p);
    assert(l2.take(9) != "worktree "@) by {
        assert(l2.take(9)[0] == 'b');
    }
    assert(l2.take(7) =~= "branch "@);
    let r = l2.skip(7);
    assert(r =~= "refs/heads/"@ + b);
    assert(r.take(11) =~= "refs/heads/"@);
    assert(r.skip(11) =~= b);
}

proof fn lemma_porcelain_fold(rs: Seq<(Seq<char>, Seq<char>)>)
    requires
        plain_records(rs),
        rs.len() > 0,
    ensures
        parse_fold(lines(porcelain(rs))) == (ParseState {
            done: listed(rs.drop_last()),
            path: Some(rs.last().0),
            branch: Some(rs.last().1),
        }),
        porcelain(rs).last() == '\n',
    decreases rs.len(),
{
    let prev = rs.drop_last();
    let (p, b) = rs.last();
    assert(plain_records(prev)) by {
        assert forall|i: int| 0 <= i < prev.len() implies lacks(#[trigger] prev[i].0, '\n') && lacks(
            prev[i].0,
            '\r',
        ) && lacks(prev[i].1, '\n') && lacks(prev[i].1, '\r') by {
            assert(prev[i] == rs[i]);
        }
    }
    assert(rs[rs.len() - 1] == rs.last());
    lemma_record_lines(p, b);
    let l1 = "worktree "@ + p;
    let l2 = "branch refs/heads/"@ + b;
    let st = if prev.len() == 0 {
        ParseState { done: Seq::empty(), path: None, branch: None }
    } else {
        lemma_porcelain_fold(prev);
        ParseState { done: listed(prev.drop_last()), path: Some(prev.last().0), branch: Some(prev.last().1) }
    };
    assert(parse_fold(lines(porcelain(prev))) == st) by {
        if prev.len() == 0 {
            assert(porcelain(prev) =~= Seq::<char>::empty());
            assert(lines(porcelain(prev)) =~= Seq::<Seq<char>>::empty());
        }
    }
    lemma_lines_append(porcelain(prev), porcelain_record(p, b));
    let ls = lines(porcelain(prev)) + seq![l1, l2];
    assert(lines(porcelain(rs)) == ls);
    let a = lines(porcelain(prev));
    let a1 = a.push(l1);
    assert(ls.drop_last() =~= a1);
    assert(ls.last() == l2);
    assert(parse_fold(ls) == parse_step(parse_fold(a1), l2));
    assert(a1.drop_last() =~= a);
    assert(a1.last() == l1);
    assert(parse_fold(a1) == parse_step(parse_fold(a), l1));
    assert(parse_fold(ls) == parse_step(parse_step(st, l1), l2));
    lemma_record_steps(st, p, b);
    assert(flush(st) =~= listed(prev)) by {
        if prev.len() > 0 {
            assert(prev.drop_last().len() == prev.len() - 1);
            assert(prev[prev.len() - 1] == prev.last());
            assert forall|i: int| 0 <= i < prev.len() implies flush(st)[i] == listed(prev)[i] by {
                if i < prev.len() - 1 {
                    assert(prev.drop_last()[i] == prev[i]);
                }
            }
        }
    }
    assert(porcelain(rs).last() == porcelain_record(p, b).last());
}

/// A porcelain listing of worktrees on local branches is read back as those
/// worktrees, in order: each path as listed, each branch as the reference
/// with only `refs/heads/` removed (every `/` in it kept), and only the first
/// one marked main.
pub proof fn law_parse_listing(rs: Seq<(Seq<char>, Seq<char>)>)
    requires
        plain_records(rs),
    ensures
        parsed_worktrees(porcelain(rs)) == listed(rs),
{
    if rs.len() == 0 {
        assert(porcelain(rs) =~= Seq::<char>::empty());
        assert(lines(porcelain(rs)) =~= Seq::<Seq<char>>::empty());
        assert(listed(rs) =~= Seq::<WorktreeView>::empty());
    } else {
        lemma_porcelain_fold(rs);
        let prev = rs.drop_last();
        assert(rs[rs.len() - 1] == rs.last());
        assert forall|i: int| 0 <= i < rs.len() implies parsed_worktrees(porcelain(rs))[i] == listed(rs)[i] by {
            if i < rs.len() - 1 {
                assert(prev[i] == rs[i]);
            }
        }
        assert(parsed_worktrees(porcelain(rs)) =~= listed(rs));
    }
}

/// A local branch's name is its reference with only `refs/heads/` removed.
pub proof fn law_branch_name(b: Seq<char>)
    ensures
        branch_name("refs/heads/"@ + b) == b,
{
    reveal_strlit("refs/heads/");
    assert(("refs/heads/"@ + b).take(11) =~= "refs/heads/"@);
    assert(("refs/heads/"@ + b).skip(11) =~= b);
}

} // verus!
