//! Hints for the worktrees that Codex manages: the title of the newest chat
//! held in Codex's state database for each worktree's path.
//!
//! The database is queried for `hex(cwd)` and `hex(title)` rows, newest first;
//! this module builds the query, reads the rows back, and attaches the hints.

use vstd::prelude::*;
use vstd::utf8::{decode_utf8, encode_utf8, valid_utf8};
use crate::git::{codex_managed, home_dir, opt_view, worktree_views, Worktree, WorktreeView};
use crate::path::{join_spec, path_eq, path_eq_spec, path_join};
use crate::text::{
    chars_of, collapse_whitespace, collapse_ws, index_of, join, lines, push_char, push_text,
    split_lines, string_of, trim_end, trim_end_of, views, find_from, lemma_join_push,
    strip_prefix, strip_prefix_of, strip_suffix, strip_suffix_of, parse_u64, parse_u64_spec,
};

verus! {

/// The string that the given bytes encode in UTF-8, when they are valid UTF-8
/// (wraps `String::from_utf8`, which fails exactly on invalid UTF-8).
#[verifier::external_body]
fn utf8_string(bytes: Vec<u8>) -> (r: Option<String>)
    ensures
        r is Some <==> valid_utf8(bytes@),
        r matches Some(s) ==> s@ == decode_utf8(bytes@),
{
    String::from_utf8(bytes).ok()
}

/// The value of a hexadecimal digit.
pub open spec fn hex_digit(c: char) -> Option<u8> {
    if '0' <= c && c <= '9' {
        Some((c as u32 - '0' as u32) as u8)
    } else if 'a' <= c && c <= 'f' {
        Some((c as u32 - 'a' as u32 + 10) as u8)
    } else if 'A' <= c && c <= 'F' {
        Some((c as u32 - 'A' as u32 + 10) as u8)
    } else {
        None
    }
}

/// The byte that two characters spell in base 16, as `u8::from_str_radix`
/// reads a two-character string: two digits, or `+` and one digit.
pub open spec fn hex_pair(a: char, b: char) -> Option<u8> {
    if a == '+' {
        hex_digit(b)
    } else {
        match (hex_digit(a), hex_digit(b)) {
            (Some(x), Some(y)) => Some((x * 16 + y) as u8),
            _ => None,
        }
    }
}

/// The bytes that a string of character pairs spells in base 16.
pub open spec fn hex_bytes(s: Seq<char>) -> Option<Seq<u8>>
    decreases s.len(),
{
    if s.len() == 0 {
        Some(Seq::empty())
    } else if s.len() == 1 {
        None
    } else {
        match (hex_pair(s[0], s[1]), hex_bytes(s.skip(2))) {
            (Some(b), Some(rest)) => Some(seq![b] + rest),
            _ => None,
        }
    }
}

/// True when every character is ASCII.
pub open spec fn all_ascii(s: Seq<char>) -> bool {
    forall|k: int| 0 <= k < s.len() ==> (s[k] as u32) < 128
}

/// The text that a hex-encoded value stands for: the bytes that its character
/// pairs spell, read as UTF-8. A value with a character outside ASCII, an odd
/// length, a pair that is not a base-16 byte, or bytes that are not UTF-8
/// stands for nothing.
pub open spec fn decode_hex_spec(s: Seq<char>) -> Option<Seq<char>> {
    if !all_ascii(s) {
        None
    } else {
        match hex_bytes(s) {
            Some(b) => if valid_utf8(b) {
                Some(decode_utf8(b))
            } else {
                None
            },
            None => None,
        }
    }
}

fn hex_digit_of(c: char) -> (r: Option<u8>)
    ensures
        r == hex_digit(c),
{
    if '0' <= c && c <= '9' {
        Some((c as u32 - '0' as u32) as u8)
    } else if 'a' <= c && c <= 'f' {
        Some((c as u32 - 'a' as u32 + 10) as u8)
    } else if 'A' <= c && c <= 'F' {
        Some((c as u32 - 'A' as u32 + 10) as u8)
    } else {
        None
    }
}

fn hex_pair_of(a: char, b: char) -> (r: Option<u8>)
    ensures
        r == hex_pair(a, b),
{
    if a == '+' {
        hex_digit_of(b)
    } else {
        match (hex_digit_of(a), hex_digit_of(b)) {
            (Some(x), Some(y)) => Some(x * 16 + y),
            _ => None,
        }
    }
}

/// Decodes a hex-encoded UTF-8 string, as the database's `hex()` wrote it.
pub fn decode_hex(value: &str) -> (r: Option<String>)
    ensures
        opt_view(r) == decode_hex_spec(value@),
{
    let v = chars_of(value);
    let len = v.len();
    let mut i: usize = 0;
    while i < len
        invariant
            v@ == value@,
            len == v@.len(),
            i <= len,
            forall|k: int| 0 <= k < i ==> (v@[k] as u32) < 128,
        decreases len - i,
    {
        if v[i] as u32 >= 128 {
            return None;
        }
        i = i + 1;
    }
    if len % 2 == 1 {
        proof {
            lemma_hex_bytes_odd(v@);
        }
        return None;
    }
    let mut bytes: Vec<u8> = Vec::new();
    let mut pos: usize = 0;
    assert(v@.skip(0) =~= v@);
    while pos < len
        invariant
            v@ == value@,
            len == v@.len(),
            len % 2 == 0,
            pos % 2 == 0,
            pos <= len,
            hex_bytes(v@) == match hex_bytes(v@.skip(pos as int)) {
                Some(rest) => Some(bytes@ + rest),
                None => None::<Seq<u8>>,
            },
        decreases len - pos,
    {
        let ghost t = v@.skip(pos as int);
        assert(t[0] == v@[pos as int] && t[1] == v@[pos + 1]);
        assert(t.skip(2) =~= v@.skip(pos + 2));
        match hex_pair_of(v[pos], v[pos + 1]) {
            Some(b) => {
                let ghost before = bytes@;
                bytes.push(b);
                proof {
                    match hex_bytes(v@.skip(pos + 2)) {
                        Some(rest) => {
                            assert(before + (seq![b] + rest) =~= bytes@ + rest);
                        },
                        None => {},
                    }
                }
            },
            None => {
                return None;
            },
        }
        pos = pos + 2;
    }
    assert(v@.skip(len as int) =~= Seq::<char>::empty());
    assert(bytes@ + Seq::<u8>::empty() =~= bytes@);
    utf8_string(bytes)
}

/// The upper-case hexadecimal digit for a value below 16.
pub open spec fn upper_hex_digit(v: u8) -> char {
    if v < 10 {
        (v + 48) as char
    } else {
        (v + 55) as char
    }
}

/// Bytes as upper-case hexadecimal pairs, as the database's `hex()` writes them.
pub open spec fn hex_upper(b: Seq<u8>) -> Seq<char>
    decreases b.len(),
{
    if b.len() == 0 {
        Seq::empty()
    } else {
        seq![upper_hex_digit(b[0] / 16), upper_hex_digit(b[0] % 16)] + hex_upper(b.drop_first())
    }
}

/// A text as the database's `hex()` writes it: its UTF-8 bytes in hexadecimal.
pub open spec fn sql_hex(s: Seq<char>) -> Seq<char> {
    hex_upper(encode_utf8(s))
}

/// An odd number of characters never spells bytes.
proof fn lemma_hex_bytes_odd(s: Seq<char>)
    requires
        s.len() % 2 == 1,
    ensures
        hex_bytes(s) is None,
    decreases s.len(),
{
    if s.len() > 1 {
        lemma_hex_bytes_odd(s.skip(2));
    }
}

/// The most characters of a title that are kept.
pub open spec fn max_title_chars() -> nat {
    80
}

/// A chat title as shown beside a worktree: its words joined by single spaces,
/// and, when that is longer than 80 characters, the first 80 of them without
/// trailing whitespace followed by `…`.
pub open spec fn normalize_title_spec(title: Seq<char>) -> Seq<char> {
    let c = collapse_ws(title);
    if c.len() > max_title_chars() {
        trim_end(c.take(max_title_chars() as int)).push('…')
    } else {
        c
    }
}

/// Normalizes a chat title for display.
pub fn normalize_title(title: &str) -> (r: String)
    ensures
        r@ == normalize_title_spec(title@),
{
    let c = collapse_whitespace(title);
    let v = chars_of(c.as_str());
    if v.len() > 80 {
        let e = trim_end_of(&v, 80);
        let mut r = string_of(&v, 0, e);
        assert(r@ =~= v@.take(e as int));
        push_char(&mut r, '…');
        r
    } else {
        c
    }
}

/// The hint a row of the query's output gives: the decoded path and the
/// normalized title, when the row has a tab, both halves decode, and the
/// title is not empty after normalizing.
pub open spec fn hint_row(line: Seq<char>) -> Option<(Seq<char>, Seq<char>)> {
    let i = index_of(line, '\t');
    if i >= line.len() || i < 0 {
        None
    } else {
        match (decode_hex_spec(line.take(i)), decode_hex_spec(line.skip(i + 1))) {
            (Some(p), Some(t)) => {
                let n = normalize_title_spec(t);
                if n.len() == 0 {
                    None
                } else {
                    Some((p, n))
                }
            },
            _ => None,
        }
    }
}

/// The hints that the given lines give, in order.
pub open spec fn hint_rows(ls: Seq<Seq<char>>) -> Seq<(Seq<char>, Seq<char>)>
    decreases ls.len(),
{
    if ls.len() == 0 {
        Seq::empty()
    } else {
        let rest = hint_rows(ls.drop_last());
        match hint_row(ls.last()) {
            Some(h) => rest.push(h),
            None => rest,
        }
    }
}

/// True when `entries` holds a path equal to `p`, component by component.
pub open spec fn has_path(entries: Seq<(Seq<char>, Seq<char>)>, p: Seq<char>) -> bool {
    exists|k: int| 0 <= k < entries.len() && path_eq_spec(#[trigger] entries[k].0, p)
}

/// The rows with each path's first row kept and later rows for an equal path dropped.
pub open spec fn first_per_path(rows: Seq<(Seq<char>, Seq<char>)>) -> Seq<(Seq<char>, Seq<char>)>
    decreases rows.len(),
{
    if rows.len() == 0 {
        Seq::empty()
    } else {
        let kept = first_per_path(rows.drop_last());
        if has_path(kept, rows.last().0) {
            kept
        } else {
            kept.push(rows.last())
        }
    }
}

/// The title of the first entry whose path equals `p`.
pub open spec fn hint_for(entries: Seq<(Seq<char>, Seq<char>)>, p: Seq<char>) -> Option<Seq<char>>
    decreases entries.len(),
{
    if entries.len() == 0 {
        None
    } else if path_eq_spec(entries[0].0, p) {
        Some(entries[0].1)
    } else {
        hint_for(entries.drop_first(), p)
    }
}

/// Hints for worktree paths: each path at most once, with its title.
pub struct HintMap {
    entries: Vec<(String, String)>,
}

impl View for HintMap {
    type V = Seq<(Seq<char>, Seq<char>)>;

    closed spec fn view(&self) -> Seq<(Seq<char>, Seq<char>)> {
        self.entries@.map_values(|e: (String, String)| (e.0@, e.1@))
    }
}

/// True when no two entries hold equal paths.
pub open spec fn distinct_paths(entries: Seq<(Seq<char>, Seq<char>)>) -> bool {
    forall|i: int, j: int|
        0 <= i < j < entries.len() ==> !path_eq_spec(#[trigger] entries[i].0, #[trigger] entries[j].0)
}

impl HintMap {
    /// A map with no hints.
    pub fn new() -> (m: HintMap)
        ensures
            m@ == Seq::<(Seq<char>, Seq<char>)>::empty(),
    {
        let m = HintMap { entries: Vec::new() };
        assert(m@ =~= Seq::<(Seq<char>, Seq<char>)>::empty());
        m
    }

    /// The number of paths with a hint.
    pub fn len(&self) -> (n: usize)
        ensures
            n == self@.len(),
    {
        self.entries.len()
    }

    /// True when no path has a hint.
    pub fn is_empty(&self) -> (b: bool)
        ensures
            b == (self@.len() == 0),
    {
        self.entries.len() == 0
    }

    /// The index of the entry whose path equals `path`, if any.
    fn position(&self, path: &str) -> (r: Option<usize>)
        ensures
            r matches Some(i) ==> i < self@.len() && path_eq_spec(self@[i as int].0, path@)
                && forall|k: int| 0 <= k < i ==> !path_eq_spec(self@[k].0, path@),
            r is None ==> forall|k: int| 0 <= k < self@.len() ==> !path_eq_spec(self@[k].0, path@),
    {
        let mut i: usize = 0;
        while i < self.entries.len()
            invariant
                i <= self@.len(),
                self@.len() == self.entries@.len(),
                forall|k: int| 0 <= k < i ==> !path_eq_spec(self@[k].0, path@),
            decreases self@.len() - i,
        {
            assert(self@[i as int].0 == self.entries@[i as int].0@);
            if path_eq(self.entries[i].0.as_str(), path) {
                return Some(i);
            }
            i = i + 1;
        }
        None
    }

    /// The hint for `path`, matched component by component.
    pub fn get(&self, path: &str) -> (r: Option<String>)
        ensures
            opt_view(r) == hint_for(self@, path@),
    {
        let r = self.position(path);
        proof {
            lemma_hint_for(self@, path@);
        }
        match r {
            Some(i) => {
                assert(self@[i as int].1 == self.entries@[i as int].1@);
                Some(self.entries[i].1.clone())
            },
            None => None,
        }
    }

    /// Adds a hint for `path` unless one for an equal path is already held
    /// (`HashMap::entry(..).or_insert(..)`).
    pub fn insert_if_absent(&mut self, path: String, title: String)
        ensures
            final(self)@ == if has_path(old(self)@, path@) {
                old(self)@
            } else {
                old(self)@.push((path@, title@))
            },
    {
        match self.position(path.as_str()) {
            Some(i) => {
                assert(path_eq_spec(old(self)@[i as int].0, path@));
            },
            None => {
                let ghost before = self@;
                self.entries.push((path, title));
                assert(self@ =~= before.push((path@, title@)));
            },
        }
    }
}

/// `hint_for` finds the first entry with an equal path.
proof fn lemma_hint_for(entries: Seq<(Seq<char>, Seq<char>)>, p: Seq<char>)
    ensures
        forall|i: int|
            0 <= i < entries.len() && path_eq_spec(entries[i].0, p) && (forall|k: int|
                0 <= k < i ==> !path_eq_spec(#[trigger] entries[k].0, p)) ==> hint_for(entries, p)
                == Some(entries[i].1),
        (forall|k: int| 0 <= k < entries.len() ==> !path_eq_spec(#[trigger] entries[k].0, p))
            ==> hint_for(entries, p) is None,
    decreases entries.len(),
{
    if entries.len() > 0 {
        lemma_hint_for(entries.drop_first(), p);
        assert forall|i: int|
            0 <= i < entries.len() && path_eq_spec(entries[i].0, p) && (forall|k: int|
                0 <= k < i ==> !path_eq_spec(#[trigger] entries[k].0, p)) implies hint_for(
            entries,
            p,
        ) == Some(entries[i].1) by {
            if i > 0 {
                assert(!path_eq_spec(entries[0].0, p));
                assert(entries.drop_first()[i - 1] == entries[i]);
                assert forall|k: int| 0 <= k < i - 1 implies !path_eq_spec(
                    #[trigger] entries.drop_first()[k].0,
                    p,
                ) by {
                    assert(entries.drop_first()[k] == entries[k + 1]);
                }
            }
        }
        if forall|k: int| 0 <= k < entries.len() ==> !path_eq_spec(#[trigger] entries[k].0, p) {
            assert(!path_eq_spec(entries[0].0, p));
            assert forall|k: int| 0 <= k < entries.len() - 1 implies !path_eq_spec(
                #[trigger] entries.drop_first()[k].0,
                p,
            ) by {
                assert(entries.drop_first()[k] == entries[k + 1]);
            }
        }
    }
}

/// Reads the query's output: one hint per path, from the first (newest)
/// usable row for it. Rows without a tab, with a half that does not decode,
/// or with an empty title are skipped.
pub fn parse_hint_rows(output: &str) -> (m: HintMap)
    ensures
        m@ == first_per_path(hint_rows(lines(output@))),
{
    let ls = split_lines(output);
    let ghost lv = views(ls@);
    let mut m = HintMap::new();
    let mut i: usize = 0;
    assert(lv.take(0) =~= Seq::<Seq<char>>::empty());
    while i < ls.len()
        invariant
            lv == views(ls@),
            lv == lines(output@),
            i <= ls@.len(),
            m@ == first_per_path(hint_rows(lv.take(i as int))),
        decreases ls@.len() - i,
    {
        assert(lv.take(i + 1).drop_last() =~= lv.take(i as int));
        assert(lv.take(i + 1).last() == ls@[i as int]@);
        let ghost rows_before = hint_rows(lv.take(i as int));
        let line = ls[i].as_str();
        let v = chars_of(line);
        assert(v@.skip(0) =~= v@);
        let t = find_from(&v, '\t', 0);
        if t < v.len() {
            let p = string_of(&v, 0, t);
            let q = string_of(&v, t + 1, v.len());
            assert(p@ =~= v@.take(t as int));
            assert(q@ =~= v@.skip(t + 1));
            match (decode_hex(p.as_str()), decode_hex(q.as_str())) {
                (Some(path), Some(title)) => {
                    let n = normalize_title(title.as_str());
                    let nv = chars_of(n.as_str());
                    if nv.len() > 0 {
                        m.insert_if_absent(path, n);
                        assert(hint_rows(lv.take(i + 1)) == rows_before.push((path@, n@)));
                        assert(rows_before.push((path@, n@)).drop_last() =~= rows_before);
                    } else {
                        assert(hint_rows(lv.take(i + 1)) == rows_before);
                    }
                },
                _ => {
                    assert(hint_rows(lv.take(i + 1)) == rows_before);
                },
            }
        } else {
            assert(hint_rows(lv.take(i + 1)) == rows_before);
        }
        i = i + 1;
    }
    assert(lv.take(i as int) =~= lv);
    m
}

/// `s` with each single quote doubled.
pub open spec fn double_quotes(s: Seq<char>) -> Seq<char>
    decreases s.len(),
{
    if s.len() == 0 {
        Seq::empty()
    } else {
        double_quotes(s.drop_last()) + if s.last() == '\'' {
            seq!['\'', '\'']
        } else {
            seq![s.last()]
        }
    }
}

/// The value of the rest of an SQL string literal after its opening quote:
/// a doubled quote stands for one quote, and the literal ends at the first
/// quote that is not doubled, which must be the last character.
pub open spec fn sql_literal_rest(t: Seq<char>) -> Option<Seq<char>>
    decreases t.len(),
{
    if t.len() == 0 {
        None
    } else if t[0] == '\'' {
        if t.len() == 1 {
            Some(Seq::empty())
        } else if t[1] == '\'' {
            match sql_literal_rest(t.skip(2)) {
                Some(v) => Some(seq!['\''] + v),
                None => None,
            }
        } else {
            None
        }
    } else {
        match sql_literal_rest(t.drop_first()) {
            Some(v) => Some(seq![t[0]] + v),
            None => None,
        }
    }
}

/// The string an SQL string literal stands for, when `lit` is exactly one literal.
pub open spec fn sql_string_value(lit: Seq<char>) -> Option<Seq<char>> {
    if lit.len() > 0 && lit[0] == '\'' {
        sql_literal_rest(lit.drop_first())
    } else {
        None
    }
}

/// `s` as an SQL string literal: in single quotes, with each quote doubled.
pub open spec fn quote_sql_spec(s: Seq<char>) -> Seq<char> {
    seq!['\''] + double_quotes(s) + seq!['\'']
}

/// Quotes a string as an SQL string literal.
pub fn quote_sql_string(value: &str) -> (r: String)
    ensures
        r@ == quote_sql_spec(value@),
{
    let v = chars_of(value);
    let mut r = String::new();
    push_char(&mut r, '\'');
    let mut i: usize = 0;
    assert(v@.take(0) =~= Seq::<char>::empty());
    while i < v.len()
        invariant
            v@ == value@,
            i <= v@.len(),
            r@ == seq!['\''] + double_quotes(v@.take(i as int)),
        decreases v@.len() - i,
    {
        let ghost before = r@;
        assert(v@.take(i + 1).drop_last() =~= v@.take(i as int));
        if v[i] == '\'' {
            push_char(&mut r, '\'');
            push_char(&mut r, '\'');
        } else {
            push_char(&mut r, v[i]);
        }
        assert(r@ =~= seq!['\''] + double_quotes(v@.take(i + 1)));
        i = i + 1;
    }
    assert(v@.take(i as int) =~= v@);
    push_char(&mut r, '\'');
    assert(r@ =~= quote_sql_spec(value@));
    r
}

/// The paths, each quoted as an SQL string literal.
pub open spec fn quoted_paths(paths: Seq<Seq<char>>) -> Seq<Seq<char>> {
    paths.map_values(|p: Seq<char>| quote_sql_spec(p))
}

/// The query for the newest titled chats whose directory is one of `paths`,
/// as hex-encoded `cwd, title` rows, newest first.
pub open spec fn hint_query_spec(paths: Seq<Seq<char>>) -> Seq<char> {
    "SELECT hex(cwd), hex(title) FROM threads WHERE cwd IN ("@ + join(quoted_paths(paths), ", "@)
        + ") AND title != '' AND substr(source, 1, 1) != '{' ORDER BY updated_at DESC;"@
}

/// The query that looks up hints for the given worktree paths; `None` when
/// there is no path to ask about.
pub fn hint_query(paths: &Vec<String>) -> (r: Option<String>)
    ensures
        r is None <==> paths@.len() == 0,
        r matches Some(q) ==> q@ == hint_query_spec(views(paths@)),
{
    if paths.len() == 0 {
        return None;
    }
    let ghost pv = views(paths@);
    let mut q = "SELECT hex(cwd), hex(title) FROM threads WHERE cwd IN (".to_string();
    let ghost head = q@;
    let mut i: usize = 0;
    assert(quoted_paths(pv).take(0) =~= Seq::<Seq<char>>::empty());
    while i < paths.len()
        invariant
            pv == views(paths@),
            i <= paths@.len(),
            q@ == head + join(quoted_paths(pv).take(i as int), ", "@),
        decreases paths@.len() - i,
    {
        let ghost done = quoted_paths(pv).take(i as int);
        let quoted = quote_sql_string(paths[i].as_str());
        assert(quoted@ == quoted_paths(pv)[i as int]);
        assert(quoted_paths(pv).take(i + 1) =~= done.push(quoted@));
        if i > 0 {
            push_text(&mut q, ", ");
            proof {
                lemma_join_push(done, ", "@, quoted@);
            }
        } else {
            assert(done.push(quoted@) =~= seq![quoted@]);
        }
        push_text(&mut q, quoted.as_str());
        assert(q@ =~= head + join(quoted_paths(pv).take(i + 1), ", "@));
        i = i + 1;
    }
    assert(quoted_paths(pv).take(i as int) =~= quoted_paths(pv));
    push_text(&mut q, ") AND title != '' AND substr(source, 1, 1) != '{' ORDER BY updated_at DESC;");
    assert(q@ =~= hint_query_spec(pv));
    Some(q)
}

/// The paths of the worktrees that Codex manages, in order.
pub open spec fn codex_paths(ws: Seq<WorktreeView>) -> Seq<Seq<char>>
    decreases ws.len(),
{
    if ws.len() == 0 {
        Seq::empty()
    } else {
        let rest = codex_paths(ws.drop_last());
        if codex_managed(ws.last()) {
            rest.push(ws.last().path)
        } else {
            rest
        }
    }
}

/// The paths to look hints up for: those of the worktrees that Codex manages.
pub fn codex_hint_paths(worktrees: &Vec<Worktree>) -> (r: Vec<String>)
    ensures
        views(r@) == codex_paths(worktree_views(worktrees@)),
{
    let ghost wv = worktree_views(worktrees@);
    let mut r: Vec<String> = Vec::new();
    let mut i: usize = 0;
    assert(wv.take(0) =~= Seq::<WorktreeView>::empty());
    assert(views(r@) =~= Seq::<Seq<char>>::empty());
    while i < worktrees.len()
        invariant
            wv == worktree_views(worktrees@),
            i <= worktrees@.len(),
            views(r@) == codex_paths(wv.take(i as int)),
        decreases worktrees@.len() - i,
    {
        assert(wv.take(i + 1).drop_last() =~= wv.take(i as int));
        assert(wv.take(i + 1).last() == worktrees@[i as int]@);
        if worktrees[i].is_codex_managed() {
            let ghost before = views(r@);
            r.push(worktrees[i].path.clone());
            assert(views(r@) =~= before.push(worktrees@[i as int]@.path));
        }
        i = i + 1;
    }
    assert(wv.take(i as int) =~= wv);
    r
}

/// A worktree with the hint for its path attached, when the map holds one.
pub open spec fn with_hint(w: WorktreeView, hints: Seq<(Seq<char>, Seq<char>)>) -> WorktreeView {
    match hint_for(hints, w.path) {
        Some(t) => WorktreeView { hint: Some(t), ..w },
        None => w,
    }
}

/// Attaches to each worktree the hint held for its path, if any.
pub fn attach_worktree_hints(worktrees: &mut Vec<Worktree>, hints: &HintMap)
    ensures
        final(worktrees)@.len() == old(worktrees)@.len(),
        forall|k: int|
            0 <= k < old(worktrees)@.len() ==> (#[trigger] final(worktrees)@[k])@ == with_hint(
                old(worktrees)@[k]@,
                hints@,
            ),
{
    let mut i: usize = 0;
    while i < worktrees.len()
        invariant
            i <= worktrees@.len(),
            worktrees@.len() == old(worktrees)@.len(),
            forall|k: int|
                0 <= k < i ==> (#[trigger] worktrees@[k])@ == with_hint(old(worktrees)@[k]@, hints@),
            forall|k: int| i <= k < worktrees@.len() ==> #[trigger] worktrees@[k] == old(worktrees)@[k],
        decreases worktrees@.len() - i,
    {
        match hints.get(worktrees[i].path.as_str()) {
            Some(h) => {
                let mut w = worktrees[i].duplicate();
                w.set_hint(h);
                worktrees.set(i, w);
            },
            None => {},
        }
        i = i + 1;
    }
}

/// The version in a state database's file name `state_<version>.sqlite`.
pub open spec fn state_database_version_spec(file_name: Seq<char>) -> Option<u64> {
    match strip_prefix(file_name, "state_"@) {
        Some(rest) => match strip_suffix(rest, ".sqlite"@) {
            Some(v) => parse_u64_spec(v),
            None => None,
        },
        None => None,
    }
}

/// The version in a state database's file name `state_<version>.sqlite`, if
/// the name has that form.
pub fn state_database_version(file_name: &str) -> (r: Option<u64>)
    ensures
        r == state_database_version_spec(file_name@),
{
    let rest = match strip_prefix_of(file_name, "state_") {
        Some(rest) => rest,
        None => return None,
    };
    let v = match strip_suffix_of(rest.as_str(), ".sqlite") {
        Some(v) => v,
        None => return None,
    };
    parse_u64(v.as_str())
}

/// The index of the state database to read: the one with the highest
/// version, the last of them when several share it (`Iterator::max_by_key`).
pub open spec fn latest_database(names: Seq<Seq<char>>) -> Option<int>
    decreases names.len(),
{
    if names.len() == 0 {
        None
    } else {
        let prev = latest_database(names.drop_last());
        match state_database_version_spec(names.last()) {
            None => prev,
            Some(v) => match prev {
                None => Some(names.len() - 1),
                Some(p) => match state_database_version_spec(names[p]) {
                    Some(w) => if v >= w {
                        Some(names.len() - 1)
                    } else {
                        prev
                    },
                    None => Some(names.len() - 1),
                },
            },
        }
    }
}

/// Picks, among the file names of Codex's home directory, the state database
/// with the highest version (the last of equals), by index.
pub fn latest_state_database(file_names: &Vec<String>) -> (r: Option<usize>)
    ensures
        r matches Some(i) ==> latest_database(views(file_names@)) == Some(i as int),
        r is None ==> latest_database(views(file_names@)) is None,
{
    let ghost nv = views(file_names@);
    let mut best: Option<usize> = None;
    let mut best_version: u64 = 0;
    let mut i: usize = 0;
    assert(nv.take(0) =~= Seq::<Seq<char>>::empty());
    while i < file_names.len()
        invariant
            nv == views(file_names@),
            i <= file_names@.len(),
            best matches Some(b) ==> latest_database(nv.take(i as int)) == Some(b as int)
                && b < i && state_database_version_spec(nv[b as int]) == Some(best_version),
            best is None ==> latest_database(nv.take(i as int)) is None,
        decreases file_names@.len() - i,
    {
        let ghost t = nv.take(i + 1);
        assert(t.drop_last() =~= nv.take(i as int));
        assert(t.last() == file_names@[i as int]@);
        proof {
            match best {
                Some(b) => {
                    assert(t[b as int] == nv[b as int]);
                },
                None => {},
            }
        }
        match state_database_version(file_names[i].as_str()) {
            Some(v) => {
                match best {
                    Some(_) => {
                        if v >= best_version {
                            best = Some(i);
                            best_version = v;
                        }
                    },
                    None => {
                        best = Some(i);
                        best_version = v;
                    },
                }
            },
            None => {},
        }
        i = i + 1;
    }
    assert(nv.take(i as int) =~= nv);
    best
}

/// Codex's home directory: `$CODEX_HOME` when it is set, otherwise `.codex`
/// in the user's home directory; `None` when neither is known.
pub fn codex_home(codex_home_var: Option<&str>) -> (r: Option<String>)
    ensures
        codex_home_var matches Some(v) ==> (r matches Some(h) && h@ == v@),
        codex_home_var is None ==> (r matches Some(h) ==> exists|home: Seq<char>|
            h@ == join_spec(home, ".codex"@)),
{
    match codex_home_var {
        Some(v) => Some(v.to_string()),
        None => match home_dir() {
            Some(home) => Some(path_join(home.as_str(), ".codex")),
            None => None,
        },
    }
}

} // verus!
