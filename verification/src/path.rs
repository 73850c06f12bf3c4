//! Paths held as text, compared component by component the way
//! `std::path::Path` documents it for Unix paths: repeated separators and
//! `.` segments are normalized away (a `.` at the very start of a relative
//! path stays as the current-directory component), and a trailing separator
//! is ignored.
//!
//! A component is represented by its text: the root directory by `/`, the
//! current directory by `.`, the parent directory by `..`, and a normal
//! component by its name (never empty, never `.` or `..`, never holding `/`).

use vstd::prelude::*;
use crate::text::{chars_of, find_from, index_of, push_char, string_from_chars, string_of, views};

verus! {

/// The components of the segments of `s` (the text after any root), split at `/`:
/// empty and `.` segments dropped, `..` kept only when `keep_parent` holds.
pub open spec fn segment_components(s: Seq<char>, keep_parent: bool) -> Seq<Seq<char>>
    decreases s.len(),
{
    let i = index_of(s, '/');
    let seg = s.take(i);
    let head = if seg.len() == 0 || seg == seq!['.'] || (!keep_parent && seg == seq!['.', '.']) {
        Seq::<Seq<char>>::empty()
    } else {
        seq![seg]
    };
    if i >= s.len() || i < 0 {
        head
    } else {
        head + segment_components(s.skip(i + 1), keep_parent)
    }
}

/// True when the path is absolute (starts with the separator).
pub open spec fn has_root(p: Seq<char>) -> bool {
    p.len() > 0 && p[0] == '/'
}

/// True when a relative path starts with the current directory `.`.
pub open spec fn starts_with_cur_dir(p: Seq<char>) -> bool {
    p.len() > 0 && p[0] == '.' && (p.len() == 1 || p[1] == '/')
}

/// The components of a path (`Path::components`).
pub open spec fn components(p: Seq<char>) -> Seq<Seq<char>> {
    let front = if has_root(p) {
        seq![seq!['/']]
    } else if starts_with_cur_dir(p) {
        seq![seq!['.']]
    } else {
        Seq::<Seq<char>>::empty()
    };
    front + segment_components(p, true)
}

/// The normal components of a path, in order (`Component::Normal`).
pub open spec fn normal_components(p: Seq<char>) -> Seq<Seq<char>> {
    segment_components(p, false)
}

/// Two paths are equal when their components are (`Path == Path`).
pub open spec fn path_eq_spec(a: Seq<char>, b: Seq<char>) -> bool {
    components(a) == components(b)
}

/// `child`'s components end `p`'s components (`Path::ends_with`).
pub open spec fn ends_with_spec(p: Seq<char>, child: Seq<char>) -> bool {
    let a = components(p);
    let b = components(child);
    b.len() <= a.len() && a.skip(a.len() - b.len()) == b
}

/// `base`'s components begin `p`'s components (`Path::starts_with`).
pub open spec fn starts_with_spec(p: Seq<char>, base: Seq<char>) -> bool {
    let a = components(p);
    let b = components(base);
    b.len() <= a.len() && a.take(b.len() as int) == b
}

/// True for the text of a normal component.
pub open spec fn is_normal(c: Seq<char>) -> bool {
    c != seq!['/'] && c != seq!['.'] && c != seq!['.', '.']
}

/// The final component when it is a normal one (`Path::file_name`).
pub open spec fn file_name_spec(p: Seq<char>) -> Option<Seq<char>> {
    let a = components(p);
    if a.len() > 0 && is_normal(a.last()) {
        Some(a.last())
    } else {
        None
    }
}

/// `x` appended to `base` as by `PathBuf::push`: an absolute `x` replaces
/// `base`; otherwise a separator is put between them when `base` is not empty
/// and does not already end with one.
pub open spec fn join_spec(base: Seq<char>, x: Seq<char>) -> Seq<char> {
    if has_root(x) {
        x
    } else if base.len() > 0 && base.last() != '/' {
        base + seq!['/'] + x
    } else {
        base + x
    }
}

/// Components of the segments of `v[start..]`.
fn segment_components_from(v: &Vec<char>, start: usize, keep_parent: bool) -> (out: Vec<String>)
    requires
        start <= v@.len(),
    ensures
        views(out@) == segment_components(v@.skip(start as int), keep_parent),
{
    let len = v.len();
    let mut out: Vec<String> = Vec::new();
    let mut pos: usize = start;
    let ghost whole = v@.skip(start as int);
    let mut done = false;
    assert(views(out@) =~= Seq::<Seq<char>>::empty());
    while !done
        invariant
            len == v@.len(),
            start <= pos <= len,
            whole == v@.skip(start as int),
            !done ==> segment_components(whole, keep_parent) == views(out@)
                + segment_components(v@.skip(pos as int), keep_parent),
            done ==> segment_components(whole, keep_parent) == views(out@),
        decreases len - pos + (if done { 0int } else { 1int }),
    {
        let ghost t = v@.skip(pos as int);
        let ghost old_out = views(out@);
        let j = find_from(v, '/', pos);
        let seg_len = j - pos;
        let is_dot = seg_len == 1 && v[pos] == '.';
        let is_dotdot = seg_len == 2 && v[pos] == '.' && v[pos + 1] == '.';
        let skip = seg_len == 0 || is_dot || (!keep_parent && is_dotdot);
        let ghost seg = t.take(j - pos);
        assert(seg =~= v@.subrange(pos as int, j as int));
        proof {
            if seg_len == 1 {
                assert(is_dot == (seg == seq!['.'])) by {
                    if seg == seq!['.'] {
                        assert(seg[0] == '.');
                    }
                    if is_dot {
                        assert(seg =~= seq!['.']);
                    }
                }
            } else {
                assert(seg.len() != 1);
                assert(seg != seq!['.']);
            }
            if seg_len == 2 {
                assert(is_dotdot == (seg == seq!['.', '.'])) by {
                    if seg == seq!['.', '.'] {
                        assert(seg[0] == '.' && seg[1] == '.');
                    }
                    if is_dotdot {
                        assert(seg =~= seq!['.', '.']);
                    }
                }
            } else {
                assert(seg != seq!['.', '.']);
            }
        }
        if !skip {
            let piece = string_of(v, pos, j);
            out.push(piece);
        }
        assert(views(out@) =~= old_out + (if skip { Seq::<Seq<char>>::empty() } else { seq![seg] }));
        if j < len {
            assert(t.skip(j - pos + 1) =~= v@.skip(j + 1));
            pos = j + 1;
        } else {
            assert(t.take(j - pos) =~= t);
            done = true;
            pos = len;
        }
    }
    out
}

/// The components of a path (`Path::components`), by their text.
pub fn components_of(p: &str) -> (out: Vec<String>)
    ensures
        views(out@) == components(p@),
{
    let v = chars_of(p);
    let len = v.len();
    let mut out: Vec<String> = Vec::new();
    if len > 0 && v[0] == '/' {
        let mut r = String::new();
        push_char(&mut r, '/');
        out.push(r);
    } else if len > 0 && v[0] == '.' && (len == 1 || v[1] == '/') {
        let mut r = String::new();
        push_char(&mut r, '.');
        out.push(r);
    }
    let ghost front = views(out@);
    assert(v@.skip(0) =~= v@);
    let rest = segment_components_from(&v, 0, true);
    let mut i: usize = 0;
    while i < rest.len()
        invariant
            views(out@) == front + views(rest@).take(i as int),
            i <= rest@.len(),
        decreases rest@.len() - i,
    {
        let ghost before = views(out@);
        out.push(rest[i].clone());
        assert(views(out@) =~= before.push(rest@[i as int]@));
        assert(views(rest@).take(i + 1) =~= views(rest@).take(i as int).push(rest@[i as int]@));
        assert(views(out@) =~= front + views(rest@).take(i + 1));
        i = i + 1;
    }
    assert(views(rest@).take(i as int) =~= views(rest@));
    proof {
        if has_root(p@) {
            assert(front =~= seq![seq!['/']]);
        } else if starts_with_cur_dir(p@) {
            assert(front =~= seq![seq!['.']]);
        } else {
            assert(front =~= Seq::<Seq<char>>::empty());
        }
    }
    out
}

/// The normal components of a path, by their text.
pub fn normal_components_of(p: &str) -> (out: Vec<String>)
    ensures
        views(out@) == normal_components(p@),
{
    let v = chars_of(p);
    assert(v@.skip(0) =~= v@);
    segment_components_from(&v, 0, false)
}

/// True when two vectors of strings hold the same texts.
pub fn same_strings(a: &Vec<String>, b: &Vec<String>) -> (r: bool)
    ensures
        r == (views(a@) == views(b@)),
{
    if a.len() != b.len() {
        assert(views(a@).len() != views(b@).len());
        return false;
    }
    let mut i: usize = 0;
    while i < a.len()
        invariant
            a@.len() == b@.len(),
            i <= a@.len(),
            forall|k: int| 0 <= k < i ==> a@[k]@ == b@[k]@,
        decreases a@.len() - i,
    {
        if a[i] != b[i] {
            assert(views(a@)[i as int] != views(b@)[i as int]);
            return false;
        }
        i = i + 1;
    }
    assert(views(a@) =~= views(b@));
    true
}

/// True when the paths are equal component by component (`Path == Path`).
pub fn path_eq(a: &str, b: &str) -> (r: bool)
    ensures
        r == path_eq_spec(a@, b@),
{
    let ca = components_of(a);
    let cb = components_of(b);
    same_strings(&ca, &cb)
}

/// True when `child` ends `p`, whole components only (`Path::ends_with`).
pub fn path_ends_with(p: &str, child: &str) -> (r: bool)
    ensures
        r == ends_with_spec(p@, child@),
{
    let a = components_of(p);
    let b = components_of(child);
    if b.len() > a.len() {
        return false;
    }
    let off = a.len() - b.len();
    let mut i: usize = 0;
    while i < b.len()
        invariant
            off + b@.len() == a@.len(),
            a@.len() <= usize::MAX,
            views(a@) == components(p@),
            views(b@) == components(child@),
            i <= b@.len(),
            forall|k: int| 0 <= k < i ==> a@[off + k]@ == b@[k]@,
        decreases b@.len() - i,
    {
        let k = off + i;
        if !(a[k] == b[i]) {
            assert(views(a@).skip(off as int)[i as int] == a@[off + i]@);
            assert(views(b@)[i as int] == b@[i as int]@);
            assert(views(a@).skip(off as int) != views(b@));
            return false;
        }
        i = i + 1;
    }
    assert(views(a@).skip(off as int) =~= views(b@));
    true
}

/// True when `base` begins `p`, whole components only (`Path::starts_with`).
pub fn path_starts_with(p: &str, base: &str) -> (r: bool)
    ensures
        r == starts_with_spec(p@, base@),
{
    let a = components_of(p);
    let b = components_of(base);
    if b.len() > a.len() {
        return false;
    }
    let mut i: usize = 0;
    while i < b.len()
        invariant
            b@.len() <= a@.len(),
            views(a@) == components(p@),
            views(b@) == components(base@),
            i <= b@.len(),
            forall|k: int| 0 <= k < i ==> a@[k]@ == b@[k]@,
        decreases b@.len() - i,
    {
        if !(a[i] == b[i]) {
            assert(views(a@).take(b@.len() as int)[i as int] == a@[i as int]@);
            assert(views(b@)[i as int] == b@[i as int]@);
            assert(views(a@).take(b@.len() as int) != views(b@));
            return false;
        }
        i = i + 1;
    }
    assert(views(a@).take(b@.len() as int) =~= views(b@));
    true
}

/// The final component of a path when it is a normal one (`Path::file_name`).
pub fn file_name(p: &str) -> (r: Option<String>)
    ensures
        r matches Some(s) ==> file_name_spec(p@) == Some(s@),
        r is None ==> file_name_spec(p@) is None,
{
    let a = components_of(p);
    if a.len() == 0 {
        return None;
    }
    let last = a[a.len() - 1].clone();
    let lv = chars_of(last.as_str());
    let n = lv.len();
    assert(views(a@).last() == last@);
    let root = n == 1 && lv[0] == '/';
    let dot = n == 1 && lv[0] == '.';
    let dotdot = n == 2 && lv[0] == '.' && lv[1] == '.';
    proof {
        if last@ == seq!['/'] { assert(lv@[0] == '/'); }
        if last@ == seq!['.'] { assert(lv@[0] == '.'); }
        if last@ == seq!['.', '.'] { assert(lv@[0] == '.' && lv@[1] == '.'); }
        if root { assert(last@ =~= seq!['/']); }
        if dot { assert(last@ =~= seq!['.']); }
        if dotdot { assert(last@ =~= seq!['.', '.']); }
    }
    if root || dot || dotdot {
        None
    } else {
        Some(last)
    }
}

/// `x` appended to `base` as by `PathBuf::push`.
pub fn path_join(base: &str, x: &str) -> (r: String)
    ensures
        r@ == join_spec(base@, x@),
{
    let xv = chars_of(x);
    let bv = chars_of(base);
    if xv.len() > 0 && xv[0] == '/' {
        return string_from_chars(&xv);
    }
    let mut out = string_from_chars(&bv);
    if bv.len() > 0 && bv[bv.len() - 1] != '/' {
        push_char(&mut out, '/');
    }
    let mut i: usize = 0;
    let ghost start = out@;
    while i < xv.len()
        invariant
            i <= xv@.len(),
            out@ == start + xv@.take(i as int),
        decreases xv@.len() - i,
    {
        push_char(&mut out, xv[i]);
        assert(xv@.take(i + 1) =~= xv@.take(i as int).push(xv@[i as int]));
        i = i + 1;
    }
    assert(xv@.take(i as int) =~= xv@);
    out
}

} // verus!
