//! Character-level string helpers with specifications over `Seq<char>`.
//!
//! The line splitting, trimming and whitespace handling here follow the
//! documented behaviour of `str::lines`, `str::trim` and `char::is_whitespace`.

use vstd::prelude::*;

verus! {

/// Appends one character to a `String` (wraps `String::push`).
#[verifier::external_body]
pub(crate) fn push_char(s: &mut String, c: char)
    ensures
        final(s)@ == old(s)@.push(c),
{
    s.push(c);
}

/// The characters of a string slice, in order.
pub fn chars_of(s: &str) -> (v: Vec<char>)
    ensures
        v@ == s@,
{
    let mut v: Vec<char> = Vec::new();
    for c in it: s.chars()
        invariant
            v@ == it.seq().take(it.index() as int),
    {
        v.push(c);
    }
    v
}

/// A `String` holding the characters `v[from..to]`.
pub fn string_of(v: &Vec<char>, from: usize, to: usize) -> (s: String)
    requires
        from <= to <= v@.len(),
    ensures
        s@ == v@.subrange(from as int, to as int),
{
    let mut s = String::new();
    let mut i = from;
    while i < to
        invariant
            from <= i <= to <= v@.len(),
            s@ == v@.subrange(from as int, i as int),
        decreases to - i,
    {
        push_char(&mut s, v[i]);
        assert(v@.subrange(from as int, i + 1) =~= v@.subrange(from as int, i as int).push(v@[i as int]));
        i = i + 1;
    }
    s
}

/// A `String` holding the given characters.
pub fn string_from_chars(v: &Vec<char>) -> (s: String)
    ensures
        s@ == v@,
{
    let s = string_of(v, 0, v.len());
    assert(v@.subrange(0, v@.len() as int) =~= v@);
    s
}

/// Index of the first occurrence of `c` in `s`, or `s.len()` when there is none.
pub open spec fn index_of(s: Seq<char>, c: char) -> int
    decreases s.len(),
{
    if s.len() == 0 {
        0
    } else if s[0] == c {
        0
    } else {
        1 + index_of(s.drop_first(), c)
    }
}

/// `index_of` is the least index holding `c`, or the length.
pub proof fn lemma_index_of(s: Seq<char>, c: char, r: int)
    requires
        0 <= r <= s.len(),
        forall|k: int| 0 <= k < r ==> s[k] != c,
        r < s.len() ==> s[r] == c,
    ensures
        index_of(s, c) == r,
    decreases s.len(),
{
    if s.len() > 0 && s[0] != c {
        lemma_index_of(s.drop_first(), c, r - 1);
    }
}

/// `index_of` stays within the sequence.
pub proof fn lemma_index_of_bounds(s: Seq<char>, c: char)
    ensures
        0 <= index_of(s, c) <= s.len(),
        index_of(s, c) < s.len() ==> s[index_of(s, c)] == c,
        forall|k: int| 0 <= k < index_of(s, c) ==> s[k] != c,
    decreases s.len(),
{
    if s.len() > 0 && s[0] != c {
        lemma_index_of_bounds(s.drop_first(), c);
        assert forall|k: int| 0 <= k < index_of(s, c) implies s[k] != c by {
            if k > 0 {
                assert(s[k] == s.drop_first()[k - 1]);
            }
        }
    }
}

/// Position of the first `c` in `v` at or after `start`, or `v.len()`.
pub fn find_from(v: &Vec<char>, c: char, start: usize) -> (r: usize)
    requires
        start <= v@.len(),
    ensures
        start <= r <= v@.len(),
        r - start == index_of(v@.skip(start as int), c),
        r < v@.len() ==> v@[r as int] == c,
        forall|k: int| start <= k < r ==> v@[k] != c,
{
    let mut i = start;
    while i < v.len() && v[i] != c
        invariant
            start <= i <= v@.len(),
            forall|k: int| start <= k < i ==> v@[k] != c,
        decreases v@.len() - i,
    {
        i = i + 1;
    }
    proof {
        lemma_index_of(v@.skip(start as int), c, i - start);
    }
    i
}

/// A line terminated by `\n` loses one trailing `\r`.
pub open spec fn strip_cr(l: Seq<char>) -> Seq<char> {
    if l.len() > 0 && l.last() == '\r' {
        l.drop_last()
    } else {
        l
    }
}

/// The lines of `s`, as `str::lines` yields them: split at `\n`, a `\r`
/// right before a `\n` dropped, and no empty line after a final `\n`.
pub open spec fn lines(s: Seq<char>) -> Seq<Seq<char>>
    decreases s.len(),
{
    if s.len() == 0 {
        seq![]
    } else {
        let i = index_of(s, '\n');
        if i >= s.len() || i < 0 {
            seq![s]
        } else {
            seq![strip_cr(s.take(i))] + lines(s.skip(i + 1))
        }
    }
}

/// The views of a vector of strings.
pub open spec fn views(v: Seq<String>) -> Seq<Seq<char>> {
    v.map_values(|x: String| x@)
}

/// Splits `s` into its lines (`str::lines`).
pub fn split_lines(s: &str) -> (out: Vec<String>)
    ensures
        views(out@) == lines(s@),
{
    let v = chars_of(s);
    let len = v.len();
    let mut out: Vec<String> = Vec::new();
    let mut pos: usize = 0;
    assert(v@.skip(0) =~= v@);
    assert(views(out@) =~= Seq::<Seq<char>>::empty());
    while pos < len
        invariant
            len == v@.len(),
            v@ == s@,
            pos <= len,
            lines(s@) == views(out@) + lines(v@.skip(pos as int)),
        decreases len - pos,
    {
        let ghost t = v@.skip(pos as int);
        let j = find_from(&v, '\n', pos);
        let ghost old_out = views(out@);
        if j < len {
            let mut end = j;
            if end > pos && v[end - 1] == '\r' {
                end = end - 1;
            }
            let line = string_of(&v, pos, end);
            assert(line@ == strip_cr(t.take(j - pos))) by {
                assert(t.take(j - pos) =~= v@.subrange(pos as int, j as int));
                if end < j {
                    assert(v@.subrange(pos as int, end as int) =~= v@.subrange(pos as int, j as int).drop_last());
                }
            }
            out.push(line);
            assert(t.skip(j - pos + 1) =~= v@.skip(j + 1));
            assert(views(out@) =~= old_out.push(line@));
            assert(lines(t) == seq![strip_cr(t.take(j - pos))] + lines(t.skip(j - pos + 1)));
            assert(lines(s@) =~= views(out@) + lines(v@.skip(j + 1)));
            pos = j + 1;
        } else {
            let line = string_of(&v, pos, len);
            assert(line@ =~= t);
            out.push(line);
            assert(views(out@) =~= old_out.push(line@));
            assert(lines(t) == seq![t]);
            assert(v@.skip(len as int) =~= Seq::<char>::empty());
            assert(lines(s@) =~= views(out@) + lines(v@.skip(len as int)));
            pos = len;
        }
    }
    assert(v@.skip(len as int) =~= Seq::<char>::empty());
    assert(lines(s@) =~= views(out@));
    out
}

/// True when the two strings hold the same characters.
pub fn same_text(a: &str, b: &str) -> (r: bool)
    ensures
        r == (a@ == b@),
{
    let av = chars_of(a);
    let bv = chars_of(b);
    if av.len() != bv.len() {
        return false;
    }
    let mut i: usize = 0;
    while i < av.len()
        invariant
            av@ == a@,
            bv@ == b@,
            av@.len() == bv@.len(),
            i <= av@.len(),
            forall|k: int| 0 <= k < i ==> av@[k] == bv@[k],
        decreases av@.len() - i,
    {
        if av[i] != bv[i] {
            return false;
        }
        i = i + 1;
    }
    assert(av@ =~= bv@);
    true
}

/// `s` without the prefix `p`, when `s` starts with `p` (`str::strip_prefix`).
pub open spec fn strip_prefix(s: Seq<char>, p: Seq<char>) -> Option<Seq<char>> {
    if p.len() <= s.len() && s.take(p.len() as int) == p {
        Some(s.skip(p.len() as int))
    } else {
        None
    }
}

/// `s` without the prefix `p`, when `s` starts with `p` (`str::strip_prefix`).
pub fn strip_prefix_of(s: &str, p: &str) -> (r: Option<String>)
    ensures
        r matches Some(x) ==> strip_prefix(s@, p@) == Some(x@),
        r is None ==> strip_prefix(s@, p@) is None,
{
    let sv = chars_of(s);
    let pv = chars_of(p);
    if pv.len() > sv.len() {
        return None;
    }
    let mut i: usize = 0;
    while i < pv.len()
        invariant
            sv@ == s@,
            pv@ == p@,
            pv@.len() <= sv@.len(),
            i <= pv@.len(),
            forall|k: int| 0 <= k < i ==> sv@[k] == pv@[k],
        decreases pv@.len() - i,
    {
        if sv[i] != pv[i] {
            assert(sv@.take(pv@.len() as int)[i as int] != pv@[i as int]);
            return None;
        }
        i = i + 1;
    }
    assert(sv@.take(pv@.len() as int) =~= pv@);
    let rest = string_of(&sv, pv.len(), sv.len());
    assert(rest@ =~= sv@.skip(pv@.len() as int));
    Some(rest)
}

/// The part of `s` before its first `c`, or all of `s` when it holds no `c`
/// (the first half of `str::split_once`, or the whole string).
pub open spec fn before_first(s: Seq<char>, c: char) -> Seq<char> {
    s.take(index_of(s, c))
}

/// The part of `s` before its first `c`, or all of `s`.
pub fn before_first_of(s: &str, c: char) -> (r: String)
    ensures
        r@ == before_first(s@, c),
{
    let v = chars_of(s);
    assert(v@.skip(0) =~= v@);
    let j = find_from(&v, c, 0);
    let r = string_of(&v, 0, j);
    assert(r@ =~= v@.take(j as int));
    r
}

/// Appends the characters of `t` to `s`.
pub fn push_text(s: &mut String, t: &str)
    ensures
        final(s)@ == old(s)@ + t@,
{
    let tv = chars_of(t);
    let mut i: usize = 0;
    while i < tv.len()
        invariant
            tv@ == t@,
            i <= tv@.len(),
            s@ == old(s)@ + tv@.take(i as int),
        decreases tv@.len() - i,
    {
        push_char(s, tv[i]);
        assert(tv@.take(i + 1) =~= tv@.take(i as int).push(tv@[i as int]));
        i = i + 1;
    }
    assert(tv@.take(i as int) =~= tv@);
}

/// True for the characters with the Unicode `White_Space` property
/// (`char::is_whitespace`).
pub open spec fn is_ws(c: char) -> bool {
    ('\u{9}' <= c && c <= '\u{d}') || c == ' ' || c == '\u{85}' || c == '\u{a0}'
        || c == '\u{1680}' || ('\u{2000}' <= c && c <= '\u{200a}') || c == '\u{2028}'
        || c == '\u{2029}' || c == '\u{202f}' || c == '\u{205f}' || c == '\u{3000}'
}

/// True for whitespace characters (`char::is_whitespace`).
pub fn is_whitespace(c: char) -> (r: bool)
    ensures
        r == is_ws(c),
{
    ('\u{9}' <= c && c <= '\u{d}') || c == ' ' || c == '\u{85}' || c == '\u{a0}'
        || c == '\u{1680}' || ('\u{2000}' <= c && c <= '\u{200a}') || c == '\u{2028}'
        || c == '\u{2029}' || c == '\u{202f}' || c == '\u{205f}' || c == '\u{3000}'
}

/// `s` without its trailing whitespace (`str::trim_end`).
pub open spec fn trim_end(s: Seq<char>) -> Seq<char>
    decreases s.len(),
{
    if s.len() > 0 && is_ws(s.last()) {
        trim_end(s.drop_last())
    } else {
        s
    }
}

/// `s` without its leading whitespace (`str::trim_start`).
pub open spec fn trim_start(s: Seq<char>) -> Seq<char>
    decreases s.len(),
{
    if s.len() > 0 && is_ws(s[0]) {
        trim_start(s.drop_first())
    } else {
        s
    }
}

/// `s` without leading and trailing whitespace (`str::trim`).
pub open spec fn trim(s: Seq<char>) -> Seq<char> {
    trim_start(trim_end(s))
}

/// Index of the first whitespace character of `s`, or `s.len()`.
pub open spec fn ws_index(s: Seq<char>) -> int
    decreases s.len(),
{
    if s.len() == 0 {
        0
    } else if is_ws(s[0]) {
        0
    } else {
        1 + ws_index(s.drop_first())
    }
}

/// `ws_index` is the least index of a whitespace character, or the length.
pub proof fn lemma_ws_index(s: Seq<char>, r: int)
    requires
        0 <= r <= s.len(),
        forall|k: int| 0 <= k < r ==> !is_ws(s[k]),
        r < s.len() ==> is_ws(s[r]),
    ensures
        ws_index(s) == r,
    decreases s.len(),
{
    if s.len() > 0 && !is_ws(s[0]) {
        lemma_ws_index(s.drop_first(), r - 1);
    }
}

/// The maximal runs of non-whitespace characters of `s`, in order
/// (`str::split_whitespace`).
pub open spec fn words(s: Seq<char>) -> Seq<Seq<char>>
    decreases s.len(),
{
    let i = ws_index(s);
    let piece = s.take(i);
    let head = if piece.len() == 0 {
        Seq::<Seq<char>>::empty()
    } else {
        seq![piece]
    };
    if i >= s.len() || i < 0 {
        head
    } else {
        head + words(s.skip(i + 1))
    }
}

/// The pieces joined, with `sep` between neighbours (`[T]::join`).
pub open spec fn join(pieces: Seq<Seq<char>>, sep: Seq<char>) -> Seq<char>
    decreases pieces.len(),
{
    if pieces.len() == 0 {
        Seq::empty()
    } else if pieces.len() == 1 {
        pieces[0]
    } else {
        pieces[0] + sep + join(pieces.drop_first(), sep)
    }
}

/// Joining one more piece puts a separator before it.
pub proof fn lemma_join_push(pieces: Seq<Seq<char>>, sep: Seq<char>, p: Seq<char>)
    requires
        pieces.len() > 0,
    ensures
        join(pieces.push(p), sep) == join(pieces, sep) + sep + p,
    decreases pieces.len(),
{
    let q = pieces.push(p);
    assert(q[0] == pieces[0]);
    if pieces.len() == 1 {
        assert(q.drop_first() =~= seq![p]);
        assert(join(seq![p], sep) == p);
        assert(join(q, sep) == pieces[0] + sep + p);
        assert(join(pieces, sep) == pieces[0]);
    } else {
        lemma_join_push(pieces.drop_first(), sep, p);
        assert(q.drop_first() =~= pieces.drop_first().push(p));
        assert(join(q, sep) == pieces[0] + sep + join(pieces.drop_first().push(p), sep));
        assert(join(pieces, sep) == pieces[0] + sep + join(pieces.drop_first(), sep));
        assert(join(q, sep) =~= join(pieces, sep) + sep + p);
    }
}

/// The words of `s` joined by single spaces
/// (`s.split_whitespace().collect::<Vec<_>>().join(" ")`).
pub open spec fn collapse_ws(s: Seq<char>) -> Seq<char> {
    join(words(s), seq![' '])
}

/// The words of `s` joined by single spaces.
pub fn collapse_whitespace(s: &str) -> (r: String)
    ensures
        r@ == collapse_ws(s@),
{
    let v = chars_of(s);
    let len = v.len();
    let mut out = String::new();
    let mut pos: usize = 0;
    let ghost mut dw: Seq<Seq<char>> = Seq::empty();
    let mut started = false;
    let mut done = false;
    assert(v@.skip(0) =~= v@);
    while !done
        invariant
            v@ == s@,
            len == v@.len(),
            pos <= len,
            out@ == join(dw, seq![' ']),
            started == (dw.len() > 0),
            forall|k: int| 0 <= k < dw.len() ==> (#[trigger] dw[k]).len() > 0,
            !done ==> words(s@) == dw + words(v@.skip(pos as int)),
            done ==> words(s@) == dw,
        decreases len - pos + (if done { 0int } else { 1int }),
    {
        let ghost t = v@.skip(pos as int);
        let mut j = pos;
        while j < len && !is_whitespace(v[j])
            invariant
                v@ == s@,
                len == v@.len(),
                pos <= j <= len,
                forall|k: int| pos <= k < j ==> !is_ws(v@[k]),
            decreases len - j,
        {
            j = j + 1;
        }
        proof {
            lemma_ws_index(t, j - pos);
        }
        let ghost piece = t.take(j - pos);
        assert(piece =~= v@.subrange(pos as int, j as int));
        if j > pos {
            let ghost old_dw = dw;
            if started {
                push_char(&mut out, ' ');
            }
            started = true;
            let mut k = pos;
            let ghost base = out@;
            while k < j
                invariant
                    v@ == s@,
                    len == v@.len(),
                    pos <= k <= j <= len,
                    out@ == base + v@.subrange(pos as int, k as int),
                decreases j - k,
            {
                push_char(&mut out, v[k]);
                assert(v@.subrange(pos as int, k + 1) =~= v@.subrange(pos as int, k as int).push(v@[k as int]));
                k = k + 1;
            }
            proof {
                if old_dw.len() > 0 {
                    lemma_join_push(old_dw, seq![' '], piece);
                    assert(out@ =~= join(old_dw, seq![' ']) + seq![' '] + piece);
                } else {
                    assert(old_dw.push(piece) =~= seq![piece]);
                    assert(out@ =~= piece);
                }
                dw = old_dw.push(piece);
            }
        }
        if j < len {
            assert(t.skip(j - pos + 1) =~= v@.skip(j + 1));
            assert(words(s@) =~= dw + words(v@.skip(j + 1)));
            pos = j + 1;
        } else {
            assert(t.take(j - pos) =~= t);
            assert(words(s@) =~= dw);
            done = true;
            pos = len;
        }
    }
    out
}

/// Where `v[..to]` ends once its trailing whitespace is dropped (`str::trim_end`).
pub fn trim_end_of(v: &Vec<char>, to: usize) -> (r: usize)
    requires
        to <= v@.len(),
    ensures
        r <= to,
        trim_end(v@.take(to as int)) == v@.take(r as int),
{
    let mut r = to;
    while r > 0 && is_whitespace(v[r - 1])
        invariant
            r <= to <= v@.len(),
            trim_end(v@.take(to as int)) == trim_end(v@.take(r as int)),
        decreases r,
    {
        assert(v@.take(r as int).drop_last() =~= v@.take(r - 1));
        r = r - 1;
    }
    r
}

/// `s` without leading and trailing whitespace (`str::trim`).
pub fn trim_of(s: &str) -> (r: String)
    ensures
        r@ == trim(s@),
{
    let v = chars_of(s);
    let e = trim_end_of(&v, v.len());
    assert(v@.take(v@.len() as int) =~= v@);
    let mut b: usize = 0;
    assert(v@.take(e as int).skip(0) =~= v@.take(e as int));
    while b < e && is_whitespace(v[b])
        invariant
            v@ == s@,
            b <= e <= v@.len(),
            trim(s@) == trim_start(v@.take(e as int).skip(b as int)),
        decreases e - b,
    {
        assert(v@.take(e as int).skip(b as int).drop_first() =~= v@.take(e as int).skip(b + 1));
        b = b + 1;
    }
    let r = string_of(&v, b, e);
    assert(r@ =~= v@.take(e as int).skip(b as int));
    assert(trim_start(r@) == r@);
    r
}

/// `s` without the suffix `p`, when `s` ends with `p` (`str::strip_suffix`).
pub open spec fn strip_suffix(s: Seq<char>, p: Seq<char>) -> Option<Seq<char>> {
    if p.len() <= s.len() && s.skip(s.len() - p.len()) == p {
        Some(s.take(s.len() - p.len()))
    } else {
        None
    }
}

/// `s` without the suffix `p`, when `s` ends with `p` (`str::strip_suffix`).
pub fn strip_suffix_of(s: &str, p: &str) -> (r: Option<String>)
    ensures
        r matches Some(x) ==> strip_suffix(s@, p@) == Some(x@),
        r is None ==> strip_suffix(s@, p@) is None,
{
    let sv = chars_of(s);
    let pv = chars_of(p);
    if pv.len() > sv.len() {
        return None;
    }
    let off = sv.len() - pv.len();
    let mut i: usize = 0;
    while i < pv.len()
        invariant
            sv@ == s@,
            pv@ == p@,
            sv@.len() <= usize::MAX,
            off + pv@.len() == sv@.len(),
            i <= pv@.len(),
            forall|k: int| 0 <= k < i ==> sv@[off + k] == pv@[k],
        decreases pv@.len() - i,
    {
        if sv[off + i] != pv[i] {
            assert(sv@.skip(off as int)[i as int] != pv@[i as int]);
            return None;
        }
        i = i + 1;
    }
    assert(sv@.skip(off as int) =~= pv@);
    let rest = string_of(&sv, 0, off);
    assert(rest@ =~= sv@.take(off as int));
    Some(rest)
}

/// True when every character is a decimal digit.
pub open spec fn all_digits(d: Seq<char>) -> bool {
    forall|k: int| 0 <= k < d.len() ==> '0' <= #[trigger] d[k] && d[k] <= '9'
}

/// The number that a string of decimal digits spells.
pub open spec fn decimal(d: Seq<char>) -> nat
    decreases d.len(),
{
    if d.len() == 0 {
        0
    } else {
        decimal(d.drop_last()) * 10 + (d.last() as nat - '0' as nat) as nat
    }
}

/// A string of digits spells at least what any of its prefixes spells.
pub proof fn lemma_decimal_prefix(d: Seq<char>, k: int)
    requires
        all_digits(d),
        0 <= k <= d.len(),
    ensures
        decimal(d.take(k)) <= decimal(d),
    decreases d.len() - k,
{
    if k < d.len() {
        lemma_decimal_prefix(d, k + 1);
        let t = d.take(k + 1);
        assert(t.drop_last() =~= d.take(k));
        assert(t.last() == d[k]);
        assert('0' <= d[k]);
        let x = decimal(d.take(k));
        assert(decimal(t) == x * 10 + (d[k] as nat - '0' as nat) as nat);
        assert(x * 10 >= x) by (nonlinear_arith)
            requires
                x >= 0,
        ;
    } else {
        assert(d.take(k) =~= d);
    }
}

/// The `u64` that `s` spells in decimal, as `str::parse::<u64>` reads it:
/// an optional `+`, then one or more digits, with a value that fits.
pub open spec fn parse_u64_spec(s: Seq<char>) -> Option<u64> {
    let d = if s.len() > 0 && s[0] == '+' {
        s.drop_first()
    } else {
        s
    };
    if d.len() == 0 || !all_digits(d) || decimal(d) > u64::MAX {
        None
    } else {
        Some(decimal(d) as u64)
    }
}

/// Reads an unsigned decimal number (`str::parse::<u64>`).
pub fn parse_u64(s: &str) -> (r: Option<u64>)
    ensures
        r == parse_u64_spec(s@),
{
    let v = chars_of(s);
    let start: usize = if v.len() > 0 && v[0] == '+' { 1 } else { 0 };
    let ghost d = if s@.len() > 0 && s@[0] == '+' { s@.drop_first() } else { s@ };
    assert(d =~= v@.skip(start as int));
    if start >= v.len() {
        return None;
    }
    let mut i: usize = start;
    while i < v.len()
        invariant
            v@ == s@,
            d == v@.skip(start as int),
            d == (if s@.len() > 0 && s@[0] == '+' { s@.drop_first() } else { s@ }),
            d.len() > 0,
            start <= i <= v@.len(),
            forall|k: int| start <= k < i ==> '0' <= v@[k] && v@[k] <= '9',
        decreases v@.len() - i,
    {
        if !('0' <= v[i] && v[i] <= '9') {
            assert(!('0' <= d[i - start] && d[i - start] <= '9'));
            return None;
        }
        i = i + 1;
    }
    assert(all_digits(d)) by {
        assert forall|k: int| 0 <= k < d.len() implies '0' <= #[trigger] d[k] && d[k] <= '9' by {
            assert(d[k] == v@[k + start]);
        }
    }
    let mut acc: u64 = 0;
    let mut j: usize = start;
    assert(d.take(0) =~= Seq::<char>::empty());
    while j < v.len()
        invariant
            v@ == s@,
            d == v@.skip(start as int),
            d == (if s@.len() > 0 && s@[0] == '+' { s@.drop_first() } else { s@ }),
            d.len() > 0,
            all_digits(d),
            start <= j <= v@.len(),
            acc as nat == decimal(d.take(j - start)),
        decreases v@.len() - j,
    {
        assert(d[j - start] == v@[j as int]);
        assert('0' <= d[j - start] && d[j - start] <= '9');
        let dig = (v[j] as u32 - '0' as u32) as u64;
        assert(d.take(j - start + 1).drop_last() =~= d.take(j - start));
        assert(dig <= 9);
        if acc > (u64::MAX - dig) / 10 {
            proof {
                assert(acc * 10 + dig > u64::MAX) by (nonlinear_arith)
                    requires
                        acc > (u64::MAX - dig) / 10,
                        dig <= 9,
                ;
                lemma_decimal_prefix(d, j - start + 1);
            }
            return None;
        }
        proof {
            assert(acc * 10 + dig <= u64::MAX) by (nonlinear_arith)
                requires
                    acc <= (u64::MAX - dig) / 10,
                    dig <= 9,
            ;
        }
        acc = acc * 10 + dig;
        j = j + 1;
    }
    assert(d.take(j - start) =~= d);
    Some(acc)
}

} // verus!
