//! Text helpers for names and paths.

use vstd::prelude::*;
use crate::text::{chars_of, is_whitespace_char, is_ws, string_of};

verus! {

pub open spec fn is_ascii_alnum(c: char) -> bool {
    ('0' <= c && c <= '9') || ('a' <= c && c <= 'z') || ('A' <= c && c <= 'Z')
}

pub open spec fn ascii_lower(c: char) -> char {
    if 'A' <= c && c <= 'Z' {
        (((c as u8) + 32) as u8) as char
    } else {
        c
    }
}

/// The slug before its outer underscores are removed: ASCII letters and digits in
/// lower case, and one `_` for each run of whitespace, `-` and `_` that does not
/// follow an `_`; other characters are dropped.
pub open spec fn slug_run(s: Seq<char>) -> Seq<char>
    decreases s.len(),
{
    if s.len() == 0 {
        Seq::empty()
    } else {
        let out = slug_run(s.drop_last());
        let c = s.last();
        if is_ascii_alnum(c) {
            out.push(ascii_lower(c))
        } else if (is_ws(c) || c == '-' || c == '_') && !(out.len() > 0 && out.last() == '_') {
            out.push('_')
        } else {
            out
        }
    }
}

pub open spec fn strip_leading(s: Seq<char>, c: char) -> Seq<char>
    decreases s.len(),
{
    if s.len() > 0 && s[0] == c {
        strip_leading(s.drop_first(), c)
    } else {
        s
    }
}

pub open spec fn strip_trailing(s: Seq<char>, c: char) -> Seq<char>
    decreases s.len(),
{
    if s.len() > 0 && s.last() == c {
        strip_trailing(s.drop_last(), c)
    } else {
        s
    }
}

/// The slug of a title.
pub open spec fn slug(s: Seq<char>) -> Seq<char> {
    strip_trailing(strip_leading(slug_run(s), '_'), '_')
}

/// A file-name-safe slug: lower-case ASCII letters and digits, single underscores
/// between words, none at either end.
pub fn slugify(input: &str) -> (r: String)
    ensures
        r@ == slug(input@),
{
    let v = chars_of(input);
    let mut out: Vec<char> = Vec::new();
    let mut i: usize = 0;
    while i < v.len()
        invariant
            i <= v.len(),
            v@ == input@,
            out@ == slug_run(v@.take(i as int)),
        decreases v.len() - i,
    {
        let c = v[i];
        assert(v@.take(i + 1).drop_last() =~= v@.take(i as int));
        let alnum = ('0' <= c && c <= '9') || ('a' <= c && c <= 'z') || ('A' <= c && c <= 'Z');
        if alnum {
            let l = if 'A' <= c && c <= 'Z' { ((c as u8) + 32) as char } else { c };
            out.push(l);
        } else if (is_whitespace_char(c) || c == '-' || c == '_') && !(out.len() > 0 && out[out.len() - 1] == '_') {
            out.push('_');
        }
        i = i + 1;
    }
    assert(v@.take(v.len() as int) =~= v@);
    let n = out.len();
    let mut a: usize = 0;
    assert(out@.subrange(0, n as int) =~= out@);
    while a < n && out[a] == '_'
        invariant
            a <= n == out.len(),
            strip_leading(out@, '_') == strip_leading(out@.subrange(a as int, n as int), '_'),
        decreases n - a,
    {
        assert(out@.subrange(a as int, n as int).drop_first() =~= out@.subrange(a + 1, n as int));
        a = a + 1;
    }
    let mut b: usize = n;
    assert(out@.subrange(a as int, n as int) =~= out@.subrange(a as int, b as int));
    while b > a && out[b - 1] == '_'
        invariant
            a <= b <= n == out.len(),
            strip_leading(out@, '_') == out@.subrange(a as int, n as int),
            strip_trailing(strip_leading(out@, '_'), '_') == strip_trailing(out@.subrange(a as int, b as int), '_'),
        decreases b - a,
    {
        assert(out@.subrange(a as int, b as int).drop_last() =~= out@.subrange(a as int, b - 1));
        b = b - 1;
    }
    let mut w: Vec<char> = Vec::new();
    let mut k: usize = a;
    while k < b
        invariant
            a <= k <= b <= n == out.len(),
            w@ == out@.subrange(a as int, k as int),
        decreases b - k,
    {
        w.push(out[k]);
        assert(out@.subrange(a as int, k + 1) =~= out@.subrange(a as int, k as int).push(out@[k as int]));
        k = k + 1;
    }
    string_of(&w)
}

/// `s` with every occurrence of `pat` from position `i` on replaced by `rep`,
/// scanning left to right without overlap.
pub open spec fn replaced_from(s: Seq<char>, pat: Seq<char>, rep: Seq<char>, i: int) -> Seq<char>
    decreases s.len() - i,
{
    if i < 0 || i >= s.len() || pat.len() == 0 {
        if 0 <= i < s.len() { s.subrange(i, s.len() as int) } else { Seq::empty() }
    } else if i + pat.len() <= s.len() && s.subrange(i, i + pat.len()) == pat {
        rep + replaced_from(s, pat, rep, i + pat.len())
    } else {
        seq![s[i]] + replaced_from(s, pat, rep, i + 1)
    }
}

pub open spec fn replaced(s: Seq<char>, pat: Seq<char>, rep: Seq<char>) -> Seq<char> {
    replaced_from(s, pat, rep, 0)
}

fn matches_at(s: &Vec<char>, pat: &Vec<char>, i: usize) -> (r: bool)
    requires
        i <= s.len(),
    ensures
        r == (i + pat@.len() <= s@.len() && s@.subrange(i as int, i + pat@.len()) == pat@),
{
    if pat.len() > s.len() - i {
        return false;
    }
    let mut k: usize = 0;
    while k < pat.len()
        invariant
            k <= pat.len(),
            i + pat.len() <= s.len(),
            forall|j: int| 0 <= j < k ==> s@[i + j] == pat@[j],
        decreases pat.len() - k,
    {
        if s[i + k] != pat[k] {
            assert(s@.subrange(i as int, i + pat@.len())[k as int] != pat@[k as int]);
            return false;
        }
        k = k + 1;
    }
    assert(s@.subrange(i as int, i + pat@.len()) =~= pat@);
    true
}

fn replace_all(s: &Vec<char>, pat: &Vec<char>, rep: &Vec<char>) -> (r: Vec<char>)
    requires
        pat@.len() > 0,
    ensures
        r@ == replaced(s@, pat@, rep@),
{
    let mut out: Vec<char> = Vec::new();
    let mut i: usize = 0;
    while i < s.len()
        invariant
            i <= s.len(),
            pat@.len() > 0,
            out@ + replaced_from(s@, pat@, rep@, i as int) == replaced(s@, pat@, rep@),
        decreases s.len() - i,
    {
        if matches_at(s, pat, i) {
            let ghost before = out@;
            let mut k: usize = 0;
            while k < rep.len()
                invariant
                    k <= rep.len(),
                    out@ == before + rep@.take(k as int),
                decreases rep.len() - k,
            {
                out.push(rep[k]);
                assert(before + rep@.take(k + 1) =~= (before + rep@.take(k as int)).push(rep@[k as int]));
                k = k + 1;
            }
            assert(rep@.take(rep.len() as int) =~= rep@);
            assert(before + (rep@ + replaced_from(s@, pat@, rep@, i + pat@.len())) =~= out@
                + replaced_from(s@, pat@, rep@, i + pat@.len()));
            i = i + pat.len();
        } else {
            let ghost before = out@;
            out.push(s[i]);
            assert(before + (seq![s@[i as int]] + replaced_from(s@, pat@, rep@, i + 1)) =~= out@
                + replaced_from(s@, pat@, rep@, i + 1));
            i = i + 1;
        }
    }
    assert(out@ + replaced_from(s@, pat@, rep@, i as int) =~= out@);
    out
}

/// An output layout with `{format}` and then `{title_slug}` filled in.
pub fn apply_layout(layout: &str, format: &str, title_slug: &str) -> (r: String)
    ensures
        r@ == replaced(replaced(layout@, "{format}"@, format@), "{title_slug}"@, title_slug@),
{
    let l = chars_of(layout);
    let f = chars_of(format);
    let t = chars_of(title_slug);
    let format_pat = chars_of("{format}");
    let slug_pat = chars_of("{title_slug}");
    proof {
        reveal_strlit("{format}");
        reveal_strlit("{title_slug}");
    }
    let once = replace_all(&l, &format_pat, &f);
    let twice = replace_all(&once, &slug_pat, &t);
    string_of(&twice)
}

/// Position just after the last `/` of `s`, or 0.
pub open spec fn name_start(s: Seq<char>) -> int
    decreases s.len(),
{
    if s.len() == 0 {
        0
    } else if s.last() == '/' {
        s.len() as int
    } else {
        name_start(s.drop_last())
    }
}

/// Position of the last `.` of `s`, or -1.
pub open spec fn last_dot(s: Seq<char>) -> int
    decreases s.len(),
{
    if s.len() == 0 {
        -1
    } else if s.last() == '.' {
        s.len() - 1
    } else {
        last_dot(s.drop_last())
    }
}

/// The path with the extension of its last segment set to `ext` (removed when
/// `ext` is empty). A segment that is empty, `.` or `..` is left alone; a dot at
/// the start of a segment does not begin an extension.
pub open spec fn with_extension(path: Seq<char>, ext: Seq<char>) -> Seq<char> {
    let start = name_start(path);
    let name = path.subrange(start, path.len() as int);
    if name.len() == 0 || name == seq!['.'] || name == seq!['.', '.'] {
        path
    } else {
        let d = last_dot(name);
        let stem = if d > 0 {
            name.subrange(0, d)
        } else {
            name
        };
        let base = path.subrange(0, start) + stem;
        if ext.len() == 0 {
            base
        } else {
            base + seq!['.'] + ext
        }
    }
}

proof fn lemma_name_start(s: Seq<char>)
    ensures
        0 <= name_start(s) <= s.len(),
    decreases s.len(),
{
    if s.len() > 0 {
        lemma_name_start(s.drop_last());
    }
}

proof fn lemma_last_dot(s: Seq<char>)
    ensures
        -1 <= last_dot(s) < s.len(),
    decreases s.len(),
{
    if s.len() > 0 {
        lemma_last_dot(s.drop_last());
    }
}

/// Sets the extension of a path's last segment, as described by `with_extension`.
pub fn replace_extension(path: &str, ext: &str) -> (r: String)
    ensures
        r@ == with_extension(path@, ext@),
{
    let p = chars_of(path);
    let e = chars_of(ext);
    let mut start: usize = p.len();
    assert(p@.take(start as int) =~= p@);
    while start > 0 && p[start - 1] != '/'
        invariant
            start <= p.len(),
            p@ == path@,
            name_start(p@) == name_start(p@.take(start as int)),
        decreases start,
    {
        assert(p@.take(start as int).drop_last() =~= p@.take(start - 1));
        start = start - 1;
    }
    proof {
        if start > 0 {
            assert(p@.take(start as int).last() == '/');
        }
    }
    let mut name: Vec<char> = Vec::new();
    let mut i: usize = start;
    while i < p.len()
        invariant
            start <= i <= p.len(),
            name@ == p@.subrange(start as int, i as int),
        decreases p.len() - i,
    {
        name.push(p[i]);
        assert(p@.subrange(start as int, i + 1) =~= p@.subrange(start as int, i as int).push(p@[i as int]));
        i = i + 1;
    }
    let n = name.len();
    if n == 0 || (n == 1 && name[0] == '.') || (n == 2 && name[0] == '.' && name[1] == '.') {
        proof {
            if n == 1 && name[0] == '.' {
                assert(name@ =~= seq!['.']);
            }
            if n == 2 && name[0] == '.' && name[1] == '.' {
                assert(name@ =~= seq!['.', '.']);
            }
        }
        return string_of(&p);
    }
    assert(name@ != seq!['.'] && name@ != seq!['.', '.']) by {
        if name@ == seq!['.'] {
            assert(name@[0] == '.');
        }
        if name@ == seq!['.', '.'] {
            assert(name@[0] == '.' && name@[1] == '.');
        }
    }
    let mut d: usize = n;
    assert(name@.take(d as int) =~= name@);
    while d > 0 && name[d - 1] != '.'
        invariant
            d <= n == name.len(),
            last_dot(name@) == last_dot(name@.take(d as int)),
        decreases d,
    {
        assert(name@.take(d as int).drop_last() =~= name@.take(d - 1));
        d = d - 1;
    }
    proof {
        if d > 0 {
            assert(name@.take(d as int).last() == '.');
        }
    }
    // d is one past the last dot, or 0 when there is none
    let stem_end = if d > 1 { d - 1 } else { n };
    let mut out: Vec<char> = Vec::new();
    let mut k: usize = 0;
    while k < start
        invariant
            k <= start <= p.len(),
            out@ == p@.take(k as int),
        decreases start - k,
    {
        out.push(p[k]);
        assert(p@.take(k + 1) =~= p@.take(k as int).push(p@[k as int]));
        k = k + 1;
    }
    let mut k: usize = 0;
    while k < stem_end
        invariant
            k <= stem_end <= n == name.len(),
            out@ == p@.take(start as int) + name@.take(k as int),
        decreases stem_end - k,
    {
        out.push(name[k]);
        assert(p@.take(start as int) + name@.take(k + 1) =~= (p@.take(start as int) + name@.take(k as int)).push(name@[k as int]));
        k = k + 1;
    }
    if e.len() > 0 {
        out.push('.');
        let mut k: usize = 0;
        let ghost before = out@;
        while k < e.len()
            invariant
                k <= e.len(),
                out@ == before + e@.take(k as int),
            decreases e.len() - k,
        {
            out.push(e[k]);
            assert(before + e@.take(k + 1) =~= (before + e@.take(k as int)).push(e@[k as int]));
            k = k + 1;
        }
        assert(e@.take(e.len() as int) =~= e@);
    }
    proof {
        assert(p@.take(start as int) =~= p@.subrange(0, start as int));
        if d > 1 {
            assert(name@.take(stem_end as int) =~= name@.subrange(0, last_dot(name@)));
        } else {
            assert(name@.take(n as int) =~= name@);
        }
        let r = with_extension(path@, ext@);
        assert(out@ =~= r);
    }
    string_of(&out)
}

} // verus!
