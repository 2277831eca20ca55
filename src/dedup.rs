//! Helpers of duplicate removal in a Calibre library: command options, optional
//! settings and book identifiers read from library paths.

use vstd::prelude::*;
use crate::assemble::{starts_with, views};
use crate::splitter::{split_chars, split_on};
use crate::text::{chars_of, deep, string_of, trim, trim_chars};

verus! {

/// A library given as an `http://` or `https://` address.
pub open spec fn is_remote(library: Seq<char>) -> bool {
    starts_with(library, "http://"@) || starts_with(library, "https://"@)
}

/// The global options of a `calibredb` call: the library, then credentials for a
/// remote library when a user name is given.
pub open spec fn global_opts(library: Seq<char>, username: Option<Seq<char>>, password: Option<Seq<char>>) -> Seq<Seq<char>> {
    let base = seq!["--with-library"@, library];
    if is_remote(library) && username is Some {
        let with_user = base + seq!["--username"@, username->0];
        match password {
            Some(p) => with_user + seq!["--password"@, p],
            None => with_user,
        }
    } else {
        base
    }
}

fn has_prefix(s: &Vec<char>, p: &str) -> (r: bool)
    ensures
        r == starts_with(s@, p@),
{
    let pv = chars_of(p);
    if pv.len() > s.len() {
        return false;
    }
    let mut i: usize = 0;
    while i < pv.len()
        invariant
            i <= pv.len() <= s.len(),
            pv@ == p@,
            forall|j: int| 0 <= j < i ==> s@[j] == pv@[j],
        decreases pv.len() - i,
    {
        if s[i] != pv[i] {
            assert(s@.subrange(0, pv@.len() as int)[i as int] != pv@[i as int]);
            return false;
        }
        i = i + 1;
    }
    assert(s@.subrange(0, pv@.len() as int) =~= pv@);
    true
}

/// The global options of a `calibredb` call for a library.
pub fn build_global_opts(library: &str, username: Option<&str>, password: Option<&str>) -> (r: Vec<String>)
    ensures
        views(r@) == global_opts(
            library@,
            match username {
                Some(u) => Some(u@),
                None => None,
            },
            match password {
                Some(p) => Some(p@),
                None => None,
            },
        ),
{
    let mut opts: Vec<String> = Vec::new();
    opts.push(String::from_str("--with-library"));
    opts.push(String::from_str(library));
    let lib = chars_of(library);
    let remote = has_prefix(&lib, "http://") || has_prefix(&lib, "https://");
    let ghost base = views(opts@);
    assert(base =~= seq!["--with-library"@, library@]);
    if remote && username.is_some() {
        let user = match username {
            Some(u) => u,
            None => "",
        };
        opts.push(String::from_str("--username"));
        opts.push(String::from_str(user));
        let ghost with_user = views(opts@);
        assert(with_user =~= base + seq!["--username"@, user@]);
        match password {
            Some(p) => {
                opts.push(String::from_str("--password"));
                opts.push(String::from_str(p));
                assert(views(opts@) =~= with_user + seq!["--password"@, p@]);
            },
            None => {},
        }
    }
    opts
}

/// An address with its surrounding whitespace removed, unless nothing is left.
pub fn non_empty_url(url: Option<&str>) -> (r: Option<String>)
    ensures
        r matches Some(v) ==> url matches Some(u) && v@ == trim(u@) && v@.len() > 0,
        r is None ==> (url matches Some(u) ==> trim(u@).len() == 0),
{
    match url {
        Some(u) => {
            let t = trim_chars(&chars_of(u));
            if t.len() == 0 {
                None
            } else {
                Some(string_of(&t))
            }
        },
        None => None,
    }
}

/// A path, unless absent or empty.
pub fn non_empty_path(path: Option<&str>) -> (r: Option<String>)
    ensures
        r matches Some(v) ==> path matches Some(p) && v@ == p@ && v@.len() > 0,
        r is None ==> (path matches Some(p) ==> p@.len() == 0),
{
    match path {
        Some(p) => {
            if p.is_empty() {
                None
            } else {
                Some(String::from_str(p))
            }
        },
        None => None,
    }
}

pub open spec fn is_digit(c: char) -> bool {
    '0' <= c && c <= '9'
}

pub open spec fn digits_value(d: Seq<char>) -> nat
    decreases d.len(),
{
    if d.len() == 0 {
        0
    } else {
        digits_value(d.drop_last()) * 10 + ((d.last() as u32) - 48) as nat
    }
}

/// `s` without one leading `+`.
pub open spec fn unsigned_part(s: Seq<char>) -> Seq<char> {
    if s.len() > 0 && s[0] == '+' {
        s.drop_first()
    } else {
        s
    }
}

pub open spec fn all_digits(d: Seq<char>) -> bool {
    forall|i: int| 0 <= i < d.len() ==> is_digit(#[trigger] d[i])
}

/// What `u64::from_str` gives: an optional `+`, then one or more ASCII digits whose
/// value fits in 64 bits.
pub open spec fn parse_u64(s: Seq<char>) -> Option<u64> {
    let d = unsigned_part(s);
    if d.len() == 0 || !all_digits(d) || digits_value(d) > u64::MAX {
        None
    } else {
        Some(digits_value(d) as u64)
    }
}

proof fn lemma_digits_value_grows(d: Seq<char>, i: int)
    requires
        0 <= i <= d.len(),
        forall|j: int| 0 <= j < d.len() ==> is_digit(#[trigger] d[j]),
    ensures
        digits_value(d.take(i)) <= digits_value(d),
    decreases d.len() - i,
{
    if i < d.len() {
        lemma_digits_value_grows(d, i + 1);
        assert(d.take(i + 1).drop_last() =~= d.take(i));
    } else {
        assert(d.take(i) =~= d);
    }
}

fn parse_digits(s: &Vec<char>) -> (r: Option<u64>)
    ensures
        r == parse_u64(s@),
{
    let mut start: usize = 0;
    if s.len() > 0 && s[0] == '+' {
        start = 1;
    }
    let ghost d = unsigned_part(s@);
    assert(d =~= s@.subrange(start as int, s@.len() as int));
    if start >= s.len() {
        return None;
    }
    let mut i: usize = start;
    while i < s.len()
        invariant
            start <= i <= s.len(),
            d == s@.subrange(start as int, s@.len() as int),
            d == unsigned_part(s@),
            forall|j: int| start <= j < i ==> is_digit(#[trigger] s@[j]),
        decreases s.len() - i,
    {
        if !('0' <= s[i] && s[i] <= '9') {
            let ghost w = (i - start) as int;
            assert(d[w] == s@[i as int]);
            assert(0 <= w < d.len() && !is_digit(d[w]));
            return None;
        }
        i = i + 1;
    }
    assert(forall|j: int| 0 <= j < d.len() ==> is_digit(#[trigger] d[j])) by {
        assert forall|j: int| 0 <= j < d.len() implies is_digit(#[trigger] d[j]) by {
            assert(d[j] == s@[start + j]);
        }
    }
    let mut v: u128 = 0;
    let mut k: usize = start;
    while k < s.len()
        invariant
            start <= k <= s.len(),
            d == s@.subrange(start as int, s@.len() as int),
            d == unsigned_part(s@),
            d.len() > 0,
            forall|j: int| 0 <= j < d.len() ==> is_digit(#[trigger] d[j]),
            v == digits_value(d.take(k - start)),
            v <= u64::MAX,
        decreases s.len() - k,
    {
        assert(d.take(k - start + 1).drop_last() =~= d.take(k - start));
        assert(d.take(k - start + 1).last() == s@[k as int]);
        assert(is_digit(d[k - start]));
        let digit = (s[k] as u32 - 48) as u128;
        let next = v * 10 + digit;
        if next > u64::MAX as u128 {
            proof {
                lemma_digits_value_grows(d, k - start + 1);
            }
            return None;
        }
        v = next;
        k = k + 1;
    }
    assert(d.take(d.len() as int) =~= d);
    Some(v as u64)
}

/// Position of the last `(` in `s`, or -1.
pub open spec fn last_open(s: Seq<char>) -> int
    decreases s.len(),
{
    if s.len() == 0 {
        -1
    } else if s.last() == '(' {
        s.len() - 1
    } else {
        last_open(s.drop_last())
    }
}

proof fn lemma_last_open(s: Seq<char>)
    ensures
        -1 <= last_open(s) < s.len(),
        last_open(s) >= 0 ==> s[last_open(s)] == '(',
    decreases s.len(),
{
    if s.len() > 0 {
        lemma_last_open(s.drop_last());
    }
}

/// The book identifier that a path segment such as `Title (42)` carries.
pub open spec fn segment_id(seg: Seq<char>) -> Option<u64> {
    let p = last_open(seg);
    if seg.len() > 0 && seg.last() == ')' && p >= 0 {
        parse_u64(seg.subrange(p + 1, seg.len() - 1))
    } else {
        None
    }
}

/// A segment that names a file or directory: not empty, `.` or `..`.
pub open spec fn is_named(seg: Seq<char>) -> bool {
    seg.len() > 0 && seg != seq!['.'] && seg != seq!['.', '.']
}

/// The segments of a path between slashes.
pub open spec fn segments(s: Seq<char>) -> Seq<Seq<char>> {
    split_on(s, '/')
}

/// The identifier of the deepest named segment that carries one.
pub open spec fn id_in(segs: Seq<Seq<char>>) -> Option<u64>
    decreases segs.len(),
{
    if segs.len() == 0 {
        None
    } else if is_named(segs.last()) && segment_id(segs.last()) is Some {
        segment_id(segs.last())
    } else {
        id_in(segs.drop_last())
    }
}

fn segment_id_of(seg: &Vec<char>) -> (r: Option<u64>)
    ensures
        r == segment_id(seg@),
{
    let n = seg.len();
    if n == 0 || seg[n - 1] != ')' {
        return None;
    }
    let mut p: usize = n;
    assert(seg@.take(p as int) =~= seg@);
    while p > 0 && seg[p - 1] != '('
        invariant
            p <= n == seg.len(),
            last_open(seg@) == last_open(seg@.take(p as int)),
        decreases p,
    {
        assert(seg@.take(p as int).drop_last() =~= seg@.take(p - 1));
        p = p - 1;
    }
    if p == 0 {
        return None;
    }
    assert(seg@.take(p as int).last() == '(');
    proof {
        lemma_last_open(seg@);
    }
    let mut digits: Vec<char> = Vec::new();
    let mut k: usize = p;
    while k < n - 1
        invariant
            p <= n - 1 < n == seg.len(),
            p <= k <= n - 1,
            digits@ == seg@.subrange(p as int, k as int),
        decreases n - 1 - k,
    {
        digits.push(seg[k]);
        assert(seg@.subrange(p as int, k + 1) =~= seg@.subrange(p as int, k as int).push(seg@[k as int]));
        k = k + 1;
    }
    parse_digits(&digits)
}

fn is_named_segment(seg: &Vec<char>) -> (r: bool)
    ensures
        r == is_named(seg@),
{
    let n = seg.len();
    if n == 0 {
        return false;
    }
    if n == 1 && seg[0] == '.' {
        assert(seg@ =~= seq!['.']);
        return false;
    }
    if n == 2 && seg[0] == '.' && seg[1] == '.' {
        assert(seg@ =~= seq!['.', '.']);
        return false;
    }
    assert(seg@ != seq!['.']) by {
        if seg@ == seq!['.'] {
            assert(seg@[0] == '.');
        }
    }
    assert(seg@ != seq!['.', '.']) by {
        if seg@ == seq!['.', '.'] {
            assert(seg@[0] == '.' && seg@[1] == '.');
        }
    }
    true
}

/// The Calibre book identifier in a path: the number in parentheses at the end of
/// the deepest segment that has one, as in `Author/Title (42)/book.epub`.
pub fn extract_book_id(path: &str) -> (r: Option<u64>)
    ensures
        r == id_in(segments(path@)),
{
    let segs = split_chars(&chars_of(path), '/');
    let ghost all = deep(segs@);
    let mut j: usize = segs.len();
    assert(all.take(j as int) =~= all);
    while j > 0
        invariant
            j <= segs@.len(),
            all == deep(segs@),
            all == segments(path@),
            id_in(all) == id_in(all.take(j as int)),
        decreases j,
    {
        let seg = &segs[j - 1];
        proof {
            assert(all.take(j as int).last() == seg@);
            assert(all.take(j as int).drop_last() =~= all.take(j - 1));
        }
        if is_named_segment(seg) {
            let id = segment_id_of(seg);
            if id.is_some() {
                return id;
            }
        }
        j = j - 1;
    }
    None
}

} // verus!
