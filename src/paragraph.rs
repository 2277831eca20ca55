//! The paragraphizer: cuts normalized text into paragraphs at blank lines.

use vstd::prelude::*;
use crate::assemble::{join_space, strings_of, views};
use crate::config::ChunkConfig;
use crate::splitter::{flush, flush_into, Pending};
use crate::text::{
    byte_len, byte_len_of, chars_of, deep, lemma_deep_push, trim, trim_chars,
};

verus! {

/// The lines of `s`, split at `'\n'`; a final line ending adds no empty line.
pub open spec fn lines_run(s: Seq<char>) -> Pending
    decreases s.len(),
{
    if s.len() == 0 {
        (Seq::empty(), Seq::empty())
    } else {
        let st = lines_run(s.drop_last());
        if s.last() == '\n' {
            (st.0.push(st.1), Seq::empty())
        } else {
            (st.0, st.1.push(s.last()))
        }
    }
}

pub open spec fn lines_of(s: Seq<char>) -> Seq<Seq<char>> {
    flush(lines_run(s))
}

pub open spec fn lower_char(c: char) -> char {
    if 'A' <= c && c <= 'Z' {
        (((c as u8) + 32) as u8) as char
    } else {
        c
    }
}

/// ASCII letters in lower case, other characters unchanged.
pub open spec fn lower_ascii(s: Seq<char>) -> Seq<char> {
    s.map_values(|c: char| lower_char(c))
}

/// A bookkeeping heading: starts with `#`, or reads `table of contents` or
/// `contents` in any ASCII case.
pub open spec fn is_heading(t: Seq<char>) -> bool {
    ||| t.len() > 0 && t[0] == '#'
    ||| lower_ascii(t) == seq!['t', 'a', 'b', 'l', 'e', ' ', 'o', 'f', ' ', 'c', 'o', 'n', 't', 'e', 'n', 't', 's']
    ||| lower_ascii(t) == seq!['c', 'o', 'n', 't', 'e', 'n', 't', 's']
}

/// Newlines replaced by spaces.
pub open spec fn unwrap_lines(s: Seq<char>) -> Seq<char> {
    s.map_values(|c: char| if c == '\n' { ' ' } else { c })
}

/// Ends the paragraph under construction: a blank one is dropped, a heading is
/// dropped when `strip_headers` is set, and one shorter than `min_paragraph_chars`
/// bytes joins the previous paragraph after a space when there is one.
pub open spec fn close_paragraph(out: Seq<Seq<char>>, current: Seq<char>, cfg: ChunkConfig) -> Seq<Seq<char>> {
    let t = trim(current);
    if t.len() == 0 {
        out
    } else if cfg.strip_headers && is_heading(t) {
        out
    } else {
        let cleaned = unwrap_lines(t);
        if byte_len(cleaned) < cfg.min_paragraph_chars && out.len() > 0 {
            out.update(out.len() - 1, out.last() + seq![' '] + cleaned)
        } else {
            out.push(cleaned)
        }
    }
}

/// One line: a blank line closes the paragraph; another is trimmed and added with
/// a newline after it.
pub open spec fn paragraph_step(st: Pending, line: Seq<char>, cfg: ChunkConfig) -> Pending {
    if trim(line).len() == 0 {
        (close_paragraph(st.0, st.1, cfg), Seq::empty())
    } else {
        (st.0, st.1 + trim(line) + seq!['\n'])
    }
}

pub open spec fn paragraph_run(lines: Seq<Seq<char>>, cfg: ChunkConfig) -> Pending
    decreases lines.len(),
{
    if lines.len() == 0 {
        (Seq::empty(), Seq::empty())
    } else {
        paragraph_step(paragraph_run(lines.drop_last(), cfg), lines.last(), cfg)
    }
}

/// The paragraphs of `text` under `cfg`.
pub open spec fn paragraphs_of(text: Seq<char>, cfg: ChunkConfig) -> Seq<Seq<char>> {
    let st = paragraph_run(lines_of(text), cfg);
    close_paragraph(st.0, st.1, cfg)
}

fn lines_in(s: &Vec<char>) -> (r: Vec<Vec<char>>)
    ensures
        deep(r@) == lines_of(s@),
{
    let mut out: Vec<Vec<char>> = Vec::new();
    let mut cur: Vec<char> = Vec::new();
    let mut i: usize = 0;
    assert(deep(out@) =~= Seq::<Seq<char>>::empty());
    while i < s.len()
        invariant
            i <= s.len(),
            (deep(out@), cur@) == lines_run(s@.take(i as int)),
        decreases s.len() - i,
    {
        let c = s[i];
        assert(s@.take(i + 1).drop_last() =~= s@.take(i as int));
        if c == '\n' {
            let done = cur;
            proof {
                lemma_deep_push(out@, done);
            }
            out.push(done);
            cur = Vec::new();
        } else {
            cur.push(c);
        }
        i = i + 1;
    }
    assert(s@.take(s.len() as int) =~= s@);
    flush_into(&mut out, cur);
    out
}

pub(crate) fn lower_ascii_in(s: &Vec<char>) -> (r: Vec<char>)
    ensures
        r@ == lower_ascii(s@),
{
    let mut r: Vec<char> = Vec::new();
    let mut i: usize = 0;
    while i < s.len()
        invariant
            i <= s.len(),
            r@ == lower_ascii(s@.take(i as int)),
        decreases s.len() - i,
    {
        let c = s[i];
        let l = if 'A' <= c && c <= 'Z' {
            ((c as u8) + 32) as char
        } else {
            c
        };
        r.push(l);
        assert(lower_ascii(s@.take(i + 1)) =~= lower_ascii(s@.take(i as int)).push(lower_char(c)));
        i = i + 1;
    }
    assert(s@.take(s.len() as int) =~= s@);
    r
}

fn equals_literal(a: &Vec<char>, b: &Vec<char>) -> (r: bool)
    ensures
        r == (a@ == b@),
{
    if a.len() != b.len() {
        return false;
    }
    let mut i: usize = 0;
    while i < a.len()
        invariant
            i <= a.len() == b.len(),
            forall|j: int| 0 <= j < i ==> a@[j] == b@[j],
        decreases a.len() - i,
    {
        if a[i] != b[i] {
            return false;
        }
        i = i + 1;
    }
    assert(a@ =~= b@);
    true
}

fn is_heading_in(t: &Vec<char>) -> (r: bool)
    ensures
        r == is_heading(t@),
{
    if t.len() > 0 && t[0] == '#' {
        return true;
    }
    let lower = lower_ascii_in(t);
    let toc = vec!['t', 'a', 'b', 'l', 'e', ' ', 'o', 'f', ' ', 'c', 'o', 'n', 't', 'e', 'n', 't', 's'];
    let contents = vec!['c', 'o', 'n', 't', 'e', 'n', 't', 's'];
    assert(toc@ =~= seq!['t', 'a', 'b', 'l', 'e', ' ', 'o', 'f', ' ', 'c', 'o', 'n', 't', 'e', 'n', 't', 's']);
    assert(contents@ =~= seq!['c', 'o', 'n', 't', 'e', 'n', 't', 's']);
    equals_literal(&lower, &toc) || equals_literal(&lower, &contents)
}

fn unwrap_lines_in(s: &Vec<char>) -> (r: Vec<char>)
    ensures
        r@ == unwrap_lines(s@),
{
    let mut r: Vec<char> = Vec::new();
    let mut i: usize = 0;
    while i < s.len()
        invariant
            i <= s.len(),
            r@ == unwrap_lines(s@.take(i as int)),
        decreases s.len() - i,
    {
        let c = s[i];
        r.push(if c == '\n' { ' ' } else { c });
        assert(unwrap_lines(s@.take(i + 1)) =~= unwrap_lines(s@.take(i as int)).push(
            if c == '\n' { ' ' } else { c },
        ));
        i = i + 1;
    }
    assert(s@.take(s.len() as int) =~= s@);
    r
}

fn close_paragraph_in(out: &mut Vec<Vec<char>>, current: &Vec<char>, cfg: &ChunkConfig)
    ensures
        deep(final(out)@) == close_paragraph(deep(old(out)@), current@, *cfg),
{
    let t = trim_chars(current);
    if t.len() == 0 {
        return;
    }
    if cfg.strip_headers && is_heading_in(&t) {
        return;
    }
    let cleaned = unwrap_lines_in(&t);
    if byte_len_of(&cleaned) < cfg.min_paragraph_chars as u128 && out.len() > 0 {
        let last_index = out.len() - 1;
        let joined = join_space(&out[last_index], &cleaned);
        let ghost before = out@;
        out.set(last_index, joined);
        assert(deep(out@) =~= deep(before).update(last_index as int, joined@));
    } else {
        proof {
            lemma_deep_push(out@, cleaned);
        }
        out.push(cleaned);
    }
}

/// Ends the paragraph under construction and starts an empty one. A blank paragraph
/// is dropped, a heading is dropped when `strip_headers` is set, newlines become
/// spaces, and a paragraph shorter than `min_paragraph_chars` bytes joins the
/// previous one after a space when there is one.
pub fn push_paragraph(out: &mut Vec<String>, current: &mut String, cfg: &ChunkConfig)
    ensures
        views(final(out)@) == close_paragraph(views(old(out)@), old(current)@, *cfg),
        final(current)@ == Seq::<char>::empty(),
{
    let mut paras: Vec<Vec<char>> = Vec::new();
    let mut i: usize = 0;
    while i < out.len()
        invariant
            i <= out.len(),
            deep(paras@) == views(out@).take(i as int),
        decreases out.len() - i,
    {
        let p = chars_of(out[i].as_str());
        proof {
            lemma_deep_push(paras@, p);
            assert(views(out@).take(i + 1) =~= views(out@).take(i as int).push(out@[i as int]@));
        }
        paras.push(p);
        i = i + 1;
    }
    assert(views(out@).take(out.len() as int) =~= views(out@));
    let cur = chars_of(current.as_str());
    close_paragraph_in(&mut paras, &cur, cfg);
    *out = strings_of(&paras);
    *current = String::new();
}

/// Splits text into paragraphs: lines are trimmed, a blank line ends a paragraph,
/// and each paragraph is closed as `push_paragraph` describes.
pub fn split_paragraphs(text: &str, cfg: &ChunkConfig) -> (r: Vec<String>)
    ensures
        views(r@) == paragraphs_of(text@, *cfg),
{
    let s = chars_of(text);
    let lines = lines_in(&s);
    let mut out: Vec<Vec<char>> = Vec::new();
    let mut cur: Vec<char> = Vec::new();
    let mut i: usize = 0;
    assert(deep(out@) =~= Seq::<Seq<char>>::empty());
    assert(deep(lines@).take(0) =~= Seq::<Seq<char>>::empty());
    while i < lines.len()
        invariant
            i <= lines.len(),
            deep(lines@) == lines_of(s@),
            (deep(out@), cur@) == paragraph_run(deep(lines@).take(i as int), *cfg),
        decreases lines.len() - i,
    {
        let line = trim_chars(&lines[i]);
        proof {
            assert(deep(lines@).take(i + 1).drop_last() =~= deep(lines@).take(i as int));
            assert(deep(lines@).take(i + 1).last() == lines@[i as int]@);
        }
        if line.len() == 0 {
            close_paragraph_in(&mut out, &cur, cfg);
            cur = Vec::new();
        } else {
            let ghost before = cur@;
            let mut k: usize = 0;
            while k < line.len()
                invariant
                    k <= line.len(),
                    cur@ == before + line@.take(k as int),
                decreases line.len() - k,
            {
                cur.push(line[k]);
                assert(before + line@.take(k + 1) =~= (before + line@.take(k as int)).push(line@[k as int]));
                k = k + 1;
            }
            cur.push('\n');
            assert(line@.take(line.len() as int) =~= line@);
        }
        i = i + 1;
    }
    assert(deep(lines@).take(lines.len() as int) =~= deep(lines@));
    close_paragraph_in(&mut out, &cur, cfg);
    strings_of(&out)
}

} // verus!
