//! Cutting a long Markdown text into chapter parts at headings.

use vstd::prelude::*;
use crate::assemble::{strings_of, views};
use crate::splitter::{flush, flush_into, Pending};
use crate::text::{byte_len, byte_len_of, chars_of, deep, lemma_deep_push};

verus! {

/// The lines of `s` as `str::lines` gives them: split at `\n`, a `\r` before the
/// `\n` removed, and no empty line after a final line ending.
pub open spec fn text_lines_run(s: Seq<char>) -> Pending
    decreases s.len(),
{
    if s.len() == 0 {
        (Seq::empty(), Seq::empty())
    } else {
        let st = text_lines_run(s.drop_last());
        if s.last() == '\n' {
            let line = if st.1.len() > 0 && st.1.last() == '\r' {
                st.1.drop_last()
            } else {
                st.1
            };
            (st.0.push(line), Seq::empty())
        } else {
            (st.0, st.1.push(s.last()))
        }
    }
}

pub open spec fn text_lines(s: Seq<char>) -> Seq<Seq<char>> {
    flush(text_lines_run(s))
}

/// One line of the cut: a heading closes the part under construction once that
/// part holds more than `max` bytes; every line joins the part with a newline.
pub open spec fn chapter_step(st: Pending, line: Seq<char>, max: nat) -> Pending {
    let closed = if line.len() > 0 && line[0] == '#' && st.1.len() > 0 && byte_len(st.1) > max {
        (st.0.push(st.1), Seq::<char>::empty())
    } else {
        st
    };
    (closed.0, closed.1 + line + seq!['\n'])
}

pub open spec fn chapter_run(lines: Seq<Seq<char>>, max: nat) -> Pending
    decreases lines.len(),
{
    if lines.len() == 0 {
        (Seq::empty(), Seq::empty())
    } else {
        chapter_step(chapter_run(lines.drop_last(), max), lines.last(), max)
    }
}

/// The chapter parts of a Markdown text.
pub open spec fn chapters(s: Seq<char>, max: nat) -> Seq<Seq<char>> {
    flush(chapter_run(text_lines(s), max))
}

fn text_lines_in(s: &Vec<char>) -> (r: Vec<Vec<char>>)
    ensures
        deep(r@) == text_lines(s@),
{
    let mut out: Vec<Vec<char>> = Vec::new();
    let mut cur: Vec<char> = Vec::new();
    let mut i: usize = 0;
    assert(deep(out@) =~= Seq::<Seq<char>>::empty());
    while i < s.len()
        invariant
            i <= s.len(),
            (deep(out@), cur@) == text_lines_run(s@.take(i as int)),
        decreases s.len() - i,
    {
        let c = s[i];
        assert(s@.take(i + 1).drop_last() =~= s@.take(i as int));
        if c == '\n' {
            let mut line = cur;
            if line.len() > 0 && line[line.len() - 1] == '\r' {
                line.pop();
            }
            proof {
                lemma_deep_push(out@, line);
            }
            out.push(line);
            cur = Vec::new();
        } else {
            cur.push(c);
        }
        i = i + 1;
    }
    assert(s@.take(s.len() as int) =~= s@);
    flush_into(&mut out, cur);
    out
}

/// Cuts a Markdown text into parts: a heading line starts a new part once the
/// current one holds more than `max_chapter_bytes` bytes. Every line keeps a
/// trailing newline.
pub fn split_markdown(raw: &str, max_chapter_bytes: u64) -> (r: Vec<String>)
    ensures
        views(r@) == chapters(raw@, max_chapter_bytes as nat),
{
    let lines = text_lines_in(&chars_of(raw));
    let ghost ls = deep(lines@);
    let mut parts: Vec<Vec<char>> = Vec::new();
    let mut cur: Vec<char> = Vec::new();
    let mut i: usize = 0;
    assert(deep(parts@) =~= Seq::<Seq<char>>::empty());
    assert(ls.take(0) =~= Seq::<Seq<char>>::empty());
    while i < lines.len()
        invariant
            i <= lines.len(),
            ls == deep(lines@),
            ls == text_lines(raw@),
            (deep(parts@), cur@) == chapter_run(ls.take(i as int), max_chapter_bytes as nat),
        decreases lines.len() - i,
    {
        let line = &lines[i];
        proof {
            assert(ls.take(i + 1).drop_last() =~= ls.take(i as int));
            assert(ls.take(i + 1).last() == line@);
        }
        if line.len() > 0 && line[0] == '#' && cur.len() > 0 && byte_len_of(&cur) > max_chapter_bytes as u128 {
            let done = cur;
            proof {
                lemma_deep_push(parts@, done);
            }
            parts.push(done);
            cur = Vec::new();
        }
        let ghost before = cur@;
        let mut k: usize = 0;
        while k < line.len()
            invariant
                k <= line.len(),
                cur@ == before + line@.take(k as int),
            decreases line.len() - k,
        {
            cur.push(line[k]);
            assert(before + line@.take(k + 1) =~= (before + line@.take(k as int)).push(line@[k as int]));
            k = k + 1;
        }
        assert(line@.take(line.len() as int) =~= line@);
        cur.push('\n');
        i = i + 1;
    }
    assert(ls.take(lines.len() as int) =~= ls);
    flush_into(&mut parts, cur);
    strings_of(&parts)
}

} // verus!
