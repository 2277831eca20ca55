//! Word-boundary and sentence-boundary splitting of oversized text.

use vstd::prelude::*;
use crate::text::{
    byte_len, byte_len_of, char_width, char_width_of, deep, is_whitespace_char, is_ws, trim, trim_chars, lemma_byte_len_bounds,
    lemma_byte_len_join, lemma_byte_len_empty, lemma_byte_len_one, lemma_byte_len_push, lemma_char_width,
    lemma_deep_push, lemma_deep_take,
};

verus! {

/// A list of finished pieces together with the piece under construction.
pub type Pending = (Seq<Seq<char>>, Seq<char>);

/// The finished pieces, followed by the open one when it is not empty.
pub open spec fn flush(st: Pending) -> Seq<Seq<char>> {
    if st.1.len() > 0 {
        st.0.push(st.1)
    } else {
        st.0
    }
}

pub open spec fn empty_pending() -> Pending {
    (Seq::empty(), Seq::empty())
}

/// One character of the scan that cuts text into maximal runs of non-whitespace.
pub open spec fn words_step(st: Pending, c: char) -> Pending {
    if is_ws(c) {
        (flush(st), Seq::empty())
    } else {
        (st.0, st.1.push(c))
    }
}

pub open spec fn words_run(s: Seq<char>) -> Pending
    decreases s.len(),
{
    if s.len() == 0 {
        empty_pending()
    } else {
        words_step(words_run(s.drop_last()), s.last())
    }
}

/// The words of `s`: its maximal runs of non-whitespace characters, in order.
pub open spec fn words_of(s: Seq<char>) -> Seq<Seq<char>> {
    flush(words_run(s))
}

/// One character of the cut of a long word into pieces of at most `m` bytes.
pub open spec fn slice_step(st: Pending, c: char, m: nat) -> Pending {
    if st.1.len() > 0 && byte_len(st.1) + char_width(c) > m {
        (st.0.push(st.1), seq![c])
    } else {
        (st.0, st.1.push(c))
    }
}

pub open spec fn slice_run(w: Seq<char>, m: nat) -> Pending
    decreases w.len(),
{
    if w.len() == 0 {
        empty_pending()
    } else {
        slice_step(slice_run(w.drop_last(), m), w.last(), m)
    }
}

/// A word cut at character boundaries into pieces of at most `m` bytes, each as
/// long as the next character allows.
pub open spec fn slices_of(w: Seq<char>, m: nat) -> Seq<Seq<char>> {
    flush(slice_run(w, m))
}

/// One word of the greedy packing of words into buckets of at most `m` bytes.
pub open spec fn pack_step(st: Pending, w: Seq<char>, m: nat) -> Pending {
    if byte_len(w) > m {
        (flush(st) + slices_of(w, m), Seq::empty())
    } else if st.1.len() == 0 {
        (st.0, w)
    } else if byte_len(st.1) + 1 + byte_len(w) <= m {
        (st.0, st.1 + seq![' '] + w)
    } else {
        (st.0.push(st.1), w)
    }
}

pub open spec fn pack_run(ws: Seq<Seq<char>>, m: nat) -> Pending
    decreases ws.len(),
{
    if ws.len() == 0 {
        empty_pending()
    } else {
        pack_step(pack_run(ws.drop_last(), m), ws.last(), m)
    }
}

/// The word-boundary splitter: text within `m` bytes is kept whole; otherwise its
/// words are packed greedily, joined by single spaces, into buckets of at most
/// `m` bytes, and a word longer than `m` is cut at character boundaries.
pub open spec fn word_pieces(text: Seq<char>, m: nat) -> Seq<Seq<char>> {
    if byte_len(text) <= m {
        seq![text]
    } else {
        flush(pack_run(words_of(text), m))
    }
}

/// A piece is within the cap `m`, or is one character wider than the cap.
pub open spec fn fits(p: Seq<char>, m: nat) -> bool {
    byte_len(p) <= m || p.len() == 1
}

pub open spec fn all_fit(ps: Seq<Seq<char>>, m: nat) -> bool {
    forall|i: int| 0 <= i < ps.len() ==> fits(#[trigger] ps[i], m)
}

pub proof fn lemma_slices_fit(w: Seq<char>, m: nat)
    ensures
        all_fit(slices_of(w, m), m),
        all_fit(slice_run(w, m).0, m),
        fits(slice_run(w, m).1, m),
    decreases w.len(),
{
    if w.len() > 0 {
        let st = slice_run(w.drop_last(), m);
        lemma_slices_fit(w.drop_last(), m);
        lemma_byte_len_push(st.1, w.last());
        if st.1.len() > 0 && byte_len(st.1) + char_width(w.last()) > m {
            assert(seq![w.last()].len() == 1);
        } else if st.1.len() == 0 {
            assert(st.1.push(w.last()).len() == 1);
        }
    }
}

pub proof fn lemma_pack_fit(ws: Seq<Seq<char>>, m: nat)
    ensures
        all_fit(pack_run(ws, m).0, m),
        fits(pack_run(ws, m).1, m),
    decreases ws.len(),
{
    if ws.len() > 0 {
        let st = pack_run(ws.drop_last(), m);
        let w = ws.last();
        lemma_pack_fit(ws.drop_last(), m);
        if byte_len(w) > m {
            lemma_slices_fit(w, m);
            let a = flush(st);
            let b = slices_of(w, m);
            assert forall|i: int| 0 <= i < (a + b).len() implies fits(#[trigger] (a + b)[i], m) by {
                if i >= a.len() {
                    assert((a + b)[i] == b[i - a.len()]);
                }
            }
        } else if st.1.len() > 0 && byte_len(st.1) + 1 + byte_len(w) <= m {
            lemma_byte_len_join(st.1, w);
        }
    }
}

pub proof fn lemma_word_pieces_fit(text: Seq<char>, m: nat)
    ensures
        all_fit(word_pieces(text, m), m),
{
    if byte_len(text) > m {
        lemma_pack_fit(words_of(text), m);
    }
}

pub open spec fn all_nonempty(ps: Seq<Seq<char>>) -> bool {
    forall|i: int| 0 <= i < ps.len() ==> (#[trigger] ps[i]).len() > 0
}

proof fn lemma_nonempty_concat(a: Seq<Seq<char>>, b: Seq<Seq<char>>)
    requires
        all_nonempty(a),
        all_nonempty(b),
    ensures
        all_nonempty(a + b),
{
    assert forall|i: int| 0 <= i < (a + b).len() implies (#[trigger] (a + b)[i]).len() > 0 by {
        if i >= a.len() {
            assert((a + b)[i] == b[i - a.len()]);
        }
    }
}

proof fn lemma_nonempty_push(a: Seq<Seq<char>>, x: Seq<char>)
    requires
        all_nonempty(a),
        x.len() > 0,
    ensures
        all_nonempty(a.push(x)),
{
    assert forall|i: int| 0 <= i < a.push(x).len() implies (#[trigger] a.push(x)[i]).len() > 0 by {
        if i < a.len() {
            assert(a.push(x)[i] == a[i]);
        }
    }
}

proof fn lemma_flush_nonempty(st: Pending)
    requires
        all_nonempty(st.0),
    ensures
        all_nonempty(flush(st)),
{
    if st.1.len() > 0 {
        lemma_nonempty_push(st.0, st.1);
    }
}

proof fn lemma_words_nonempty(s: Seq<char>)
    ensures
        all_nonempty(words_run(s).0),
        all_nonempty(words_of(s)),
    decreases s.len(),
{
    if s.len() > 0 {
        lemma_words_nonempty(s.drop_last());
        lemma_flush_nonempty(words_run(s.drop_last()));
    }
    lemma_flush_nonempty(words_run(s));
}

proof fn lemma_slices_nonempty(w: Seq<char>, m: nat)
    ensures
        all_nonempty(slice_run(w, m).0),
        all_nonempty(slices_of(w, m)),
    decreases w.len(),
{
    if w.len() > 0 {
        lemma_slices_nonempty(w.drop_last(), m);
        let st = slice_run(w.drop_last(), m);
        if st.1.len() > 0 && byte_len(st.1) + char_width(w.last()) > m {
            lemma_nonempty_push(st.0, st.1);
        }
    }
    lemma_flush_nonempty(slice_run(w, m));
}

proof fn lemma_pack_nonempty(ws: Seq<Seq<char>>, m: nat)
    requires
        all_nonempty(ws),
    ensures
        all_nonempty(pack_run(ws, m).0),
    decreases ws.len(),
{
    if ws.len() > 0 {
        assert forall|i: int| 0 <= i < ws.drop_last().len() implies (#[trigger] ws.drop_last()[i]).len() > 0 by {
            assert(ws.drop_last()[i] == ws[i]);
        }
        lemma_pack_nonempty(ws.drop_last(), m);
        let st = pack_run(ws.drop_last(), m);
        let w = ws.last();
        if byte_len(w) > m {
            lemma_flush_nonempty(st);
            lemma_slices_nonempty(w, m);
            lemma_nonempty_concat(flush(st), slices_of(w, m));
        } else if st.1.len() > 0 && byte_len(st.1) + 1 + byte_len(w) > m {
            lemma_nonempty_push(st.0, st.1);
        }
    }
}

/// With a cap of at least four bytes, the word-boundary splitter cuts non-empty
/// text into non-empty pieces of at most `m` bytes each.
pub proof fn lemma_word_pieces_bounded(text: Seq<char>, m: nat)
    requires
        m >= 4,
        text.len() > 0,
    ensures
        forall|i: int|
            0 <= i < word_pieces(text, m).len() ==> (#[trigger] word_pieces(text, m)[i]).len() > 0
                && byte_len(word_pieces(text, m)[i]) <= m,
{
    let ps = word_pieces(text, m);
    lemma_word_pieces_fit(text, m);
    if byte_len(text) > m {
        lemma_words_nonempty(text);
        lemma_pack_nonempty(words_of(text), m);
        lemma_flush_nonempty(pack_run(words_of(text), m));
    }
    assert forall|i: int| 0 <= i < ps.len() implies (#[trigger] ps[i]).len() > 0 && byte_len(ps[i]) <= m by {
        assert(fits(ps[i], m));
        if ps[i].len() == 1 {
            lemma_byte_len_one(ps[i][0]);
            lemma_char_width(ps[i][0]);
            assert(ps[i] =~= seq![ps[i][0]]);
        }
    }
}

/// Appends the open piece to the finished ones when it is not empty.
pub(crate) fn flush_into(out: &mut Vec<Vec<char>>, cur: Vec<char>)
    ensures
        deep(final(out)@) == flush((deep(old(out)@), cur@)),
{
    if cur.len() > 0 {
        proof {
            lemma_deep_push(out@, cur);
        }
        out.push(cur);
    }
}

/// Appends every piece of `more`, in order.
pub(crate) fn append_pieces(out: &mut Vec<Vec<char>>, more: Vec<Vec<char>>)
    ensures
        deep(final(out)@) == deep(old(out)@) + deep(more@),
{
    let ghost start = deep(out@);
    let mut i: usize = 0;
    while i < more.len()
        invariant
            i <= more.len(),
            deep(out@) == start + deep(more@).take(i as int),
        decreases more.len() - i,
    {
        let p = more[i].clone();
        proof {
            lemma_deep_push(out@, p);
            assert(deep(more@).take(i + 1) =~= deep(more@).take(i as int).push(more@[i as int]@));
            assert(start + deep(more@).take(i + 1) =~= (start + deep(more@).take(i as int)).push(
                more@[i as int]@,
            ));
        }
        out.push(p);
        i = i + 1;
    }
    assert(deep(more@).take(more.len() as int) =~= deep(more@));
}

fn words_in(text: &Vec<char>) -> (r: Vec<Vec<char>>)
    ensures
        deep(r@) == words_of(text@),
{
    let mut out: Vec<Vec<char>> = Vec::new();
    let mut cur: Vec<char> = Vec::new();
    let mut i: usize = 0;
    assert(deep(out@) =~= Seq::<Seq<char>>::empty());
    while i < text.len()
        invariant
            i <= text.len(),
            (deep(out@), cur@) == words_run(text@.take(i as int)),
        decreases text.len() - i,
    {
        let c = text[i];
        assert(text@.take(i + 1).drop_last() =~= text@.take(i as int));
        if is_whitespace_char(c) {
            let done = cur;
            flush_into(&mut out, done);
            cur = Vec::new();
        } else {
            cur.push(c);
        }
        i = i + 1;
    }
    assert(text@.take(text.len() as int) =~= text@);
    flush_into(&mut out, cur);
    out
}

fn slices_in(w: &Vec<char>, m: usize) -> (r: Vec<Vec<char>>)
    ensures
        deep(r@) == slices_of(w@, m as nat),
{
    let mut out: Vec<Vec<char>> = Vec::new();
    let mut cur: Vec<char> = Vec::new();
    let mut cur_len: u128 = 0;
    let mut i: usize = 0;
    assert(deep(out@) =~= Seq::<Seq<char>>::empty());
    while i < w.len()
        invariant
            i <= w.len(),
            (deep(out@), cur@) == slice_run(w@.take(i as int), m as nat),
            cur_len == byte_len(cur@),
            cur_len <= 4 * cur@.len(),
            cur@.len() <= i,
        decreases w.len() - i,
    {
        let c = w[i];
        let cw = char_width_of(c);
        assert(w@.take(i + 1).drop_last() =~= w@.take(i as int));
        proof {
            lemma_char_width(c);
        }
        if cur.len() > 0 && cur_len + cw as u128 > m as u128 {
            let done = cur;
            proof {
                lemma_deep_push(out@, done);
            }
            out.push(done);
            cur = Vec::new();
            cur.push(c);
            proof {
                lemma_byte_len_push(Seq::<char>::empty(), c);
                assert(Seq::<char>::empty().push(c) =~= seq![c]);
            }
            cur_len = cw as u128;
        } else {
            proof {
                lemma_byte_len_push(cur@, c);
            }
            cur.push(c);
            cur_len = cur_len + cw as u128;
        }
        i = i + 1;
    }
    assert(w@.take(w.len() as int) =~= w@);
    flush_into(&mut out, cur);
    out
}

/// The word-boundary splitter on character vectors.
pub(crate) fn word_pieces_in(text: &Vec<char>, m: usize) -> (r: Vec<Vec<char>>)
    ensures
        deep(r@) == word_pieces(text@, m as nat),
{
    if byte_len_of(text) <= m as u128 {
        let mut one: Vec<Vec<char>> = Vec::new();
        one.push(text.clone());
        assert(deep(one@) =~= seq![text@]);
        return one;
    }
    let words = words_in(text);
    let mut out: Vec<Vec<char>> = Vec::new();
    let mut cur: Vec<char> = Vec::new();
    let mut cur_len: u128 = 0;
    let mut i: usize = 0;
    assert(deep(out@) =~= Seq::<Seq<char>>::empty());
    while i < words.len()
        invariant
            i <= words.len(),
            deep(words@) == words_of(text@),
            (deep(out@), cur@) == pack_run(deep(words@).take(i as int), m as nat),
            cur_len == byte_len(cur@),
            cur_len <= m,
        decreases words.len() - i,
    {
        let w = &words[i];
        let wl = byte_len_of(w);
        proof {
            lemma_deep_take(words@, i + 1);
            lemma_deep_take(words@, i as int);
            assert(deep(words@).take(i + 1).drop_last() =~= deep(words@).take(i as int));
            assert(deep(words@)[i as int] == w@);
        }
        if wl > m as u128 {
            let done = cur;
            flush_into(&mut out, done);
            let sl = slices_in(w, m);
            append_pieces(&mut out, sl);
            cur = Vec::new();
            cur_len = 0;
            assert(byte_len(cur@) == 0) by {
                assert(cur@ =~= Seq::<char>::empty());
            }
        } else if cur.len() == 0 {
            cur = w.clone();
            cur_len = wl;
        } else if cur_len + 1 + wl <= m as u128 {
            let ghost before = cur@;
            cur.push(' ');
            let mut k: usize = 0;
            while k < w.len()
                invariant
                    k <= w.len(),
                    cur@ == before + seq![' '] + w@.take(k as int),
                decreases w.len() - k,
            {
                cur.push(w[k]);
                assert(w@.take(k + 1) =~= w@.take(k as int).push(w@[k as int]));
                assert(before + seq![' '] + w@.take(k + 1) =~= (before + seq![' '] + w@.take(
                    k as int,
                )).push(w@[k as int]));
                k = k + 1;
            }
            proof {
                assert(w@.take(w.len() as int) =~= w@);
                lemma_byte_len_join(before, w@);
            }
            cur_len = cur_len + 1 + wl;
        } else {
            let done = cur;
            proof {
                lemma_deep_push(out@, done);
            }
            out.push(done);
            cur = w.clone();
            cur_len = wl;
        }
        i = i + 1;
    }
    assert(deep(words@).take(words.len() as int) =~= deep(words@));
    flush_into(&mut out, cur);
    out
}


/// Ends a sentence: `.`, `!` or `?`.
pub open spec fn is_terminator(c: char) -> bool {
    c == '.' || c == '!' || c == '?'
}

/// The scan for sentences after the first `n` characters of `s`: a sentence ends
/// after a terminator that is followed by whitespace.
pub open spec fn sentence_run(s: Seq<char>, n: nat) -> Pending
    decreases n,
{
    if n == 0 {
        empty_pending()
    } else {
        let st = sentence_run(s, (n - 1) as nat);
        let c = s[n - 1];
        let buf = st.1.push(c);
        if is_terminator(c) && n < s.len() && is_ws(s[n as int]) {
            (st.0.push(trim(buf)), Seq::empty())
        } else {
            (st.0, buf)
        }
    }
}

/// The trimmed sentences of `s`, with a trailing fragment as a sentence of its own
/// when it holds more than whitespace.
pub open spec fn sentences_of(s: Seq<char>) -> Seq<Seq<char>> {
    let st = sentence_run(s, s.len());
    if trim(st.1).len() > 0 {
        st.0.push(trim(st.1))
    } else {
        st.0
    }
}

/// A piece within `m` bytes is kept; a longer one goes through the word splitter.
pub open spec fn bound_one(s: Seq<char>, m: nat) -> Seq<Seq<char>> {
    if byte_len(s) > m {
        word_pieces(s, m)
    } else {
        seq![s]
    }
}

/// Every piece of `ss` bounded by `m`, in order.
pub open spec fn bounded(ss: Seq<Seq<char>>, m: nat) -> Seq<Seq<char>>
    decreases ss.len(),
{
    if ss.len() == 0 {
        Seq::empty()
    } else {
        bounded(ss.drop_last(), m) + bound_one(ss.last(), m)
    }
}

/// One piece of the greedy recombination of sentences into parts of at most `m` bytes.
pub open spec fn join_step(st: Pending, sub: Seq<char>, m: nat) -> Pending {
    let closed = if st.1.len() > 0 && byte_len(st.1) + byte_len(sub) + 1 > m {
        (st.0.push(trim(st.1)), Seq::<char>::empty())
    } else {
        st
    };
    if closed.1.len() > 0 {
        (closed.0, closed.1 + seq![' '] + sub)
    } else {
        (closed.0, sub)
    }
}

pub open spec fn join_run(subs: Seq<Seq<char>>, m: nat) -> Pending
    decreases subs.len(),
{
    if subs.len() == 0 {
        empty_pending()
    } else {
        join_step(join_run(subs.drop_last(), m), subs.last(), m)
    }
}

/// The sentence-safe split of a long paragraph into parts of at most `m` bytes.
pub open spec fn large_parts(p: Seq<char>, m: nat) -> Seq<Seq<char>> {
    let st = join_run(bounded(sentences_of(p), m), m);
    if trim(st.1).len() > 0 {
        st.0.push(trim(st.1))
    } else {
        st.0
    }
}

pub proof fn lemma_bounded_fit(ss: Seq<Seq<char>>, m: nat)
    ensures
        all_fit(bounded(ss, m), m),
    decreases ss.len(),
{
    if ss.len() > 0 {
        lemma_bounded_fit(ss.drop_last(), m);
        let a = bounded(ss.drop_last(), m);
        let b = bound_one(ss.last(), m);
        if byte_len(ss.last()) > m {
            lemma_word_pieces_fit(ss.last(), m);
        }
        assert forall|i: int| 0 <= i < (a + b).len() implies fits(#[trigger] (a + b)[i], m) by {
            if i >= a.len() {
                assert((a + b)[i] == b[i - a.len()]);
            }
        }
    }
}

fn sentences_in(s: &Vec<char>) -> (r: Vec<Vec<char>>)
    ensures
        deep(r@) == sentences_of(s@),
{
    let mut out: Vec<Vec<char>> = Vec::new();
    let mut buf: Vec<char> = Vec::new();
    let n = s.len();
    let mut i: usize = 0;
    assert(deep(out@) =~= Seq::<Seq<char>>::empty());
    while i < n
        invariant
            i <= n == s.len(),
            (deep(out@), buf@) == sentence_run(s@, i as nat),
        decreases n - i,
    {
        let c = s[i];
        buf.push(c);
        if (c == '.' || c == '!' || c == '?') && i + 1 < n && is_whitespace_char(s[i + 1]) {
            let t = trim_chars(&buf);
            proof {
                lemma_deep_push(out@, t);
            }
            out.push(t);
            buf = Vec::new();
        }
        i = i + 1;
    }
    let t = trim_chars(&buf);
    if t.len() > 0 {
        proof {
            lemma_deep_push(out@, t);
        }
        out.push(t);
    }
    out
}

/// Every piece bounded by `m`.
pub(crate) fn bounded_in(ss: &Vec<Vec<char>>, m: usize) -> (r: Vec<Vec<char>>)
    ensures
        deep(r@) == bounded(deep(ss@), m as nat),
{
    let mut out: Vec<Vec<char>> = Vec::new();
    let mut i: usize = 0;
    assert(deep(out@) =~= Seq::<Seq<char>>::empty());
    assert(deep(ss@).take(0) =~= Seq::<Seq<char>>::empty());
    while i < ss.len()
        invariant
            i <= ss.len(),
            deep(out@) == bounded(deep(ss@).take(i as int), m as nat),
        decreases ss.len() - i,
    {
        let p = &ss[i];
        proof {
            assert(deep(ss@).take(i + 1).drop_last() =~= deep(ss@).take(i as int));
            assert(deep(ss@).take(i + 1).last() == p@);
        }
        if byte_len_of(p) > m as u128 {
            let more = word_pieces_in(p, m);
            append_pieces(&mut out, more);
        } else {
            let mut one: Vec<Vec<char>> = Vec::new();
            one.push(p.clone());
            assert(deep(one@) =~= seq![p@]);
            append_pieces(&mut out, one);
        }
        i = i + 1;
    }
    assert(deep(ss@).take(ss.len() as int) =~= deep(ss@));
    out
}

/// The sentence-safe splitter on character vectors.
pub(crate) fn large_parts_in(p: &Vec<char>, m: usize) -> (r: Vec<Vec<char>>)
    ensures
        deep(r@) == large_parts(p@, m as nat),
{
    let sentences = sentences_in(p);
    let subs = bounded_in(&sentences, m);
    let mut out: Vec<Vec<char>> = Vec::new();
    let mut cur: Vec<char> = Vec::new();
    let mut cur_len: u128 = 0;
    let mut i: usize = 0;
    assert(deep(out@) =~= Seq::<Seq<char>>::empty());
    while i < subs.len()
        invariant
            i <= subs.len(),
            deep(subs@) == bounded(sentences_of(p@), m as nat),
            (deep(out@), cur@) == join_run(deep(subs@).take(i as int), m as nat),
            cur_len == byte_len(cur@),
            cur_len <= 4 * (usize::MAX as int),
        decreases subs.len() - i,
    {
        let sub = &subs[i];
        let sl = byte_len_of(sub);
        proof {
            assert(deep(subs@).take(i + 1).drop_last() =~= deep(subs@).take(i as int));
            assert(deep(subs@).take(i + 1).last() == sub@);
        }
        let subn = sub.len();
        assert(sl <= 4 * (subn as int));
        if cur.len() > 0 && cur_len + sl + 1 > m as u128 {
            let t = trim_chars(&cur);
            proof {
                lemma_deep_push(out@, t);
            }
            out.push(t);
            cur = Vec::new();
            cur_len = 0;
            proof {
                assert(cur@ =~= Seq::<char>::empty());
                lemma_byte_len_empty();
            }
        }
        if cur.len() > 0 {
            let ghost before = cur@;
            cur.push(' ');
            let mut k: usize = 0;
            while k < sub.len()
                invariant
                    k <= sub.len(),
                    cur@ == before + seq![' '] + sub@.take(k as int),
                decreases sub.len() - k,
            {
                cur.push(sub[k]);
                assert(sub@.take(k + 1) =~= sub@.take(k as int).push(sub@[k as int]));
                assert(before + seq![' '] + sub@.take(k + 1) =~= (before + seq![' '] + sub@.take(
                    k as int,
                )).push(sub@[k as int]));
                k = k + 1;
            }
            proof {
                assert(sub@.take(sub.len() as int) =~= sub@);
                lemma_byte_len_join(before, sub@);
                lemma_byte_len_bounds(sub@);
            }
            cur_len = cur_len + 1 + sl;
        } else {
            cur = sub.clone();
            cur_len = sl;
        }
        i = i + 1;
    }
    assert(deep(subs@).take(subs.len() as int) =~= deep(subs@));
    let t = trim_chars(&cur);
    if t.len() > 0 {
        proof {
            lemma_deep_push(out@, t);
        }
        out.push(t);
    }
    out
}

/// The pieces of `s` between occurrences of `sep`; a final empty piece is left out.
pub open spec fn split_run(s: Seq<char>, sep: char) -> Pending
    decreases s.len(),
{
    if s.len() == 0 {
        empty_pending()
    } else {
        let st = split_run(s.drop_last(), sep);
        if s.last() == sep {
            (st.0.push(st.1), Seq::empty())
        } else {
            (st.0, st.1.push(s.last()))
        }
    }
}

pub open spec fn split_on(s: Seq<char>, sep: char) -> Seq<Seq<char>> {
    flush(split_run(s, sep))
}

/// The pieces of `v` between occurrences of `sep`.
pub(crate) fn split_chars(v: &Vec<char>, sep: char) -> (r: Vec<Vec<char>>)
    ensures
        deep(r@) == split_on(v@, sep),
{
    let mut out: Vec<Vec<char>> = Vec::new();
    let mut cur: Vec<char> = Vec::new();
    let mut i: usize = 0;
    assert(deep(out@) =~= Seq::<Seq<char>>::empty());
    while i < v.len()
        invariant
            i <= v.len(),
            (deep(out@), cur@) == split_run(v@.take(i as int), sep),
        decreases v.len() - i,
    {
        let c = v[i];
        assert(v@.take(i + 1).drop_last() =~= v@.take(i as int));
        if c == sep {
            let done = cur;
            proof {
                lemma_deep_push(out@, done);
            }
            out.push(done);
            cur = Vec::new();
        } else {
            cur.push(c);
        }
        i = i + 1;
    }
    assert(v@.take(v.len() as int) =~= v@);
    flush_into(&mut out, cur);
    out
}

} // verus!
