//! The chunk assembler: packs paragraph pieces into size-bounded chunks that carry
//! the tail of the previous chunk forward.

use vstd::prelude::*;
use crate::config::ChunkConfig;
use crate::splitter::{
    all_fit, bounded, bounded_in, fits, flush_into, large_parts, large_parts_in, append_pieces,
    lemma_bounded_fit,
};
use crate::text::{
    byte_len, byte_len_of, chars_of, deep, lemma_byte_len_join, lemma_deep_push, string_of,
};

verus! {

/// The last `k` characters of `s` (all of `s` when it is no longer); nothing when
/// `k` is zero.
pub open spec fn tail(s: Seq<char>, k: nat) -> Seq<char> {
    if k == 0 {
        Seq::empty()
    } else if s.len() <= k {
        s
    } else {
        s.subrange(s.len() - k, s.len() as int)
    }
}

/// The pieces of one paragraph: a paragraph over `max_para` bytes is split at
/// sentence boundaries, and every part over `max_chunk` bytes at word boundaries.
pub open spec fn paragraph_pieces(p: Seq<char>, max_para: nat, max_chunk: nat) -> Seq<Seq<char>> {
    let parts = if byte_len(p) > max_para {
        large_parts(p, max_para)
    } else {
        seq![p]
    };
    bounded(parts, max_chunk)
}

/// The pieces of all paragraphs, in order.
pub open spec fn all_pieces(ps: Seq<Seq<char>>, max_para: nat, max_chunk: nat) -> Seq<Seq<char>>
    decreases ps.len(),
{
    if ps.len() == 0 {
        Seq::empty()
    } else {
        all_pieces(ps.drop_last(), max_para, max_chunk) + paragraph_pieces(
            ps.last(),
            max_para,
            max_chunk,
        )
    }
}

/// Emitted chunks, the chunk under construction, and the overlap carried from the
/// last chunk emitted on reaching the target size.
pub type Assembly = (Seq<Seq<char>>, Seq<char>, Seq<char>);

/// A new chunk that starts with piece `p`: the carried overlap, a space and `p`,
/// unless that would exceed `max` bytes, in which case `p` alone.
pub open spec fn seeded(carry: Seq<char>, p: Seq<char>, max: nat) -> Seq<char> {
    if carry.len() > 0 && byte_len(carry) + 1 + byte_len(p) <= max {
        carry + seq![' '] + p
    } else {
        p
    }
}

/// Adds piece `p`: when it does not fit beside a non-empty current chunk, that chunk
/// is closed and the next one is seeded with its tail.
pub open spec fn place(st: Assembly, p: Seq<char>, max: nat, k: nat) -> Assembly {
    if st.1.len() > 0 && byte_len(st.1) + 1 + byte_len(p) > max {
        (st.0.push(st.1), seeded(tail(st.1, k), p, max), Seq::empty())
    } else if st.1.len() > 0 {
        (st.0, st.1 + seq![' '] + p, st.2)
    } else {
        (st.0, seeded(st.2, p, max), Seq::empty())
    }
}

/// Emits the current chunk once it reaches `target` bytes, and carries its tail.
pub open spec fn settle(st: Assembly, target: nat, k: nat) -> Assembly {
    if st.1.len() > 0 && byte_len(st.1) >= target {
        (st.0.push(st.1), Seq::empty(), tail(st.1, k))
    } else {
        st
    }
}

pub open spec fn assemble_run(ps: Seq<Seq<char>>, max: nat, target: nat, k: nat) -> Assembly
    decreases ps.len(),
{
    if ps.len() == 0 {
        (Seq::empty(), Seq::empty(), Seq::empty())
    } else if ps.last().len() == 0 {
        assemble_run(ps.drop_last(), max, target, k)
    } else {
        settle(place(assemble_run(ps.drop_last(), max, target, k), ps.last(), max, k), target, k)
    }
}

/// The chunks assembled from pieces `ps`; empty pieces contribute nothing.
pub open spec fn assemble(ps: Seq<Seq<char>>, max: nat, target: nat, k: nat) -> Seq<Seq<char>> {
    let st = assemble_run(ps, max, target, k);
    if st.1.len() > 0 {
        st.0.push(st.1)
    } else {
        st.0
    }
}

/// The chunks of a sequence of paragraphs under `cfg`.
pub open spec fn chunks_of(ps: Seq<Seq<char>>, cfg: ChunkConfig) -> Seq<Seq<char>> {
    assemble(
        all_pieces(ps, cfg.max_paragraph_chars as nat, cfg.max_chunk_chars as nat),
        cfg.max_chunk_chars as nat,
        cfg.target_chunk_chars as nat,
        cfg.chunk_overlap_chars as nat,
    )
}

/// Views of a sequence of strings.
pub open spec fn views(v: Seq<String>) -> Seq<Seq<char>> {
    v.map_values(|s: String| s@)
}

/// `a` begins with `b`.
pub open spec fn starts_with(a: Seq<char>, b: Seq<char>) -> bool {
    b.len() <= a.len() && a.subrange(0, b.len() as int) == b
}

/// Chunk `b`, which follows chunk `a`, begins with the overlap tail of `a`, unless
/// `b` begins with a piece of `all` that would exceed `max` bytes after the tail
/// and a space: the piece the chunk was started with when the overlap was dropped.
pub open spec fn overlap_kept(a: Seq<char>, b: Seq<char>, max: nat, k: nat, all: Seq<Seq<char>>) -> bool {
    ||| starts_with(b, tail(a, k))
    ||| exists|j: int|
        0 <= j < all.len() && starts_with(b, #[trigger] all[j]) && byte_len(tail(a, k)) + 1
            + byte_len(all[j]) > max
}

pub open spec fn overlaps_kept(cs: Seq<Seq<char>>, max: nat, k: nat, all: Seq<Seq<char>>) -> bool {
    forall|i: int| 0 <= i < cs.len() - 1 ==> overlap_kept(#[trigger] cs[i], cs[i + 1], max, k, all)
}

/// The invariant of the assembler on which the overlap law rests.
pub open spec fn overlap_state(st: Assembly, max: nat, k: nat, all: Seq<Seq<char>>) -> bool {
    &&& overlaps_kept(st.0, max, k, all)
    &&& st.0.len() == 0 ==> st.2.len() == 0
    &&& st.0.len() > 0 && st.1.len() > 0 ==> overlap_kept(st.0.last(), st.1, max, k, all)
    &&& st.0.len() > 0 && st.1.len() == 0 ==> st.2 == tail(st.0.last(), k)
}

proof fn lemma_overlaps_push(cs: Seq<Seq<char>>, x: Seq<char>, max: nat, k: nat, all: Seq<Seq<char>>)
    requires
        overlaps_kept(cs, max, k, all),
        cs.len() > 0 ==> overlap_kept(cs.last(), x, max, k, all),
    ensures
        overlaps_kept(cs.push(x), max, k, all),
{
    let cs2 = cs.push(x);
    assert forall|i: int| 0 <= i < cs2.len() - 1 implies overlap_kept(
        #[trigger] cs2[i],
        cs2[i + 1],
        max,
        k,
        all,
    ) by {
        if i < cs.len() - 1 {
            assert(cs2[i] == cs[i] && cs2[i + 1] == cs[i + 1]);
        }
    }
}

proof fn lemma_seeded_kept(a: Seq<char>, max: nat, k: nat, all: Seq<Seq<char>>, j: int)
    requires
        0 <= j < all.len(),
    ensures
        overlap_kept(a, seeded(tail(a, k), all[j], max), max, k, all),
{
    let t = tail(a, k);
    let p = all[j];
    if t.len() > 0 && byte_len(t) + 1 + byte_len(p) <= max {
        assert((t + seq![' '] + p).subrange(0, t.len() as int) =~= t);
    } else if t.len() == 0 {
        assert(p.subrange(0, 0) =~= t);
    } else {
        assert(p.subrange(0, p.len() as int) =~= p);
        assert(starts_with(p, all[j]));
    }
}

proof fn lemma_join_kept(a: Seq<char>, b: Seq<char>, p: Seq<char>, max: nat, k: nat, all: Seq<Seq<char>>)
    requires
        overlap_kept(a, b, max, k, all),
    ensures
        overlap_kept(a, b + seq![' '] + p, max, k, all),
{
    let t = tail(a, k);
    let c = b + seq![' '] + p;
    if starts_with(b, t) {
        assert(c.subrange(0, t.len() as int) =~= b.subrange(0, t.len() as int));
    } else {
        let j = choose|j: int|
            0 <= j < all.len() && starts_with(b, #[trigger] all[j]) && byte_len(t) + 1 + byte_len(all[j]) > max;
        assert(c.subrange(0, all[j].len() as int) =~= b.subrange(0, all[j].len() as int));
        assert(starts_with(c, all[j]));
    }
}

proof fn lemma_assemble_step(st: Assembly, max: nat, target: nat, k: nat, all: Seq<Seq<char>>, j: int)
    requires
        0 <= j < all.len(),
        all_fit(st.0, max),
        fits(st.1, max),
        overlap_state(st, max, k, all),
        fits(all[j], max),
        all[j].len() > 0,
    ensures
        all_fit(settle(place(st, all[j], max, k), target, k).0, max),
        fits(settle(place(st, all[j], max, k), target, k).1, max),
        overlap_state(settle(place(st, all[j], max, k), target, k), max, k, all),
{
    let p = all[j];
    let st1 = place(st, p, max, k);
    lemma_byte_len_join(st.1, p);
    if st.1.len() > 0 && byte_len(st.1) + 1 + byte_len(p) > max {
        lemma_overlaps_push(st.0, st.1, max, k, all);
        lemma_seeded_kept(st.1, max, k, all, j);
        lemma_byte_len_join(tail(st.1, k), p);
        assert forall|i: int| 0 <= i < st1.0.len() implies fits(#[trigger] st1.0[i], max) by {
            if i < st.0.len() {
                assert(st1.0[i] == st.0[i]);
            }
        }
    } else if st.1.len() > 0 {
        if st.0.len() > 0 {
            lemma_join_kept(st.0.last(), st.1, p, max, k, all);
        }
    } else {
        lemma_byte_len_join(st.2, p);
        if st.0.len() > 0 {
            lemma_seeded_kept(st.0.last(), max, k, all, j);
        }
    }
    let st2 = settle(st1, target, k);
    if st1.1.len() > 0 && byte_len(st1.1) >= target {
        lemma_overlaps_push(st1.0, st1.1, max, k, all);
        assert forall|i: int| 0 <= i < st2.0.len() implies fits(#[trigger] st2.0[i], max) by {
            if i < st1.0.len() {
                assert(st2.0[i] == st1.0[i]);
            }
        }
        assert(byte_len(Seq::<char>::empty()) == 0);
    }
}

proof fn lemma_assemble_run(ps: Seq<Seq<char>>, max: nat, target: nat, k: nat, all: Seq<Seq<char>>)
    requires
        all_fit(ps, max),
        ps.len() <= all.len(),
        forall|i: int| 0 <= i < ps.len() ==> #[trigger] ps[i] == all[i],
    ensures
        all_fit(assemble_run(ps, max, target, k).0, max),
        fits(assemble_run(ps, max, target, k).1, max),
        overlap_state(assemble_run(ps, max, target, k), max, k, all),
    decreases ps.len(),
{
    if ps.len() > 0 {
        assert(fits(ps[ps.len() - 1], max));
        assert forall|i: int| 0 <= i < ps.drop_last().len() implies fits(
            #[trigger] ps.drop_last()[i],
            max,
        ) by {
            assert(ps.drop_last()[i] == ps[i]);
        }
        assert forall|i: int| 0 <= i < ps.drop_last().len() implies #[trigger] ps.drop_last()[i] == all[i] by {
            assert(ps.drop_last()[i] == ps[i]);
        }
        lemma_assemble_run(ps.drop_last(), max, target, k, all);
        if ps.last().len() > 0 {
            assert(ps[ps.len() - 1] == all[ps.len() - 1]);
            lemma_assemble_step(assemble_run(ps.drop_last(), max, target, k), max, target, k, all, ps.len() - 1);
        }
    } else {
        assert(byte_len(Seq::<char>::empty()) == 0);
    }
}

proof fn lemma_all_pieces_fit(ps: Seq<Seq<char>>, max_para: nat, max_chunk: nat)
    ensures
        all_fit(all_pieces(ps, max_para, max_chunk), max_chunk),
    decreases ps.len(),
{
    if ps.len() > 0 {
        lemma_all_pieces_fit(ps.drop_last(), max_para, max_chunk);
        let p = ps.last();
        let parts = if byte_len(p) > max_para {
            large_parts(p, max_para)
        } else {
            seq![p]
        };
        lemma_bounded_fit(parts, max_chunk);
        let a = all_pieces(ps.drop_last(), max_para, max_chunk);
        let b = paragraph_pieces(p, max_para, max_chunk);
        assert forall|i: int| 0 <= i < (a + b).len() implies fits(#[trigger] (a + b)[i], max_chunk) by {
            if i >= a.len() {
                assert((a + b)[i] == b[i - a.len()]);
            }
        }
    }
}

/// Total bytes of a sequence of texts.
pub open spec fn total_bytes(cs: Seq<Seq<char>>) -> nat
    decreases cs.len(),
{
    if cs.len() == 0 {
        0
    } else {
        total_bytes(cs.drop_last()) + byte_len(cs.last())
    }
}

proof fn lemma_total_push(cs: Seq<Seq<char>>, x: Seq<char>)
    ensures
        total_bytes(cs.push(x)) == total_bytes(cs) + byte_len(x),
{
    assert(cs.push(x).drop_last() =~= cs);
}

proof fn lemma_seeded_bytes(carry: Seq<char>, p: Seq<char>, max: nat)
    ensures
        byte_len(seeded(carry, p, max)) >= byte_len(p),
{
    lemma_byte_len_join(carry, p);
}

proof fn lemma_assemble_bytes(ps: Seq<Seq<char>>, max: nat, target: nat, k: nat)
    ensures
        total_bytes(assemble_run(ps, max, target, k).0) + byte_len(assemble_run(ps, max, target, k).1)
            >= total_bytes(ps),
    decreases ps.len(),
{
    if ps.len() > 0 {
        lemma_assemble_bytes(ps.drop_last(), max, target, k);
        let st = assemble_run(ps.drop_last(), max, target, k);
        let p = ps.last();
        if p.len() == 0 {
            assert(byte_len(p) == 0);
        } else {
            let st1 = place(st, p, max, k);
            lemma_byte_len_join(st.1, p);
            if st.1.len() > 0 && byte_len(st.1) + 1 + byte_len(p) > max {
                lemma_total_push(st.0, st.1);
                lemma_seeded_bytes(tail(st.1, k), p, max);
            } else if st.1.len() == 0 {
                lemma_seeded_bytes(st.2, p, max);
                assert(byte_len(st.1) == 0);
            }
            if st1.1.len() > 0 && byte_len(st1.1) >= target {
                lemma_total_push(st1.0, st1.1);
                assert(byte_len(Seq::<char>::empty()) == 0);
            }
        }
    }
}

/// The chunks hold at least as many bytes as the pieces cut from the paragraphs:
/// no piece is dropped, and overlaps and joining spaces only add bytes.
pub proof fn lemma_chunks_keep_pieces(ps: Seq<Seq<char>>, cfg: ChunkConfig)
    ensures
        total_bytes(chunks_of(ps, cfg)) >= total_bytes(
            all_pieces(ps, cfg.max_paragraph_chars as nat, cfg.max_chunk_chars as nat),
        ),
{
    let pieces = all_pieces(ps, cfg.max_paragraph_chars as nat, cfg.max_chunk_chars as nat);
    let max = cfg.max_chunk_chars as nat;
    let target = cfg.target_chunk_chars as nat;
    let k = cfg.chunk_overlap_chars as nat;
    lemma_assemble_bytes(pieces, max, target, k);
    let st = assemble_run(pieces, max, target, k);
    if st.1.len() > 0 {
        lemma_total_push(st.0, st.1);
    } else {
        assert(byte_len(st.1) == 0) by {
            assert(st.1 =~= Seq::<char>::empty());
        }
    }
}

/// Every chunk is within `max_chunk_chars` bytes, but for a chunk of a single
/// character wider than that cap.
pub proof fn lemma_chunks_within_cap(ps: Seq<Seq<char>>, cfg: ChunkConfig)
    ensures
        forall|i: int|
            0 <= i < chunks_of(ps, cfg).len() ==> #[trigger] byte_len(chunks_of(ps, cfg)[i])
                <= cfg.max_chunk_chars || chunks_of(ps, cfg)[i].len() == 1,
{
    let max = cfg.max_chunk_chars as nat;
    let pieces = all_pieces(ps, cfg.max_paragraph_chars as nat, max);
    lemma_all_pieces_fit(ps, cfg.max_paragraph_chars as nat, max);
    lemma_assemble_run(pieces, max, cfg.target_chunk_chars as nat, cfg.chunk_overlap_chars as nat, pieces);
    let st = assemble_run(pieces, max, cfg.target_chunk_chars as nat, cfg.chunk_overlap_chars as nat);
    let cs = chunks_of(ps, cfg);
    assert forall|i: int| 0 <= i < cs.len() implies fits(#[trigger] cs[i], max) by {
        if i < st.0.len() {
            assert(cs[i] == st.0[i]);
        }
    }
    assert forall|i: int| 0 <= i < cs.len() implies #[trigger] byte_len(cs[i])
        <= cfg.max_chunk_chars || cs[i].len() == 1 by {
        assert(fits(cs[i], max));
    }
}

/// Each chunk after the first begins with the overlap tail of the chunk before it,
/// unless it begins with the piece it was started with and that piece, after the
/// tail and a space, would exceed `max_chunk_chars` bytes.
pub proof fn lemma_chunks_overlap(ps: Seq<Seq<char>>, cfg: ChunkConfig)
    ensures
        forall|i: int|
            0 <= i < chunks_of(ps, cfg).len() - 1 ==> overlap_kept(
                #[trigger] chunks_of(ps, cfg)[i],
                chunks_of(ps, cfg)[i + 1],
                cfg.max_chunk_chars as nat,
                cfg.chunk_overlap_chars as nat,
                all_pieces(ps, cfg.max_paragraph_chars as nat, cfg.max_chunk_chars as nat),
            ),
{
    let max = cfg.max_chunk_chars as nat;
    let k = cfg.chunk_overlap_chars as nat;
    let pieces = all_pieces(ps, cfg.max_paragraph_chars as nat, max);
    lemma_all_pieces_fit(ps, cfg.max_paragraph_chars as nat, max);
    lemma_assemble_run(pieces, max, cfg.target_chunk_chars as nat, k, pieces);
    let st = assemble_run(pieces, max, cfg.target_chunk_chars as nat, k);
    if st.1.len() > 0 {
        lemma_overlaps_push(st.0, st.1, max, k, pieces);
    }
    assert(overlaps_kept(chunks_of(ps, cfg), max, k, pieces));
}

/// `a`, a space, then `b`.
pub(crate) fn join_space(a: &Vec<char>, b: &Vec<char>) -> (r: Vec<char>)
    ensures
        r@ == a@ + seq![' '] + b@,
{
    let mut r = a.clone();
    r.push(' ');
    let mut k: usize = 0;
    while k < b.len()
        invariant
            k <= b.len(),
            r@ == a@ + seq![' '] + b@.take(k as int),
        decreases b.len() - k,
    {
        r.push(b[k]);
        assert(a@ + seq![' '] + b@.take(k + 1) =~= (a@ + seq![' '] + b@.take(k as int)).push(
            b@[k as int],
        ));
        k = k + 1;
    }
    assert(b@.take(b.len() as int) =~= b@);
    r
}

fn tail_in(s: &Vec<char>, k: usize) -> (r: Vec<char>)
    ensures
        r@ == tail(s@, k as nat),
{
    if k == 0 {
        return Vec::new();
    }
    if s.len() <= k {
        return s.clone();
    }
    let mut r: Vec<char> = Vec::new();
    let start = s.len() - k;
    let mut i: usize = start;
    while i < s.len()
        invariant
            start <= i <= s.len(),
            start == s.len() - k,
            r@ == s@.subrange(start as int, i as int),
        decreases s.len() - i,
    {
        r.push(s[i]);
        assert(s@.subrange(start as int, i + 1) =~= s@.subrange(start as int, i as int).push(
            s@[i as int],
        ));
        i = i + 1;
    }
    r
}

/// The last `overlap` characters of `text`, or all of it when it is no longer;
/// empty when `overlap` is zero.
pub fn overlap_tail(text: &str, overlap: usize) -> (r: String)
    ensures
        r@ == tail(text@, overlap as nat),
{
    let v = chars_of(text);
    let t = tail_in(&v, overlap);
    string_of(&t)
}

/// Strings with the given character sequences.
pub(crate) fn strings_of(v: &Vec<Vec<char>>) -> (r: Vec<String>)
    ensures
        views(r@) == deep(v@),
{
    let mut r: Vec<String> = Vec::new();
    let mut i: usize = 0;
    while i < v.len()
        invariant
            i <= v.len(),
            views(r@) == deep(v@).take(i as int),
        decreases v.len() - i,
    {
        let s = string_of(&v[i]);
        let ghost before = r@;
        r.push(s);
        assert(views(r@) =~= views(before).push(s@));
        assert(deep(v@).take(i + 1) =~= deep(v@).take(i as int).push(v@[i as int]@));
        i = i + 1;
    }
    assert(deep(v@).take(v.len() as int) =~= deep(v@));
    r
}

/// The word-boundary splitter: text of at most `max_len` bytes is returned whole;
/// otherwise its words are packed greedily into pieces of at most `max_len` bytes,
/// and a longer word is cut at character boundaries.
pub fn split_by_max_bytes(text: &str, max_len: usize) -> (r: Vec<String>)
    ensures
        views(r@) == crate::splitter::word_pieces(text@, max_len as nat),
{
    let v = chars_of(text);
    let pieces = crate::splitter::word_pieces_in(&v, max_len);
    strings_of(&pieces)
}

/// The sentence-safe splitter: sentences end after `.`, `!` or `?` followed by
/// whitespace, sentences over `max_len` bytes go through the word splitter, and the
/// results are recombined greedily into parts of at most `max_len` bytes.
pub fn split_large_paragraph(paragraph: &str, max_len: usize) -> (r: Vec<String>)
    ensures
        views(r@) == large_parts(paragraph@, max_len as nat),
{
    let v = chars_of(paragraph);
    let parts = large_parts_in(&v, max_len);
    strings_of(&parts)
}

fn pieces_in(paragraphs: &[String], max_para: usize, max_chunk: usize) -> (r: Vec<Vec<char>>)
    ensures
        deep(r@) == all_pieces(views(paragraphs@), max_para as nat, max_chunk as nat),
{
    let mut out: Vec<Vec<char>> = Vec::new();
    let mut i: usize = 0;
    assert(deep(out@) =~= Seq::<Seq<char>>::empty());
    assert(views(paragraphs@).take(0) =~= Seq::<Seq<char>>::empty());
    while i < paragraphs.len()
        invariant
            i <= paragraphs.len(),
            deep(out@) == all_pieces(views(paragraphs@).take(i as int), max_para as nat, max_chunk as nat),
        decreases paragraphs.len() - i,
    {
        let p = chars_of(paragraphs[i].as_str());
        proof {
            assert(views(paragraphs@).take(i + 1).drop_last() =~= views(paragraphs@).take(i as int));
            assert(views(paragraphs@).take(i + 1).last() == p@);
        }
        let parts = if byte_len_of(&p) > max_para as u128 {
            large_parts_in(&p, max_para)
        } else {
            let mut one: Vec<Vec<char>> = Vec::new();
            one.push(p);
            assert(deep(one@) =~= seq![p@]);
            one
        };
        let more = bounded_in(&parts, max_chunk);
        append_pieces(&mut out, more);
        i = i + 1;
    }
    assert(views(paragraphs@).take(paragraphs.len() as int) =~= views(paragraphs@));
    out
}

fn seeded_in(carry: &Vec<char>, p: &Vec<char>, p_len: u128, max: usize) -> (r: Vec<char>)
    requires
        p_len == byte_len(p@),
        p_len <= 4 * (usize::MAX as int),
    ensures
        r@ == seeded(carry@, p@, max as nat),
{
    if carry.len() > 0 {
        let c_len = byte_len_of(carry);
        let cn = carry.len();
        assert(c_len <= 4 * (cn as int));
        if c_len + 1 + p_len <= max as u128 {
            return join_space(carry, p);
        }
    }
    p.clone()
}

/// Packs paragraphs into chunks: paragraphs over `max_paragraph_chars` bytes are
/// split at sentence boundaries and parts over `max_chunk_chars` bytes at word
/// boundaries; the pieces are joined by single spaces into chunks that close once
/// they reach `target_chunk_chars` bytes or when the next piece would pass
/// `max_chunk_chars`, and each chunk after the first starts with the last
/// `chunk_overlap_chars` characters of the one before when that still fits.
pub fn build_chunks(paragraphs: &[String], cfg: &ChunkConfig) -> (r: Vec<String>)
    ensures
        views(r@) == chunks_of(views(paragraphs@), *cfg),
{
    let max = cfg.max_chunk_chars;
    let target = cfg.target_chunk_chars;
    let k = cfg.chunk_overlap_chars;
    let pieces = pieces_in(paragraphs, cfg.max_paragraph_chars, max);
    let ghost ps = deep(pieces@);
    let mut chunks: Vec<Vec<char>> = Vec::new();
    let mut cur: Vec<char> = Vec::new();
    let mut cur_len: u128 = 0;
    let mut carry: Vec<char> = Vec::new();
    let mut i: usize = 0;
    assert(deep(chunks@) =~= Seq::<Seq<char>>::empty());
    assert(ps.take(0) =~= Seq::<Seq<char>>::empty());
    while i < pieces.len()
        invariant
            i <= pieces.len(),
            ps == deep(pieces@),
            (deep(chunks@), cur@, carry@) == assemble_run(ps.take(i as int), max as nat, target as nat, k as nat),
            cur_len == byte_len(cur@),
            cur_len <= 4 * (usize::MAX as int),
        decreases pieces.len() - i,
    {
        let p = &pieces[i];
        proof {
            assert(ps.take(i + 1).drop_last() =~= ps.take(i as int));
            assert(ps.take(i + 1).last() == p@);
        }
        if p.len() > 0 {
            let p_len = byte_len_of(p);
            let pn = p.len();
            assert(p_len <= 4 * (pn as int));
            if cur.len() > 0 && cur_len + 1 + p_len > max as u128 {
                let t = tail_in(&cur, k);
                let next = seeded_in(&t, p, p_len, max);
                let done = cur;
                proof {
                    lemma_deep_push(chunks@, done);
                }
                chunks.push(done);
                cur = next;
                carry = Vec::new();
            } else if cur.len() > 0 {
                cur = join_space(&cur, p);
            } else {
                cur = seeded_in(&carry, p, p_len, max);
                carry = Vec::new();
            }
            cur_len = byte_len_of(&cur);
            let cn = cur.len();
            assert(cur_len <= 4 * (cn as int));
            if cur.len() > 0 && cur_len >= target as u128 {
                let t = tail_in(&cur, k);
                let done = cur;
                proof {
                    lemma_deep_push(chunks@, done);
                }
                chunks.push(done);
                cur = Vec::new();
                cur_len = 0;
                carry = t;
            }
        }
        i = i + 1;
    }
    assert(ps.take(pieces.len() as int) =~= ps);
    flush_into(&mut chunks, cur);
    strings_of(&chunks)
}

} // verus!
