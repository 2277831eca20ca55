//! The non-whitespace content of text and how the chunking pipeline keeps it.

use vstd::prelude::*;
use crate::assemble::{all_pieces, chunks_of, lemma_chunks_keep_pieces, paragraph_pieces, total_bytes};
use crate::config::ChunkConfig;
use crate::normalize::chunks_of_normalized;
use crate::paragraph::{close_paragraph, lines_of, lines_run, paragraph_run, paragraphs_of, unwrap_lines};
use crate::splitter::{
    bound_one, bounded, flush, join_run, large_parts, pack_run, sentence_run, sentences_of,
    slice_run, slices_of, word_pieces, words_of, words_run, Pending,
};
use crate::text::{byte_len, char_width, is_ws, lemma_byte_len_push, trim, trim_end, trim_start};

verus! {

/// Bytes of the non-whitespace characters of `s`.
pub open spec fn content(s: Seq<char>) -> nat
    decreases s.len(),
{
    if s.len() == 0 {
        0
    } else {
        content(s.drop_last()) + if is_ws(s.last()) {
            0
        } else {
            char_width(s.last())
        }
    }
}

/// Bytes of the non-whitespace characters of a sequence of texts.
pub open spec fn total_content(ss: Seq<Seq<char>>) -> nat
    decreases ss.len(),
{
    if ss.len() == 0 {
        0
    } else {
        total_content(ss.drop_last()) + content(ss.last())
    }
}

proof fn lemma_content_concat(a: Seq<char>, b: Seq<char>)
    ensures
        content(a + b) == content(a) + content(b),
    decreases b.len(),
{
    if b.len() == 0 {
        assert(a + b =~= a);
    } else {
        lemma_content_concat(a, b.drop_last());
        assert((a + b).drop_last() =~= a + b.drop_last());
        assert((a + b).last() == b.last());
    }
}

proof fn lemma_content_one(c: char)
    ensures
        content(seq![c]) == if is_ws(c) { 0 } else { char_width(c) },
{
    assert(seq![c].drop_last() =~= Seq::<char>::empty());
    assert(seq![c].last() == c);
    assert(content(Seq::<char>::empty()) == 0);
}

proof fn lemma_content_join(a: Seq<char>, b: Seq<char>)
    ensures
        content(a + seq![' '] + b) == content(a) + content(b),
{
    lemma_content_concat(a + seq![' '], b);
    lemma_content_concat(a, seq![' ']);
    lemma_content_one(' ');
}

proof fn lemma_content_le_bytes(s: Seq<char>)
    ensures
        content(s) <= byte_len(s),
    decreases s.len(),
{
    if s.len() > 0 {
        lemma_content_le_bytes(s.drop_last());
        lemma_byte_len_push(s.drop_last(), s.last());
        assert(s.drop_last().push(s.last()) =~= s);
    }
}

proof fn lemma_content_trim_start(s: Seq<char>)
    ensures
        content(trim_start(s)) == content(s),
    decreases s.len(),
{
    if s.len() > 0 && is_ws(s[0]) {
        lemma_content_trim_start(s.drop_first());
        lemma_content_concat(seq![s[0]], s.drop_first());
        lemma_content_one(s[0]);
        assert(seq![s[0]] + s.drop_first() =~= s);
    }
}

proof fn lemma_content_trim_end(s: Seq<char>)
    ensures
        content(trim_end(s)) == content(s),
    decreases s.len(),
{
    if s.len() > 0 && is_ws(s.last()) {
        lemma_content_trim_end(s.drop_last());
    }
}

proof fn lemma_content_trim(s: Seq<char>)
    ensures
        content(trim(s)) == content(s),
{
    lemma_content_trim_start(s);
    lemma_content_trim_end(trim_start(s));
}

proof fn lemma_total_push(ss: Seq<Seq<char>>, x: Seq<char>)
    ensures
        total_content(ss.push(x)) == total_content(ss) + content(x),
{
    assert(ss.push(x).drop_last() =~= ss);
}

proof fn lemma_total_concat(a: Seq<Seq<char>>, b: Seq<Seq<char>>)
    ensures
        total_content(a + b) == total_content(a) + total_content(b),
    decreases b.len(),
{
    if b.len() == 0 {
        assert(a + b =~= a);
    } else {
        lemma_total_concat(a, b.drop_last());
        assert((a + b).drop_last() =~= a + b.drop_last());
        assert((a + b).last() == b.last());
    }
}

proof fn lemma_total_one(x: Seq<char>)
    ensures
        total_content(seq![x]) == content(x),
{
    assert(seq![x].drop_last() =~= Seq::<Seq<char>>::empty());
    assert(seq![x].last() == x);
    assert(total_content(Seq::<Seq<char>>::empty()) == 0);
}

proof fn lemma_total_flush(st: Pending)
    ensures
        total_content(flush(st)) == total_content(st.0) + content(st.1),
{
    if st.1.len() > 0 {
        lemma_total_push(st.0, st.1);
    } else {
        assert(st.1 =~= Seq::<char>::empty());
    }
}

proof fn lemma_words_content(s: Seq<char>)
    ensures
        total_content(words_run(s).0) + content(words_run(s).1) == content(s),
        total_content(words_of(s)) == content(s),
    decreases s.len(),
{
    if s.len() > 0 {
        lemma_words_content(s.drop_last());
        let st = words_run(s.drop_last());
        lemma_total_flush(st);
        assert(st.1.push(s.last()).drop_last() =~= st.1);
    }
    lemma_total_flush(words_run(s));
}

proof fn lemma_slices_content(w: Seq<char>, m: nat)
    ensures
        total_content(slice_run(w, m).0) + content(slice_run(w, m).1) == content(w),
        total_content(slices_of(w, m)) == content(w),
    decreases w.len(),
{
    if w.len() > 0 {
        lemma_slices_content(w.drop_last(), m);
        let st = slice_run(w.drop_last(), m);
        lemma_total_push(st.0, st.1);
        lemma_content_one(w.last());
        assert(st.1.push(w.last()).drop_last() =~= st.1);
    }
    lemma_total_flush(slice_run(w, m));
}

proof fn lemma_pack_content(ws: Seq<Seq<char>>, m: nat)
    ensures
        total_content(pack_run(ws, m).0) + content(pack_run(ws, m).1) == total_content(ws),
    decreases ws.len(),
{
    if ws.len() > 0 {
        lemma_pack_content(ws.drop_last(), m);
        let st = pack_run(ws.drop_last(), m);
        let w = ws.last();
        lemma_total_flush(st);
        lemma_slices_content(w, m);
        lemma_total_concat(flush(st), slices_of(w, m));
        lemma_content_join(st.1, w);
        lemma_total_push(st.0, st.1);
        assert(content(Seq::<char>::empty()) == 0);
    }
}

proof fn lemma_word_pieces_content(text: Seq<char>, m: nat)
    ensures
        total_content(word_pieces(text, m)) == content(text),
{
    lemma_total_one(text);
    lemma_words_content(text);
    lemma_pack_content(words_of(text), m);
    lemma_total_flush(pack_run(words_of(text), m));
}

proof fn lemma_sentences_run_content(s: Seq<char>, n: nat)
    requires
        n <= s.len(),
    ensures
        total_content(sentence_run(s, n).0) + content(sentence_run(s, n).1) == content(s.take(n as int)),
    decreases n,
{
    if n == 0 {
        assert(s.take(0) =~= Seq::<char>::empty());
    } else {
        lemma_sentences_run_content(s, (n - 1) as nat);
        let st = sentence_run(s, (n - 1) as nat);
        let buf = st.1.push(s[n - 1]);
        assert(buf.drop_last() =~= st.1);
        assert(s.take(n as int).drop_last() =~= s.take(n - 1));
        assert(s.take(n as int).last() == s[n - 1]);
        lemma_content_trim(buf);
        lemma_total_push(st.0, trim(buf));
        assert(content(Seq::<char>::empty()) == 0);
    }
}

proof fn lemma_sentences_content(s: Seq<char>)
    ensures
        total_content(sentences_of(s)) == content(s),
{
    lemma_sentences_run_content(s, s.len());
    assert(s.take(s.len() as int) =~= s);
    let st = sentence_run(s, s.len());
    lemma_content_trim(st.1);
    lemma_total_push(st.0, trim(st.1));
    if trim(st.1).len() == 0 {
        assert(trim(st.1) =~= Seq::<char>::empty());
    }
}

proof fn lemma_bounded_content(ss: Seq<Seq<char>>, m: nat)
    ensures
        total_content(bounded(ss, m)) == total_content(ss),
    decreases ss.len(),
{
    if ss.len() > 0 {
        lemma_bounded_content(ss.drop_last(), m);
        lemma_word_pieces_content(ss.last(), m);
        lemma_total_one(ss.last());
        lemma_total_concat(bounded(ss.drop_last(), m), bound_one(ss.last(), m));
    }
}

proof fn lemma_join_content(subs: Seq<Seq<char>>, m: nat)
    ensures
        total_content(join_run(subs, m).0) + content(join_run(subs, m).1) == total_content(subs),
    decreases subs.len(),
{
    if subs.len() > 0 {
        lemma_join_content(subs.drop_last(), m);
        let st = join_run(subs.drop_last(), m);
        let sub = subs.last();
        lemma_content_trim(st.1);
        lemma_total_push(st.0, trim(st.1));
        assert(content(Seq::<char>::empty()) == 0);
        let closed = if st.1.len() > 0 && byte_len(st.1) + byte_len(sub) + 1 > m {
            (st.0.push(trim(st.1)), Seq::<char>::empty())
        } else {
            st
        };
        lemma_content_join(closed.1, sub);
    }
}

proof fn lemma_large_parts_content(p: Seq<char>, m: nat)
    ensures
        total_content(large_parts(p, m)) == content(p),
{
    lemma_sentences_content(p);
    lemma_bounded_content(sentences_of(p), m);
    lemma_join_content(bounded(sentences_of(p), m), m);
    let st = join_run(bounded(sentences_of(p), m), m);
    lemma_content_trim(st.1);
    lemma_total_push(st.0, trim(st.1));
    if trim(st.1).len() == 0 {
        assert(trim(st.1) =~= Seq::<char>::empty());
    }
}

proof fn lemma_all_pieces_content(ps: Seq<Seq<char>>, max_para: nat, max_chunk: nat)
    ensures
        total_content(all_pieces(ps, max_para, max_chunk)) == total_content(ps),
    decreases ps.len(),
{
    if ps.len() > 0 {
        lemma_all_pieces_content(ps.drop_last(), max_para, max_chunk);
        let p = ps.last();
        lemma_large_parts_content(p, max_para);
        lemma_total_one(p);
        let parts = if byte_len(p) > max_para {
            large_parts(p, max_para)
        } else {
            seq![p]
        };
        lemma_bounded_content(parts, max_chunk);
        lemma_total_concat(all_pieces(ps.drop_last(), max_para, max_chunk), paragraph_pieces(p, max_para, max_chunk));
    }
}

proof fn lemma_total_content_le_bytes(ss: Seq<Seq<char>>)
    ensures
        total_content(ss) <= total_bytes(ss),
    decreases ss.len(),
{
    if ss.len() > 0 {
        lemma_total_content_le_bytes(ss.drop_last());
        lemma_content_le_bytes(ss.last());
    }
}

/// The chunks hold at least as many bytes as the non-whitespace characters of
/// the paragraphs: splitting and packing drop only whitespace.
pub proof fn lemma_chunks_hold_content(ps: Seq<Seq<char>>, cfg: ChunkConfig)
    ensures
        total_bytes(chunks_of(ps, cfg)) >= total_content(ps),
{
    let pieces = all_pieces(ps, cfg.max_paragraph_chars as nat, cfg.max_chunk_chars as nat);
    lemma_chunks_keep_pieces(ps, cfg);
    lemma_all_pieces_content(ps, cfg.max_paragraph_chars as nat, cfg.max_chunk_chars as nat);
    lemma_total_content_le_bytes(pieces);
}

proof fn lemma_lines_content(s: Seq<char>)
    ensures
        total_content(lines_run(s).0) + content(lines_run(s).1) == content(s),
        total_content(lines_of(s)) == content(s),
    decreases s.len(),
{
    if s.len() > 0 {
        lemma_lines_content(s.drop_last());
        let st = lines_run(s.drop_last());
        lemma_total_push(st.0, st.1);
        assert(st.1.push(s.last()).drop_last() =~= st.1);
        assert(content(Seq::<char>::empty()) == 0);
    }
    lemma_total_flush(lines_run(s));
}

proof fn lemma_unwrap_content(s: Seq<char>)
    ensures
        content(unwrap_lines(s)) == content(s),
    decreases s.len(),
{
    if s.len() > 0 {
        lemma_unwrap_content(s.drop_last());
        assert(unwrap_lines(s).drop_last() =~= unwrap_lines(s.drop_last()));
        assert(unwrap_lines(s).last() == if s.last() == '\n' { ' ' } else { s.last() });
    }
}

proof fn lemma_close_content(out: Seq<Seq<char>>, current: Seq<char>, cfg: ChunkConfig)
    requires
        !cfg.strip_headers,
    ensures
        total_content(close_paragraph(out, current, cfg)) == total_content(out) + content(current),
{
    let t = trim(current);
    lemma_content_trim(current);
    if t.len() == 0 {
        assert(t =~= Seq::<char>::empty());
    } else {
        let cleaned = unwrap_lines(t);
        lemma_unwrap_content(t);
        if byte_len(cleaned) < cfg.min_paragraph_chars && out.len() > 0 {
            let merged = out.last() + seq![' '] + cleaned;
            lemma_content_join(out.last(), cleaned);
            let upd = out.update(out.len() - 1, merged);
            assert(upd.drop_last() =~= out.drop_last());
            assert(upd.last() == merged);
        } else {
            lemma_total_push(out, cleaned);
        }
    }
}

proof fn lemma_paragraph_run_content(lines: Seq<Seq<char>>, cfg: ChunkConfig)
    requires
        !cfg.strip_headers,
    ensures
        total_content(paragraph_run(lines, cfg).0) + content(paragraph_run(lines, cfg).1)
            == total_content(lines),
    decreases lines.len(),
{
    if lines.len() > 0 {
        lemma_paragraph_run_content(lines.drop_last(), cfg);
        let st = paragraph_run(lines.drop_last(), cfg);
        let line = lines.last();
        lemma_content_trim(line);
        lemma_close_content(st.0, st.1, cfg);
        if trim(line).len() == 0 {
            assert(trim(line) =~= Seq::<char>::empty());
            assert(content(Seq::<char>::empty()) == 0);
        } else {
            lemma_content_concat(st.1 + trim(line), seq!['\n']);
            lemma_content_concat(st.1, trim(line));
            lemma_content_one('\n');
        }
    }
}

/// Without heading removal, paragraphs keep every non-whitespace character of
/// the text: lines are trimmed and joined, and only whitespace goes.
pub proof fn lemma_paragraphs_keep_content(text: Seq<char>, cfg: ChunkConfig)
    requires
        !cfg.strip_headers,
    ensures
        total_content(paragraphs_of(text, cfg)) == content(text),
{
    lemma_lines_content(text);
    lemma_paragraph_run_content(lines_of(text), cfg);
    let st = paragraph_run(lines_of(text), cfg);
    lemma_close_content(st.0, st.1, cfg);
}

/// Without heading removal, the chunks of normalized text hold at least as many
/// bytes as its non-whitespace characters.
pub proof fn lemma_normalized_chunks_hold_content(n: Seq<char>, cfg: ChunkConfig)
    requires
        !cfg.strip_headers,
    ensures
        total_bytes(chunks_of_normalized(n, cfg)) >= content(n),
{
    lemma_content_trim(n);
    if trim(n).len() == 0 {
        assert(trim(n) =~= Seq::<char>::empty());
        assert(total_bytes(Seq::<Seq<char>>::empty()) == 0);
    } else {
        lemma_paragraphs_keep_content(n, cfg);
        lemma_chunks_hold_content(paragraphs_of(n, cfg), cfg);
    }
}

} // verus!
