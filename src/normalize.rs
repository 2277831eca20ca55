//! The normalizer, and the chunking of one text from raw input to chunk texts.

use vstd::prelude::*;
use unicode_normalization::UnicodeNormalization;
use crate::assemble::{build_chunks, chunks_of, views};
use crate::config::ChunkConfig;
use crate::paragraph::{paragraphs_of, split_paragraphs};
use crate::text::{chars_of, is_whitespace_char, is_ws, push_char, trim, trim_chars};

verus! {

/// The Unicode NFKC normal form of `s`.
pub uninterp spec fn nfkc_of(s: Seq<char>) -> Seq<char>;

/// Relies on `unicode_normalization::UnicodeNormalization::nfkc`: the compatibility
/// composition of the characters, which depends on them alone.
#[verifier::external_body]
fn nfkc(s: &str) -> (r: String)
    ensures
        r@ == nfkc_of(s@),
{
    s.nfkc().collect::<String>()
}

/// Whitespace collapsing over the first characters of `s`: the text so far, and
/// whether it ends in a collapsed run.
pub open spec fn collapse_run(s: Seq<char>) -> (Seq<char>, bool)
    decreases s.len(),
{
    if s.len() == 0 {
        (Seq::empty(), false)
    } else {
        let st = collapse_run(s.drop_last());
        let c = s.last();
        if is_ws(c) {
            if st.1 {
                st
            } else {
                (st.0.push(' '), true)
            }
        } else {
            (st.0.push(c), false)
        }
    }
}

/// `s` with every maximal run of whitespace replaced by one ASCII space.
pub open spec fn collapsed(s: Seq<char>) -> Seq<char> {
    collapse_run(s).0
}

/// The normalizer's output: NFKC when `normalize_unicode` is set, then whitespace
/// collapsing when `collapse_whitespace` is set.
pub open spec fn normalized(s: Seq<char>, cfg: ChunkConfig) -> Seq<char> {
    let u = if cfg.normalize_unicode {
        nfkc_of(s)
    } else {
        s
    };
    if cfg.collapse_whitespace {
        collapsed(u)
    } else {
        u
    }
}

/// Replaces every maximal run of whitespace by a single space; nothing is trimmed.
pub fn collapse_whitespace(input: &str) -> (r: String)
    ensures
        r@ == collapsed(input@),
{
    let v = chars_of(input);
    let mut out = String::new();
    let mut last_space = false;
    let mut i: usize = 0;
    while i < v.len()
        invariant
            i <= v.len(),
            (out@, last_space) == collapse_run(v@.take(i as int)),
        decreases v.len() - i,
    {
        let c = v[i];
        assert(v@.take(i + 1).drop_last() =~= v@.take(i as int));
        if is_whitespace_char(c) {
            if !last_space {
                push_char(&mut out, ' ');
                last_space = true;
            }
        } else {
            push_char(&mut out, c);
            last_space = false;
        }
        i = i + 1;
    }
    assert(v@.take(v.len() as int) =~= v@);
    out
}

/// Applies NFKC when `normalize_unicode` is set, then collapses whitespace runs
/// when `collapse_whitespace` is set.
pub fn normalize_text(input: &str, cfg: &ChunkConfig) -> (r: String)
    ensures
        r@ == normalized(input@, *cfg),
{
    let mut out = String::from_str(input);
    if cfg.normalize_unicode {
        out = nfkc(input);
    }
    if cfg.collapse_whitespace {
        out = collapse_whitespace(out.as_str());
    }
    out
}

/// The chunk texts of already normalized text: none when it is blank.
pub open spec fn chunks_of_normalized(n: Seq<char>, cfg: ChunkConfig) -> Seq<Seq<char>> {
    if trim(n).len() == 0 {
        Seq::empty()
    } else {
        chunks_of(paragraphs_of(n, cfg), cfg)
    }
}

/// Chunks text that has already been normalized: paragraphs, then chunks.
pub fn chunk_normalized(cleaned: &str, cfg: &ChunkConfig) -> (r: Vec<String>)
    ensures
        views(r@) == chunks_of_normalized(cleaned@, *cfg),
{
    let v = chars_of(cleaned);
    if trim_chars(&v).len() == 0 {
        let r: Vec<String> = Vec::new();
        assert(views(r@) =~= Seq::<Seq<char>>::empty());
        return r;
    }
    let paragraphs = split_paragraphs(cleaned, cfg);
    build_chunks(paragraphs.as_slice(), cfg)
}

/// The chunk texts of one raw text: normalized, split into paragraphs and packed
/// into chunks.
pub fn chunk_text(raw: &str, cfg: &ChunkConfig) -> (r: Vec<String>)
    ensures
        views(r@) == chunks_of_normalized(normalized(raw@, *cfg), *cfg),
{
    let cleaned = normalize_text(raw, cfg);
    chunk_normalized(cleaned.as_str(), cfg)
}

} // verus!
