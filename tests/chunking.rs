use chunkr::assemble::{build_chunks, overlap_tail, split_by_max_bytes, split_large_paragraph};
use chunkr::config::{ChunkConfig, ChunkMetadataConfig};
use chunkr::normalize::{chunk_text, collapse_whitespace, normalize_text};
use chunkr::paragraph::{push_paragraph, split_paragraphs};

fn config() -> ChunkConfig {
    ChunkConfig {
        normalize_unicode: true,
        collapse_whitespace: true,
        strip_headers: true,
        min_paragraph_chars: 80,
        max_paragraph_chars: 1200,
        target_chunk_chars: 800,
        max_chunk_chars: 900,
        chunk_overlap_chars: 100,
        emit_jsonl: true,
        metadata: ChunkMetadataConfig {
            include_source_path: true,
            include_calibre_id: true,
            include_title: true,
            include_authors: true,
            include_published: true,
            include_language: true,
        },
    }
}

fn strings(v: &[&str]) -> Vec<String> {
    v.iter().map(|s| s.to_string()).collect()
}

#[test]
fn whitespace_only_input_yields_no_chunks() {
    let cfg = config();
    assert!(chunk_text("   \n\t\n   \r\n ", &cfg).is_empty());
    assert!(chunk_text("", &cfg).is_empty());
}

#[test]
fn single_short_paragraph_is_one_chunk() {
    let cfg = config();
    let chunks = chunk_text("Hello world.", &cfg);
    assert_eq!(chunks, vec!["Hello world.".to_string()]);
}

#[test]
fn overlap_carries_tail_into_next_chunk() {
    let mut cfg = config();
    cfg.target_chunk_chars = 50;
    cfg.max_chunk_chars = 60;
    cfg.chunk_overlap_chars = 10;
    let a = "The quick brown fox jumps over the lazy dogs.";
    let b = "Pack my box with five dozen liquor jugs.";
    assert_eq!(a.len(), 45);
    assert_eq!(b.len(), 40);
    let chunks = build_chunks(&strings(&[a, b]), &cfg);
    assert_eq!(chunks.len(), 2);
    assert_eq!(chunks[0], a);
    assert_eq!(chunks[1], "lazy dogs. Pack my box with five dozen liquor jugs.");
    assert_eq!(&chunks[1][..10], &chunks[0][chunks[0].len() - 10..]);
}

#[test]
fn long_word_is_cut_into_cap_sized_chunks() {
    let mut cfg = config();
    cfg.max_chunk_chars = 50;
    cfg.target_chunk_chars = 40;
    cfg.chunk_overlap_chars = 0;
    let word: String = (0..200).map(|i| (b'a' + (i % 26) as u8) as char).collect();
    let chunks = build_chunks(&[word.clone()], &cfg);
    assert_eq!(chunks.len(), 4);
    for c in &chunks {
        assert_eq!(c.len(), 50);
    }
    assert_eq!(chunks.concat(), word);
}

#[test]
fn long_word_with_overlap_still_makes_four_chunks() {
    let mut cfg = config();
    cfg.max_chunk_chars = 50;
    let word: String = (0..200).map(|i| (b'A' + (i % 26) as u8) as char).collect();
    let chunks = build_chunks(&[word.clone()], &cfg);
    assert_eq!(chunks.len(), 4);
    assert_eq!(chunks.concat(), word);
}

#[test]
fn heading_paragraph_is_stripped() {
    let mut cfg = config();
    cfg.collapse_whitespace = false;
    let chunks = chunk_text("# Preface\n\nReal content text.", &cfg);
    assert_eq!(chunks, vec!["Real content text.".to_string()]);
}

#[test]
fn table_of_contents_is_stripped_in_any_case() {
    let mut cfg = config();
    cfg.collapse_whitespace = false;
    cfg.min_paragraph_chars = 0;
    let paras = split_paragraphs("Table Of Contents\n\nCONTENTS\n\nBody here.", &cfg);
    assert_eq!(paras, strings(&["Body here."]));
    cfg.strip_headers = false;
    let paras = split_paragraphs("# Title\n\nBody here.", &cfg);
    assert_eq!(paras, strings(&["# Title", "Body here."]));
}

#[test]
fn paragraphs_join_lines_and_merge_short_ones() {
    let mut cfg = config();
    cfg.collapse_whitespace = false;
    cfg.min_paragraph_chars = 10;
    let text = "  First line  \n second line\n\n\nshort\n\nAnother paragraph here.\r\n";
    let paras = split_paragraphs(text, &cfg);
    assert_eq!(paras, strings(&["First line second line short", "Another paragraph here."]));
}

#[test]
fn short_first_paragraph_stands_alone() {
    let mut cfg = config();
    cfg.min_paragraph_chars = 100;
    let paras = split_paragraphs("tiny\n\nsmall", &cfg);
    assert_eq!(paras, strings(&["tiny small"]));
}

#[test]
fn push_paragraph_clears_current() {
    let cfg = config();
    let mut out = Vec::new();
    let mut current = String::from("  some words\nmore words \n");
    push_paragraph(&mut out, &mut current, &cfg);
    assert_eq!(out, strings(&["some words more words"]));
    assert!(current.is_empty());
    let mut blank = String::from("   \n");
    push_paragraph(&mut out, &mut blank, &cfg);
    assert_eq!(out.len(), 1);
}

#[test]
fn collapse_turns_runs_into_single_spaces() {
    assert_eq!(collapse_whitespace("a \t\n b\u{3000}\u{2003}c  "), "a b c ");
    assert_eq!(collapse_whitespace(""), "");
}

#[test]
fn normalize_applies_nfkc_then_collapse() {
    let mut cfg = config();
    assert_eq!(normalize_text("\u{FB01}ne  \u{2460}", &cfg), "fine 1");
    cfg.normalize_unicode = false;
    assert_eq!(normalize_text("\u{FB01}ne  x", &cfg), "\u{FB01}ne x");
    cfg.collapse_whitespace = false;
    assert_eq!(normalize_text("a  b", &cfg), "a  b");
}

#[test]
fn overlap_tail_counts_characters() {
    assert_eq!(overlap_tail("hello world", 5), "world");
    assert_eq!(overlap_tail("h\u{e9}llo", 4), "\u{e9}llo");
    assert_eq!(overlap_tail("abc", 10), "abc");
    assert_eq!(overlap_tail("abc", 0), "");
}

#[test]
fn word_splitter_packs_words() {
    assert_eq!(split_by_max_bytes("short", 10), strings(&["short"]));
    assert_eq!(
        split_by_max_bytes("aa bb cc dd ee", 5),
        strings(&["aa bb", "cc dd", "ee"])
    );
    assert_eq!(
        split_by_max_bytes("ab abcdefgh cd", 4),
        strings(&["ab", "abcd", "efgh", "cd"])
    );
}

#[test]
fn word_splitter_keeps_multibyte_characters_whole() {
    let pieces = split_by_max_bytes("\u{e9}\u{e9}\u{e9}", 3);
    assert_eq!(pieces, strings(&["\u{e9}", "\u{e9}", "\u{e9}"]));
    for p in &pieces {
        assert!(p.len() <= 3);
    }
}

#[test]
fn sentence_splitter_recombines_sentences() {
    let parts = split_large_paragraph("One two. Three four! Five six? Seven.", 20);
    assert_eq!(parts, strings(&["One two. Three four!", "Five six? Seven."]));
    let parts = split_large_paragraph("Version 1.5 is out. Yes", 100);
    assert_eq!(parts, strings(&["Version 1.5 is out. Yes"]));
}

#[test]
fn chunks_stay_within_cap() {
    let mut cfg = config();
    cfg.max_chunk_chars = 40;
    cfg.target_chunk_chars = 30;
    cfg.max_paragraph_chars = 60;
    cfg.chunk_overlap_chars = 8;
    cfg.min_paragraph_chars = 0;
    cfg.collapse_whitespace = false;
    let text = "Alpha beta gamma delta. Epsilon zeta eta theta iota kappa. Lambda mu.\n\n\
                Nu xi omicron pi rho sigma tau upsilon phi chi psi omega and more words here.";
    let chunks = chunk_text(text, &cfg);
    assert!(chunks.len() > 2);
    for c in &chunks {
        assert!(c.len() <= 40, "{c:?}");
        assert!(!c.trim().is_empty());
    }
}

#[test]
fn consecutive_chunks_share_overlap() {
    let mut cfg = config();
    cfg.max_chunk_chars = 40;
    cfg.target_chunk_chars = 25;
    cfg.chunk_overlap_chars = 6;
    let paras = strings(&[
        "one two three four five six",
        "seven eight nine ten",
        "eleven twelve thirteen",
        "fourteen fifteen",
    ]);
    let chunks = build_chunks(&paras, &cfg);
    assert!(chunks.len() >= 2);
    for w in chunks.windows(2) {
        let tail: String = w[0].chars().rev().take(6).collect::<Vec<_>>().into_iter().rev().collect();
        let fits = tail.len() + 1 + w[1].len() <= 40;
        if fits {
            assert!(w[1].starts_with(&tail), "{:?} then {:?}", w[0], w[1]);
        }
    }
}

#[test]
fn chunk_bytes_cover_input_words() {
    let mut cfg = config();
    cfg.max_chunk_chars = 30;
    cfg.target_chunk_chars = 20;
    cfg.chunk_overlap_chars = 0;
    let paras = strings(&["aaaa bbbb cccc dddd eeee ffff gggg hhhh", "iiii jjjj"]);
    let chunks = build_chunks(&paras, &cfg);
    let total: usize = chunks.iter().map(|c| c.len()).sum();
    let words: usize = paras.iter().map(|p| p.split_whitespace().map(|w| w.len()).sum::<usize>()).sum();
    assert!(total >= words);
    let joined = chunks.join(" ");
    for p in &paras {
        for w in p.split_whitespace() {
            assert!(joined.contains(w));
        }
    }
}

#[test]
fn empty_paragraph_list_gives_no_chunks() {
    let cfg = config();
    assert!(build_chunks(&[], &cfg).is_empty());
}
