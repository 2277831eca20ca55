use chunkr::calibre_metadata::{
    metadata_snapshot, normalize_identifiers, normalize_languages, normalize_tags, score_good_enough,
    BookValue, Snapshot,
};
use chunkr::config::ScoringConfig;
use chunkr::logging::{color_block, color_for_key, color_prefix, op_color, LogOp};
use chunkr::util::{apply_layout, replace_extension, slugify};

#[test]
fn slugs_are_lowercase_words() {
    assert_eq!(slugify("Hello, World! - Test"), "hello_world_test");
    assert_eq!(slugify("  __The   Book__ "), "the_book");
    assert_eq!(slugify("\u{e9}t\u{e9}"), "t");
    assert_eq!(slugify(""), "");
}

#[test]
fn layouts_fill_placeholders() {
    assert_eq!(apply_layout("{format}/{title_slug}.txt", "epub", "my_book"), "epub/my_book.txt");
    assert_eq!(apply_layout("{format}-{format}", "pdf", "x"), "pdf-pdf");
    assert_eq!(apply_layout("plain", "pdf", "x"), "plain");
}

#[test]
fn extensions_are_replaced() {
    assert_eq!(replace_extension("a/b/book.txt", "jsonl"), "a/b/book.jsonl");
    assert_eq!(replace_extension("a/b/book", "json"), "a/b/book.json");
    assert_eq!(replace_extension("dir.v1/file", "json"), "dir.v1/file.json");
    assert_eq!(replace_extension("a/.bashrc", "json"), "a/.bashrc.json");
    assert_eq!(replace_extension("a/book.tar.gz", ""), "a/book.tar");
    assert_eq!(replace_extension("a/..", "json"), "a/..");
}

#[test]
fn key_colors_use_fnv() {
    assert_eq!(color_for_key("a"), 140);
    assert_eq!(color_for_key("book.txt"), 134);
    assert_eq!(color_for_key(""), 165);
    assert_eq!(op_color(LogOp::Ollama), 39);
    assert_eq!(op_color(LogOp::Qdrant), 82);
    assert_eq!(op_color(LogOp::Quickwit), 220);
}

#[test]
fn prefixes_join_blocks() {
    assert_eq!(color_block(7), "\x1b[38;5;7m\u{2588}\x1b[0m");
    let p = color_prefix("a", Some("a"), Some(LogOp::Qdrant));
    assert_eq!(p, format!("{} {} {} ", color_block(140), color_block(140), color_block(82)));
    assert_eq!(color_prefix("a", None, None), format!("{} ", color_block(140)));
}

fn weights() -> ScoringConfig {
    ScoringConfig {
        title_weight: 3,
        authors_weight: 3,
        publisher_weight: 1,
        pubdate_weight: 1,
        isbn_weight: 2,
        identifiers_weight: 1,
        tags_weight: 1,
        comments_weight: 1,
        cover_weight: 2,
    }
}

#[test]
fn complete_metadata_scores_all_weights() {
    let s = Snapshot {
        title: "T".to_string(),
        authors: vec!["A".to_string()],
        publisher: "P".to_string(),
        pubdate: "2001".to_string(),
        languages: vec![],
        isbn: "123".to_string(),
        identifiers: vec![],
        tags: vec!["t".to_string()],
        comments_present: true,
        cover_present: true,
    };
    let (score, reasons) = score_good_enough(&s, &weights());
    assert_eq!(score, 14);
    assert!(reasons.is_empty());
}

#[test]
fn missing_metadata_is_listed() {
    let ids = vec![("calibre".to_string(), "9".to_string())];
    let s = Snapshot {
        title: String::new(),
        authors: vec![],
        publisher: "P".to_string(),
        pubdate: String::new(),
        languages: vec![],
        isbn: String::new(),
        identifiers: ids,
        tags: vec![],
        comments_present: false,
        cover_present: false,
    };
    let (score, reasons) = score_good_enough(&s, &weights());
    assert_eq!(score, 2);
    assert_eq!(
        reasons,
        vec![
            "missing title",
            "missing authors",
            "missing pubdate",
            "missing tags",
            "missing description/comments",
            "missing cover",
        ]
    );
}

fn text(s: &str) -> BookValue {
    BookValue::Str(s.to_string())
}

fn array(items: Vec<BookValue>, json: &str) -> BookValue {
    BookValue::Array(items, json.to_string())
}

#[test]
fn languages_are_lowercased() {
    assert_eq!(normalize_languages(&BookValue::Null), Vec::<String>::new());
    assert_eq!(
        normalize_languages(&array(vec![text(" ENG "), BookValue::Other("1".to_string()), text(" ")], "[\" ENG \",1,\" \"]")),
        vec!["eng".to_string()]
    );
    assert_eq!(normalize_languages(&text(" \u{c9}N ")), vec!["\u{e9}n".to_string()]);
    assert_eq!(normalize_languages(&BookValue::Other("42".to_string())), vec!["42".to_string()]);
}

#[test]
fn tags_split_at_commas() {
    assert_eq!(normalize_tags(&text(" Fiction, ,History ,")), vec!["Fiction".to_string(), "History".to_string()]);
    assert_eq!(normalize_tags(&array(vec![text(" A "), text("")], "[\" A \",\"\"]")), vec!["A".to_string()]);
    assert_eq!(normalize_tags(&text("   ")), Vec::<String>::new());
}

#[test]
fn identifiers_are_keyed_in_lowercase() {
    let obj = BookValue::Object(
        vec![
            (" ISBN ".to_string(), text(" 123 ")),
            ("goodreads".to_string(), BookValue::Other("77".to_string())),
            ("empty".to_string(), text("  ")),
            ("isbn".to_string(), text("456")),
        ],
        String::new(),
    );
    assert_eq!(
        normalize_identifiers(&obj),
        vec![("isbn".to_string(), "456".to_string()), ("goodreads".to_string(), "77".to_string())]
    );
    assert!(normalize_identifiers(&text("x")).is_empty());
}

#[test]
fn snapshot_reads_book_record() {
    let book = BookValue::Object(
        vec![
            ("title".to_string(), text("  Dune ")),
            ("authors".to_string(), text(" Frank Herbert ")),
            ("languages".to_string(), array(vec![text("ENG")], "[\"ENG\"]")),
            ("tags".to_string(), text("sf, classic")),
            ("comments".to_string(), text("  ")),
            ("cover".to_string(), text("/c.jpg")),
            ("isbn".to_string(), BookValue::Other("9".to_string())),
        ],
        String::new(),
    );
    let s = metadata_snapshot(&book);
    assert_eq!(s.title, "Dune");
    assert_eq!(s.authors, vec!["Frank Herbert".to_string()]);
    assert_eq!(s.languages, vec!["eng".to_string()]);
    assert_eq!(s.tags, vec!["sf".to_string(), "classic".to_string()]);
    assert_eq!(s.isbn, "");
    assert_eq!(s.publisher, "");
    assert!(!s.comments_present);
    assert!(s.cover_present);
    assert!(s.identifiers.is_empty());
    let empty = metadata_snapshot(&BookValue::Null);
    assert_eq!(empty.title, "");
    assert!(!empty.cover_present);
}

#[test]
fn opposite_extreme_weights_are_accepted() {
    let mut w = weights();
    w.title_weight = i32::MAX;
    w.authors_weight = -i32::MAX;
    w.publisher_weight = 0;
    w.pubdate_weight = 0;
    w.isbn_weight = 0;
    w.tags_weight = 0;
    w.comments_weight = 0;
    w.cover_weight = 0;
    let s = Snapshot {
        title: "T".to_string(),
        authors: vec!["A".to_string()],
        publisher: String::new(),
        pubdate: String::new(),
        languages: vec![],
        isbn: String::new(),
        identifiers: vec![],
        tags: vec![],
        comments_present: false,
        cover_present: false,
    };
    let (score, reasons) = score_good_enough(&s, &w);
    assert_eq!(score, 0);
    assert_eq!(reasons.len(), 6);
}
