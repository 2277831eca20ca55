use chunkr::config::{ChunkConfig, ChunkMetadataConfig};
use chunkr::records::{
    chunk_file_lines, chunk_ids, chunk_metadata, chunk_spans, record_line, should_include_metadata,
    ChunkSpan,
};

fn config(on: bool) -> ChunkConfig {
    ChunkConfig {
        normalize_unicode: true,
        collapse_whitespace: true,
        strip_headers: true,
        min_paragraph_chars: 80,
        max_paragraph_chars: 1200,
        target_chunk_chars: 800,
        max_chunk_chars: 900,
        chunk_overlap_chars: 100,
        emit_jsonl: true,
        metadata: ChunkMetadataConfig {
            include_source_path: on,
            include_calibre_id: on,
            include_title: on,
            include_authors: on,
            include_published: on,
            include_language: on,
        },
    }
}

#[test]
fn single_chunk_record_has_offsets() {
    let cfg = config(true);
    let chunks = vec!["Hello world.".to_string()];
    let spans = chunk_spans(&chunks).unwrap();
    assert_eq!(spans, vec![ChunkSpan { index: 0, start: 0, end: 12 }]);
    let ids = vec!["id-1".to_string()];
    let sidecar = vec![("title".to_string(), "\"T\"".to_string())];
    let lines = chunk_file_lines(&chunks, &ids, "/lib/a.txt", "a.txt", &sidecar, &cfg).unwrap();
    assert_eq!(
        lines,
        vec!["{\"id\":\"id-1\",\"text\":\"Hello world.\",\"metadata\":{\"source_path\":\"/lib/a.txt\",\"source_rel\":\"a.txt\",\"chunk_index\":0,\"char_start\":0,\"char_end\":12,\"title\":\"T\"}}".to_string()]
    );
}

#[test]
fn spans_advance_by_bytes() {
    let chunks = vec!["ab".to_string(), "\u{e9}t\u{e9}".to_string(), "x".to_string()];
    let spans = chunk_spans(&chunks).unwrap();
    assert_eq!(
        spans,
        vec![
            ChunkSpan { index: 0, start: 0, end: 2 },
            ChunkSpan { index: 1, start: 2, end: 7 },
            ChunkSpan { index: 2, start: 7, end: 8 },
        ]
    );
}

#[test]
fn gated_keys_follow_flags() {
    let off = config(false);
    let on = config(true);
    for k in ["calibre_id", "title", "authors", "published", "language"] {
        assert!(!should_include_metadata(k, &off));
        assert!(should_include_metadata(k, &on));
    }
    assert!(should_include_metadata("series", &off));
}

#[test]
fn sidecar_keys_merge_into_metadata() {
    let cfg = config(false);
    let span = ChunkSpan { index: 2, start: 5, end: 9 };
    let sidecar = vec![
        ("title".to_string(), "\"T\"".to_string()),
        ("series".to_string(), "\"S\"".to_string()),
        ("chunk_index".to_string(), "99".to_string()),
    ];
    let meta = chunk_metadata("/p", "p", &span, &sidecar, &cfg);
    assert_eq!(
        meta,
        vec![
            ("chunk_index".to_string(), "99".to_string()),
            ("char_start".to_string(), "5".to_string()),
            ("char_end".to_string(), "9".to_string()),
            ("series".to_string(), "\"S\"".to_string()),
        ]
    );
}

#[test]
fn record_line_escapes_text() {
    assert_eq!(
        record_line("i", "a\"b\\c\td\u{1}", "{}"),
        "{\"id\":\"i\",\"text\":\"a\\\"b\\\\c\\td\\u0001\",\"metadata\":{}}"
    );
}

#[test]
fn chunk_ids_are_fresh_uuids() {
    let ids = chunk_ids(3);
    assert_eq!(ids.len(), 3);
    for id in &ids {
        assert_eq!(id.len(), 36);
        assert_eq!(id.matches('-').count(), 4);
        let c: Vec<char> = id.chars().collect();
        for (i, ch) in c.iter().enumerate() {
            if [8, 13, 18, 23].contains(&i) {
                assert_eq!(*ch, '-');
            } else {
                assert!(ch.is_ascii_hexdigit() && !ch.is_ascii_uppercase());
            }
        }
        assert_eq!(c[14], '4');
        assert!("89ab".contains(c[19]));
    }
    assert_ne!(ids[0], ids[1]);
}
