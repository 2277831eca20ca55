use chunkr::batch::{
    compose_points, embedding_permits, file_permits, group_bounds, merge_embeddings,
    plan_requests, truncate_for_embedding, BatchError, ChunkRecord,
};
use chunkr::cache::{hash_text, EmbeddingCache};
use chunkr::endpoints::{
    api_key_header, collection_body, collection_url, commit_url, embedding_request_body,
    embeddings_url, ingest_body, ingest_url, points_url,
};
use chunkr::json::{decimal_string, jsonl_body, jsonl_lines, render_object};

fn record(id: &str, text: &str) -> ChunkRecord {
    ChunkRecord { id: id.to_string(), text: text.to_string(), metadata: "{\"chunk_index\":0}".to_string() }
}

fn bits(v: &[f32]) -> Vec<u32> {
    v.iter().map(|x| x.to_bits()).collect()
}

#[test]
fn ingestion_happy_path_three_records() {
    let records = vec![record("a", "first"), record("b", "second"), record("c", "third")];
    let texts: Vec<String> = records.iter().map(|r| r.text.clone()).collect();
    let cached: Vec<Option<Vec<u32>>> = vec![None, None, None];
    let requests = plan_requests(&texts, &cached);
    assert_eq!(requests, vec![0, 1, 2]);
    let results: Vec<(usize, Vec<u32>)> = requests
        .iter()
        .map(|&i| (i, bits(&[i as f32, 0.5, -1.0, 2.0])))
        .collect();
    let vectors = merge_embeddings(&texts, &cached, &results).unwrap();
    let points = compose_points(&records, &vectors).unwrap();
    assert_eq!(points.len(), 3);
    for (i, p) in points.iter().enumerate() {
        assert_eq!(p.vector.len(), 4);
        assert_eq!(p.id, records[i].id);
        assert_eq!(p.payload, records[i].metadata);
        assert_eq!(f32::from_bits(p.vector[0]), i as f32);
    }
    let body = ingest_body(&records);
    assert_eq!(body.lines().count(), 3);
    assert!(body.ends_with('\n'));
    assert_eq!(
        body.lines().next().unwrap(),
        "{\"id\":\"a\",\"text\":\"first\",\"metadata\":{\"chunk_index\":0}}"
    );
}

#[test]
fn identical_texts_are_embedded_once() {
    let mut cache = EmbeddingCache::new(10);
    let texts = vec!["same text".to_string(), "same text".to_string()];
    let cached: Vec<Option<Vec<u32>>> = texts.iter().map(|t| cache.get(t)).collect();
    let requests = plan_requests(&texts, &cached);
    assert_eq!(requests, vec![0]);
    let v = bits(&[1.0, 2.0]);
    let vectors = merge_embeddings(&texts, &cached, &[(0, v.clone())]).unwrap();
    assert_eq!(vectors, vec![v.clone(), v.clone()]);
    cache.insert(&texts[0], v.clone());
    let again: Vec<Option<Vec<u32>>> = texts.iter().map(|t| cache.get(t)).collect();
    assert_eq!(plan_requests(&texts, &again), Vec::<usize>::new());
    assert_eq!(again[1], Some(v));
}

#[test]
fn cache_evicts_oldest_first() {
    let mut cache = EmbeddingCache::new(2);
    cache.insert("one", vec![1]);
    cache.insert("two", vec![2]);
    cache.insert("one", vec![11]);
    assert_eq!(cache.get("one"), Some(vec![11]));
    cache.insert("three", vec![3]);
    assert_eq!(cache.get("one"), None);
    assert_eq!(cache.get("two"), Some(vec![2]));
    assert_eq!(cache.get("three"), Some(vec![3]));
}

#[test]
fn cache_of_capacity_zero_keeps_nothing() {
    let mut cache = EmbeddingCache::new(0);
    cache.insert("one", vec![1]);
    assert_eq!(cache.get("one"), None);
}

#[test]
fn fingerprint_is_stable() {
    assert_eq!(hash_text("chunk"), hash_text("chunk"));
    assert_ne!(hash_text("chunk"), hash_text("chunk!"));
}

#[test]
fn merge_reports_unknown_slot() {
    let texts = vec!["x".to_string()];
    let cached = vec![None];
    let r = merge_embeddings(&texts, &cached, &[(3, vec![1])]);
    assert_eq!(r, Err(BatchError::UnknownSlot { index: 3 }));
}

#[test]
fn merge_reports_missing_embedding() {
    let texts = vec!["x".to_string(), "y".to_string()];
    let cached = vec![None, None];
    let r = merge_embeddings(&texts, &cached, &[(0, vec![1])]);
    assert_eq!(r, Err(BatchError::MissingEmbedding { index: 1 }));
}

#[test]
fn merge_reports_dimension_mismatch() {
    let texts = vec!["x".to_string(), "y".to_string()];
    let cached = vec![Some(vec![1, 2]), None];
    let r = merge_embeddings(&texts, &cached, &[(1, vec![1, 2, 3])]);
    assert_eq!(r, Err(BatchError::DimensionMismatch { index: 1, expected: 2, found: 3 }));
}

#[test]
fn merge_keeps_cached_vectors_in_place() {
    let texts = vec!["x".to_string(), "y".to_string(), "z".to_string()];
    let cached = vec![None, Some(vec![7, 7]), None];
    let r = merge_embeddings(&texts, &cached, &[(2, vec![3, 3]), (0, vec![1, 1]), (2, vec![2, 2])]);
    assert_eq!(r, Ok(vec![vec![1, 1], vec![7, 7], vec![2, 2]]));
}

#[test]
fn points_need_equal_lengths() {
    let records = vec![record("a", "t")];
    let r = compose_points(&records, &[]);
    assert!(matches!(r, Err(BatchError::LengthMismatch { records: 1, vectors: 0 })));
}

#[test]
fn groups_cover_all_items() {
    assert_eq!(group_bounds(5, 2), vec![(0, 2), (2, 4), (4, 5)]);
    assert_eq!(group_bounds(4, 0), vec![(0, 1), (1, 2), (2, 3), (3, 4)]);
    assert_eq!(group_bounds(0, 3), Vec::<(usize, usize)>::new());
    assert_eq!(group_bounds(3, 64), vec![(0, 3)]);
}

#[test]
fn permits_are_at_least_one() {
    assert_eq!(file_permits(0), 1);
    assert_eq!(file_permits(1), 1);
    assert_eq!(file_permits(4), 4);
    assert_eq!(embedding_permits(0, 0), 1);
    assert_eq!(embedding_permits(0, 3), 3);
    assert_eq!(embedding_permits(5, 3), 5);
}

#[test]
fn truncation_counts_characters() {
    assert_eq!(truncate_for_embedding("h\u{e9}llo", 2), "h\u{e9}");
    assert_eq!(truncate_for_embedding("hello", 0), "hello");
    assert_eq!(truncate_for_embedding("hello", 9), "hello");
}

#[test]
fn service_addresses() {
    assert_eq!(embeddings_url("http://localhost:11434//"), "http://localhost:11434/api/embeddings");
    assert_eq!(collection_url("http://q:6333/", "books"), "http://q:6333/collections/books");
    assert_eq!(points_url("http://q:6333", "books", true), "http://q:6333/collections/books/points?wait=true");
    assert_eq!(points_url("http://q:6333", "books", false), "http://q:6333/collections/books/points?wait=false");
    assert_eq!(
        ingest_url("http://w:7280/", "books", "", 30),
        "http://w:7280/api/v1/books/ingest?commit=auto&commit_timeout_seconds=30"
    );
    assert_eq!(
        ingest_url("http://w:7280", "books", "force", 0),
        "http://w:7280/api/v1/books/ingest?commit=force&commit_timeout_seconds=0"
    );
    assert_eq!(commit_url("http://w:7280/", "books"), "http://w:7280/api/v1/books/commit");
}

#[test]
fn request_bodies() {
    assert_eq!(
        embedding_request_body("nomic", "say \"hi\"\n"),
        "{\"model\":\"nomic\",\"prompt\":\"say \\\"hi\\\"\\n\"}"
    );
    assert_eq!(
        collection_body(768, "Cosine"),
        "{\"vectors\":{\"size\":768,\"distance\":\"Cosine\"}}"
    );
    assert_eq!(api_key_header(&Some("k".to_string())), Some("k".to_string()));
    assert_eq!(api_key_header(&Some(String::new())), None);
    assert_eq!(api_key_header(&None), None);
}

#[test]
fn jsonl_round_trip_keeps_lines() {
    let lines = vec!["{\"id\":\"1\"}".to_string(), "{\"id\":\"2\"}".to_string()];
    let body = jsonl_body(&lines);
    assert_eq!(body, "{\"id\":\"1\"}\n{\"id\":\"2\"}\n");
    assert_eq!(jsonl_lines(&body), lines);
    assert_eq!(jsonl_lines("\n  \n{\"a\":1}\n\n"), vec!["{\"a\":1}".to_string()]);
}

#[test]
fn objects_and_numbers_render() {
    assert_eq!(decimal_string(0), "0");
    assert_eq!(decimal_string(18446744073709551615), "18446744073709551615");
    let es = vec![("k\"ey".to_string(), "1".to_string()), ("b".to_string(), "[]".to_string())];
    assert_eq!(render_object(&es), "{\"k\\\"ey\":1,\"b\":[]}");
    assert_eq!(render_object(&[]), "{}");
}

#[test]
fn equal_lengths_compose_points() {
    let records = vec![record("a", "t"), record("b", "u")];
    let points = compose_points(&records, &[vec![1], vec![2]]).unwrap();
    assert_eq!(points.len(), 2);
    assert_eq!(points[1].vector, vec![2]);
    assert!(compose_points(&[], &[]).unwrap().is_empty());
}

#[test]
fn cache_keeps_existing_and_other_entries() {
    let mut cache = EmbeddingCache::new(3);
    cache.insert("a", vec![1]);
    cache.insert("b", vec![2]);
    cache.insert("a", vec![9]);
    cache.insert("c", vec![3]);
    assert_eq!(cache.get("a"), Some(vec![9]));
    assert_eq!(cache.get("b"), Some(vec![2]));
    assert_eq!(cache.get("c"), Some(vec![3]));
    cache.insert("d", vec![4]);
    assert_eq!(cache.get("a"), None);
    assert_eq!(cache.get("b"), Some(vec![2]));
}
