//! Configuration records. Paths are held as strings.

use vstd::prelude::*;
use crate::assemble::views;

verus! {

#[derive(Debug, Clone)]
pub struct LoggingConfig {
    pub level: String,
}

#[derive(Debug, Clone)]
pub struct PathsConfig {
    pub calibre_root: String,
    pub extract_root: String,
    pub chunk_root: String,
    pub state_dir: String,
    pub examples_cfr_dir: Option<String>,
}

#[derive(Debug, Clone)]
pub struct ExtractEpubConfig {
    pub backend: String,
    pub pandoc_bin: String,
    pub toc_depth: u8,
    pub chapter_split: bool,
    pub max_chapter_bytes: u64,
    pub max_file_bytes: u64,
    pub join_parts: bool,
    pub keep_parts: bool,
}

/// Options of the chunking engine. Sizes are UTF-8 byte counts, but for
/// `chunk_overlap_chars`, which counts characters.
#[derive(Debug, Clone)]
pub struct ChunkConfig {
    pub normalize_unicode: bool,
    pub collapse_whitespace: bool,
    pub strip_headers: bool,
    pub min_paragraph_chars: usize,
    pub max_paragraph_chars: usize,
    pub target_chunk_chars: usize,
    pub max_chunk_chars: usize,
    pub chunk_overlap_chars: usize,
    pub emit_jsonl: bool,
    pub metadata: ChunkMetadataConfig,
}

/// Which sidecar keys a chunk record carries.
#[derive(Debug, Clone)]
pub struct ChunkMetadataConfig {
    pub include_source_path: bool,
    pub include_calibre_id: bool,
    pub include_title: bool,
    pub include_authors: bool,
    pub include_published: bool,
    pub include_language: bool,
}

#[derive(Debug, Clone)]
pub struct InsertConfig {
    pub batch_size: usize,
    pub retry_max: usize,
    pub retry_backoff_ms: u64,
    pub max_parallel_files: usize,
    pub qdrant: InsertQdrantConfig,
    pub quickwit: InsertQuickwitConfig,
    pub embeddings: InsertEmbeddingsConfig,
}

#[derive(Debug, Clone)]
pub struct InsertQdrantConfig {
    pub url: String,
    pub collection: String,
    pub distance: String,
    pub vector_size: usize,
    pub create_collection: bool,
    pub api_key: Option<String>,
    pub wait: bool,
}

#[derive(Debug, Clone)]
pub struct InsertQuickwitConfig {
    pub url: String,
    pub index_id: String,
    pub commit_timeout_seconds: u64,
    pub commit_mode: String,
    pub commit_at_end: bool,
}

#[derive(Debug, Clone)]
pub struct InsertEmbeddingsConfig {
    pub provider: String,
    pub base_url: String,
    pub model: String,
    pub request_timeout_seconds: u64,
    pub max_concurrency: usize,
    pub max_input_chars: usize,
    pub global_max_concurrency: usize,
    pub request_batch_size: usize,
    pub cache_max_entries: usize,
}

/// Report format of the duplicate scan.
#[derive(Copy, Clone, Debug, PartialEq, Eq, Structural)]
pub enum DupsOutputFormat {
    Text,
    Json,
}

#[derive(Debug, Clone)]
pub struct DupsConfig {
    pub output: DupsOutputFormat,
    pub out: Option<String>,
    pub ext: Vec<String>,
    pub follow_symlinks: bool,
    pub threads: usize,
    pub min_size: u64,
    pub include_sidecars: bool,
}

/// Weights of the metadata completeness score.
#[derive(Debug, Clone, Copy)]
pub struct ScoringConfig {
    pub title_weight: i32,
    pub authors_weight: i32,
    pub publisher_weight: i32,
    pub pubdate_weight: i32,
    pub isbn_weight: i32,
    pub identifiers_weight: i32,
    pub tags_weight: i32,
    pub comments_weight: i32,
    pub cover_weight: i32,
}

impl Default for DupsConfig {
    /// JSON output to standard output, the common e-book extensions, eight hashing
    /// threads, files of at least 1024 bytes, sidecars and symbolic links skipped.
    fn default() -> (r: Self)
        ensures
            r.output == DupsOutputFormat::Json,
            r.out is None,
            views(r.ext@) == seq!["epub"@, "mobi"@, "azw3"@, "pdf"@, "djvu"@],
            !r.follow_symlinks,
            r.threads == 8,
            r.min_size == 1024,
            !r.include_sidecars,
    {
        let mut ext: Vec<String> = Vec::new();
        ext.push(String::from_str("epub"));
        ext.push(String::from_str("mobi"));
        ext.push(String::from_str("azw3"));
        ext.push(String::from_str("pdf"));
        ext.push(String::from_str("djvu"));
        assert(views(ext@) =~= seq!["epub"@, "mobi"@, "azw3"@, "pdf"@, "djvu"@]);
        DupsConfig {
            output: DupsOutputFormat::Json,
            out: None,
            ext,
            follow_symlinks: false,
            threads: 8,
            min_size: 1024,
            include_sidecars: false,
        }
    }
}

} // verus!
