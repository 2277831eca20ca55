//! Chunking and ingestion core for a personal e-book library.

pub mod assemble;
pub mod batch;
pub mod cache;
pub mod calibre_metadata;
pub mod config;
pub mod content;
pub mod dedup;
pub mod dup_stats;
pub mod dups;
pub mod endpoints;
pub mod json;
pub mod logging;
pub mod markdown;
pub mod normalize;
pub mod paragraph;
pub mod records;
pub mod splitter;
pub mod text;
pub mod util;
