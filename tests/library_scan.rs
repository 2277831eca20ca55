use chunkr::config::{DupsConfig, DupsOutputFormat};
use chunkr::dedup::{build_global_opts, extract_book_id, non_empty_path, non_empty_url};
use chunkr::markdown::split_markdown;
use chunkr::dups::{default_exts, is_sidecar, normalize_exts, resolve_settings, wants_file, DupsArgs};

fn strings(v: &[&str]) -> Vec<String> {
    v.iter().map(|s| s.to_string()).collect()
}

#[test]
fn extensions_are_cleaned() {
    assert_eq!(normalize_exts(&strings(&[" .EPUB ", "..pdf", "", " . ", "Djvu"])), strings(&["epub", "pdf", "djvu"]));
    let d = default_exts();
    assert_eq!(d.len(), 13);
    assert_eq!(d[0], "epub");
    assert_eq!(d[12], "cbr");
}

#[test]
fn sidecars_and_wanted_files() {
    assert!(is_sidecar("metadata.opf"));
    assert!(is_sidecar("cover.png"));
    assert!(!is_sidecar("cover.gif"));
    let exts = strings(&["epub", "pdf"]);
    assert!(wants_file(Some("book.EPUB"), Some("EPUB"), &exts, false));
    assert!(!wants_file(Some("book.mobi"), Some("mobi"), &exts, false));
    assert!(wants_file(Some("metadata.opf"), Some("opf"), &exts, true));
    assert!(!wants_file(Some("metadata.opf"), Some("opf"), &exts, false));
    assert!(!wants_file(None, Some("epub"), &exts, true));
    assert!(!wants_file(Some("README"), None, &exts, false));
}

#[test]
fn default_scan_config() {
    let c = DupsConfig::default();
    assert_eq!(c.output, DupsOutputFormat::Json);
    assert!(c.out.is_none());
    assert_eq!(c.ext, strings(&["epub", "mobi", "azw3", "pdf", "djvu"]));
    assert!(!c.follow_symlinks);
    assert_eq!(c.threads, 8);
    assert_eq!(c.min_size, 1024);
    assert!(!c.include_sidecars);
}

#[test]
fn command_line_wins_over_config() {
    let config = DupsConfig::default();
    let args = DupsArgs {
        library: None,
        output: Some(DupsOutputFormat::Text),
        out: None,
        ext: vec![],
        follow_symlinks: true,
        threads: 0,
        min_size: 5,
        include_sidecars: false,
    };
    let (root, s) = resolve_settings(&args, &config, "/calibre");
    assert_eq!(root, "/calibre");
    assert_eq!(s.output, DupsOutputFormat::Text);
    assert_eq!(s.ext, strings(&["epub", "mobi", "azw3", "pdf", "djvu"]));
    assert!(s.follow_symlinks);
    assert_eq!(s.threads, 8);
    assert_eq!(s.min_size, 5);
    assert!(s.out.is_none());
}

#[test]
fn calibredb_options() {
    assert_eq!(
        build_global_opts("http://host:8080", Some("u"), Some("p")),
        strings(&["--with-library", "http://host:8080", "--username", "u", "--password", "p"])
    );
    assert_eq!(build_global_opts("/lib", Some("u"), Some("p")), strings(&["--with-library", "/lib"]));
    assert_eq!(build_global_opts("https://h", None, Some("p")), strings(&["--with-library", "https://h"]));
    assert_eq!(
        build_global_opts("https://h", Some("u"), None),
        strings(&["--with-library", "https://h", "--username", "u"])
    );
}

#[test]
fn optional_settings() {
    assert_eq!(non_empty_url(Some("  http://x  ")), Some("http://x".to_string()));
    assert_eq!(non_empty_url(Some("   ")), None);
    assert_eq!(non_empty_url(None), None);
    assert_eq!(non_empty_path(Some("")), None);
    assert_eq!(non_empty_path(Some("/a")), Some("/a".to_string()));
}

#[test]
fn book_ids_from_paths() {
    assert_eq!(extract_book_id("/lib/Author/Title (42)/book.epub"), Some(42));
    assert_eq!(extract_book_id("/lib/Author (7)/Title/book.epub"), Some(7));
    assert_eq!(extract_book_id("/lib/x/y.epub"), None);
    assert_eq!(extract_book_id("/lib/T (+5)/b"), Some(5));
    assert_eq!(extract_book_id("/lib/T (99999999999999999999)/b"), None);
    assert_eq!(extract_book_id("/lib/A (3)/T (x)/b"), Some(3));
    assert_eq!(extract_book_id("/lib/T (12)/.."), Some(12));
    assert_eq!(extract_book_id(""), None);
}

#[test]
fn markdown_splits_at_headings_after_limit() {
    let text = "# One\r\nalpha beta\n# Two\ngamma\n# Three\nd";
    assert_eq!(
        split_markdown(text, 10),
        vec!["# One\nalpha beta\n".to_string(), "# Two\ngamma\n".to_string(), "# Three\nd\n".to_string()]
    );
    assert_eq!(split_markdown(text, 1000), vec!["# One\nalpha beta\n# Two\ngamma\n# Three\nd\n".to_string()]);
    assert!(split_markdown("", 10).is_empty());
}
