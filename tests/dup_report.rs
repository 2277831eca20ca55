use chunkr::dup_stats::{summarize, text_report, DupGroupSummary, DuplicateGroup};

fn group(bytes: u64, files: usize) -> DuplicateGroup {
    DuplicateGroup {
        bytes,
        blake3: format!("h{bytes}"),
        files: (0..files).map(|i| format!("/lib/f{i}")).collect(),
    }
}

#[test]
fn summary_orders_by_wasted_bytes() {
    let groups = vec![group(100, 2), group(10, 5), group(7, 1), group(300, 2), group(40, 2)];
    let s = summarize(&groups).unwrap();
    assert_eq!(s.total_groups, 5);
    assert_eq!(s.total_files, 12);
    assert_eq!(s.total_extra_bytes, 100 + 40 + 300 + 40);
    assert_eq!(
        s.groups,
        vec![
            DupGroupSummary { bytes: 300, files: 2, extra_bytes: 300 },
            DupGroupSummary { bytes: 100, files: 2, extra_bytes: 100 },
            DupGroupSummary { bytes: 10, files: 5, extra_bytes: 40 },
            DupGroupSummary { bytes: 40, files: 2, extra_bytes: 40 },
        ]
    );
}

#[test]
fn empty_report_has_no_groups() {
    let s = summarize(&[]).unwrap();
    assert_eq!(s.total_groups, 0);
    assert_eq!(s.total_files, 0);
    assert_eq!(s.total_extra_bytes, 0);
    assert!(s.groups.is_empty());
}

#[test]
fn overflowing_waste_is_refused() {
    let fits = vec![group(u64::MAX / 2, 3)];
    assert_eq!(summarize(&fits).unwrap().total_extra_bytes, u64::MAX - 1);
    let groups = vec![group(u64::MAX / 2 + 1, 3)];
    assert!(summarize(&groups).is_none());
    let zero = vec![group(0, 3)];
    let s = summarize(&zero).unwrap();
    assert!(s.groups.is_empty());
    assert_eq!(s.total_files, 3);
}

#[test]
fn text_report_lists_groups() {
    let empty: Vec<DuplicateGroup> = vec![];
    assert_eq!(text_report(&empty), "No duplicates found (by full-file BLAKE3 hash).\n");
    let groups = vec![group(5, 2)];
    assert_eq!(
        text_report(&groups),
        "Duplicate groups: 1\n\n== Group 1: 2 files | 5 bytes | blake3 h5 ==\n  - /lib/f0\n  - /lib/f1\n\n"
    );
}
