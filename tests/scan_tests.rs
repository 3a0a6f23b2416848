use disk_analyzer::classify::{classify_entry, EntryAction};
use disk_analyzer::scan::{
    extension_of, min_size_from_mb, stale, FileRecord, ScanAccumulator, ScanRequest,
};

const MB: u64 = 1024 * 1024;
const DAY: u64 = 86400;
const NOW: u64 = 1_700_000_000;

fn record(path: &str, size: u64, age_days: u64) -> FileRecord {
    let name = path.rsplit('/').next().unwrap();
    FileRecord {
        path: path.to_string(),
        size_bytes: size,
        extension: extension_of(name),
        modified_at: NOW - age_days * DAY,
    }
}

#[test]
fn top_files_keep_the_largest_in_order() {
    let mut req = ScanRequest::new("/root");
    req.limit = Some(2);
    let mut acc = ScanAccumulator::new(&req, NOW);
    assert!(acc.observe_file(record("/root/a.bin", 10 * MB, 1)));
    assert!(acc.observe_file(record("/root/b.bin", 5 * MB, 1)));
    assert!(acc.observe_file(record("/root/c.bin", MB, 1)));
    let report = acc.finish();
    let sizes: Vec<u64> = report.top_files.iter().map(|f| f.size_bytes).collect();
    assert_eq!(sizes, vec![10 * MB, 5 * MB]);
    assert_eq!(report.summary.total_files, 3);
    assert_eq!(report.summary.total_bytes, 16 * MB);
}

#[test]
fn top_files_order_does_not_depend_on_arrival() {
    let mut req = ScanRequest::new("/root");
    req.limit = Some(2);
    let mut acc = ScanAccumulator::new(&req, NOW);
    acc.observe_file(record("/root/c.bin", MB, 1));
    acc.observe_file(record("/root/b.bin", 5 * MB, 1));
    acc.observe_file(record("/root/a.bin", 10 * MB, 1));
    let report = acc.finish();
    let paths: Vec<&str> = report.top_files.iter().map(|f| f.path.as_str()).collect();
    assert_eq!(paths, vec!["/root/a.bin", "/root/b.bin"]);
}

#[test]
fn top_files_ties_keep_first_seen() {
    let mut req = ScanRequest::new("/r");
    req.limit = Some(2);
    let mut acc = ScanAccumulator::new(&req, NOW);
    acc.observe_file(record("/r/first", 7, 1));
    acc.observe_file(record("/r/second", 7, 1));
    acc.observe_file(record("/r/third", 7, 1));
    let report = acc.finish();
    let paths: Vec<&str> = report.top_files.iter().map(|f| f.path.as_str()).collect();
    assert_eq!(paths, vec!["/r/first", "/r/second"]);
}

#[test]
fn default_limit_is_twenty() {
    let req = ScanRequest::new("/r");
    let mut acc = ScanAccumulator::new(&req, NOW);
    for i in 0..30u64 {
        acc.observe_file(record(&format!("/r/f{}", i), i, 1));
    }
    let report = acc.finish();
    assert_eq!(report.top_files.len(), 20);
    assert_eq!(report.top_files[0].size_bytes, 29);
    assert_eq!(report.top_files[19].size_bytes, 10);
}

#[test]
fn extension_totals_match_summary() {
    let req = ScanRequest::new("/r");
    let mut acc = ScanAccumulator::new(&req, NOW);
    acc.observe_file(record("/r/a.TXT", 10, 1));
    acc.observe_file(record("/r/b.txt", 20, 1));
    acc.observe_file(record("/r/c.rs", 5, 1));
    acc.observe_file(record("/r/Makefile", 3, 1));
    acc.observe_dir();
    let report = acc.finish();
    assert_eq!(report.summary.total_dirs, 1);
    assert_eq!(report.by_extension.len(), 3);
    assert_eq!(report.by_extension[0].extension, "txt");
    assert_eq!(report.by_extension[0].file_count, 2);
    assert_eq!(report.by_extension[0].total_bytes, 30);
    assert_eq!(report.by_extension[2].extension, "none");
    assert_eq!(report.by_extension[2].total_bytes, 3);
    let sum: u64 = report.by_extension.iter().map(|e| e.total_bytes).sum();
    assert_eq!(sum, report.summary.total_bytes);
    assert_eq!(sum, 38);
}

#[test]
fn overflowing_file_is_not_counted() {
    let req = ScanRequest::new("/r");
    let mut acc = ScanAccumulator::new(&req, NOW);
    assert!(acc.observe_file(record("/r/huge", u64::MAX - 1, 1)));
    assert!(!acc.observe_file(record("/r/more", 2, 1)));
    let report = acc.finish();
    assert_eq!(report.summary.total_files, 1);
    assert_eq!(report.summary.total_bytes, u64::MAX - 1);
}

#[test]
fn stale_files_and_min_size() {
    let mut req = ScanRequest::new("/r");
    req.min_size = Some(100);
    let mut acc = ScanAccumulator::new(&req, NOW);
    acc.observe_file(record("/r/old_big", 500, 120));
    acc.observe_file(record("/r/old_small", 50, 120));
    acc.observe_file(record("/r/new_big", 500, 10));
    acc.observe_file(record("/r/edge", 500, 90));
    let report = acc.finish();
    let stale: Vec<&str> = report.stale_files.iter().map(|f| f.path.as_str()).collect();
    assert_eq!(stale, vec!["/r/old_big"]);
    assert_eq!(report.top_files.len(), 3);
    assert_eq!(report.summary.total_files, 4);
}

#[test]
fn staleness_threshold() {
    assert!(stale(NOW - 91 * DAY, NOW, 90));
    assert!(!stale(NOW - 90 * DAY, NOW, 90));
    assert!(stale(NOW - 1, NOW, 0));
    assert!(!stale(0, 100, 1));
    assert!(!stale(0, NOW, u64::MAX));
}

#[test]
fn extensions_are_lower_cased() {
    assert_eq!(extension_of("photo.JPG"), Some("jpg".to_string()));
    assert_eq!(extension_of("archive.tar.GZ"), Some("gz".to_string()));
    assert_eq!(extension_of(".bashrc"), None);
    assert_eq!(extension_of("README"), None);
    assert_eq!(extension_of("trailing."), Some(String::new()));
    assert_eq!(extension_of("x.ÄB"), Some("Äb".to_string()));
}

#[test]
fn min_size_in_mib() {
    assert_eq!(min_size_from_mb(None), None);
    assert_eq!(min_size_from_mb(Some(2)), Some(2 * MB));
    assert_eq!(min_size_from_mb(Some(u64::MAX)), Some(u64::MAX));
}

#[test]
fn classifier_rules() {
    assert_eq!(classify_entry("src", false, true), EntryAction::Descend);
    assert_eq!(classify_entry("node_modules", false, true), EntryAction::Skip);
    assert_eq!(classify_entry("target", false, true), EntryAction::Skip);
    assert_eq!(classify_entry(".git", false, true), EntryAction::Skip);
    assert_eq!(classify_entry(".cache", false, true), EntryAction::Skip);
    assert_eq!(classify_entry("src", true, true), EntryAction::Skip);
    assert_eq!(classify_entry("link.txt", true, false), EntryAction::Skip);
    assert_eq!(classify_entry(".hidden_file", false, false), EntryAction::Record);
    assert_eq!(classify_entry("targets", false, true), EntryAction::Descend);
}
