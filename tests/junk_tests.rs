use disk_analyzer::junk::{
    assemble_junk, clean_targets, items_size, sort_by_size_desc, summarize_clean, DeleteOutcome,
    JunkCategory, JunkItem, JunkKind, JunkScan,
};

fn scan(kind: JunkKind, found: bool, sizes: &[u64]) -> JunkScan {
    JunkScan {
        kind,
        root_found: found,
        items: sizes
            .iter()
            .enumerate()
            .map(|(i, s)| JunkItem { path: format!("/j/{}", i), size_bytes: *s })
            .collect(),
    }
}

fn all_empty(xcode_found: bool) -> Vec<JunkScan> {
    JunkKind::all().into_iter().map(|k| scan(k, k == JunkKind::XcodeDerived && xcode_found, &[])).collect()
}

#[test]
fn clean_with_no_categories_is_zero() {
    let ids: Vec<String> = Vec::new();
    let roots = clean_targets(&ids, "/home/u");
    assert!(roots.is_empty());
    let outcomes: Vec<DeleteOutcome> = Vec::new();
    let r = summarize_clean(&outcomes);
    assert_eq!(r.freed_bytes, 0);
    assert_eq!(r.deleted_count, 0);
    assert!(r.errors.is_empty());
}

#[test]
fn clean_ignores_unknown_category() {
    let ids = vec!["no_such_category".to_string()];
    let roots = clean_targets(&ids, "/home/u");
    assert!(roots.is_empty());
    let r = summarize_clean(&Vec::new());
    assert_eq!(r.freed_bytes, 0);
    assert_eq!(r.deleted_count, 0);
    assert!(r.errors.is_empty());
}

#[test]
fn clean_targets_resolve_in_order() {
    let ids = vec!["npm_cache".to_string(), "bogus".to_string(), "temp_files".to_string(), "trash".to_string()];
    let roots = clean_targets(&ids, "/home/u");
    assert_eq!(
        roots,
        vec![
            "/home/u/.npm/_cacache".to_string(),
            "/home/u/Library/Caches/Yarn".to_string(),
            "/tmp".to_string(),
            "/var/tmp".to_string(),
            "/home/u/.Trash".to_string(),
        ]
    );
}

#[test]
fn category_ids_round_trip() {
    for k in JunkKind::all() {
        assert_eq!(JunkKind::from_id(&k.id()), Some(k));
    }
    assert_eq!(JunkKind::from_id("system_cache"), Some(JunkKind::SystemCache));
    assert_eq!(JunkKind::from_id("System_Cache"), None);
    assert_eq!(JunkKind::SystemCache.roots("/h"), vec!["/h/Library/Caches".to_string()]);
    assert_eq!(JunkKind::XcodeDerived.roots("/h"), vec!["/h/Library/Developer/Xcode/DerivedData".to_string()]);
    assert_eq!(JunkKind::AppLogs.name(), "Application Logs");
}

#[test]
fn clean_summary_counts_and_caps_errors() {
    let mut outcomes = vec![
        DeleteOutcome::Removed { size_bytes: 100 },
        DeleteOutcome::Removed { size_bytes: 23 },
    ];
    for i in 0..12 {
        outcomes.push(DeleteOutcome::Failed { message: format!("/tmp/x{}: denied", i) });
    }
    outcomes.push(DeleteOutcome::Removed { size_bytes: u64::MAX });
    let r = summarize_clean(&outcomes);
    assert_eq!(r.freed_bytes, u64::MAX);
    assert_eq!(r.deleted_count, 3);
    assert_eq!(r.errors.len(), 10);
    assert_eq!(r.errors[0], "/tmp/x0: denied");
    assert_eq!(r.errors[9], "/tmp/x9: denied");
}

#[test]
fn clean_summary_exact_sum() {
    let outcomes = vec![
        DeleteOutcome::Removed { size_bytes: 4096 },
        DeleteOutcome::Failed { message: "e".to_string() },
        DeleteOutcome::Removed { size_bytes: 1 },
    ];
    let r = summarize_clean(&outcomes);
    assert_eq!(r.freed_bytes, 4097);
    assert_eq!(r.deleted_count, 2);
    assert_eq!(r.errors, vec!["e".to_string()]);
}

#[test]
fn empty_junk_environment() {
    let cats = assemble_junk(all_empty(false));
    let ids: Vec<&str> = cats.iter().map(|c| c.id.as_str()).collect();
    assert_eq!(ids, vec!["system_cache", "app_logs", "trash", "temp_files"]);
    for c in &cats {
        assert_eq!(c.size_bytes, 0);
    }
    let cats = assemble_junk(all_empty(true));
    let ids: Vec<&str> = cats.iter().map(|c| c.id.as_str()).collect();
    assert_eq!(ids, vec!["system_cache", "app_logs", "trash", "temp_files", "xcode_derived"]);
}

#[test]
fn junk_sorted_by_size() {
    let scans = vec![
        scan(JunkKind::SystemCache, true, &[10, 20]),
        scan(JunkKind::AppLogs, true, &[5]),
        scan(JunkKind::Trash, true, &[100]),
        scan(JunkKind::TempFiles, true, &[]),
        scan(JunkKind::XcodeDerived, false, &[]),
        scan(JunkKind::NpmCache, true, &[7, 8]),
    ];
    let cats = assemble_junk(scans);
    let got: Vec<(&str, u64)> = cats.iter().map(|c| (c.id.as_str(), c.size_bytes)).collect();
    assert_eq!(
        got,
        vec![("trash", 100), ("system_cache", 30), ("npm_cache", 15), ("app_logs", 5), ("temp_files", 0)]
    );
    assert_eq!(cats[1].items.len(), 2);
    assert_eq!(cats[1].name, "System & App Cache");
}

#[test]
fn junk_item_sizes_saturate() {
    let items = vec![
        JunkItem { path: "/a".to_string(), size_bytes: u64::MAX },
        JunkItem { path: "/b".to_string(), size_bytes: 1 },
    ];
    assert_eq!(items_size(&items), u64::MAX);
    assert_eq!(items_size(&Vec::new()), 0);
}

#[test]
fn category_sort_is_stable() {
    let mk = |id: &str, size: u64| JunkCategory {
        id: id.to_string(),
        name: String::new(),
        description: String::new(),
        size_bytes: size,
        items: Vec::new(),
    };
    let mut cats = vec![mk("a", 1), mk("b", 5), mk("c", 1), mk("d", 5)];
    sort_by_size_desc(&mut cats);
    let ids: Vec<&str> = cats.iter().map(|c| c.id.as_str()).collect();
    assert_eq!(ids, vec!["b", "d", "a", "c"]);
}
