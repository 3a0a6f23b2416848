use disk_analyzer::duplicates::{
    duplicate_min_bytes, find_duplicates, fingerprint, fingerprint_groups, fingerprint_hex,
    sample_len, size_buckets, summarize_duplicates, wasted, DuplicateGroup, SizedPath,
};
use disk_analyzer::grouping::{group_positions, KeyGroup};

fn file(path: &str, size: u64) -> SizedPath {
    SizedPath { path: path.to_string(), size_bytes: size }
}

fn group(size: u64, n: usize) -> DuplicateGroup {
    DuplicateGroup {
        hash: "0000000000000000".to_string(),
        size_bytes: size,
        files: (0..n).map(|i| format!("/f{}", i)).collect(),
    }
}

#[test]
fn sample_len_is_capped() {
    assert_eq!(sample_len(0), 0);
    assert_eq!(sample_len(100), 100);
    assert_eq!(sample_len(4096), 4096);
    assert_eq!(sample_len(1 << 30), 4096);
}

#[test]
fn fingerprint_samples_eight_offsets() {
    let prefix: Vec<u8> = (0u8..16).collect();
    let k = fingerprint(&prefix);
    assert_eq!(k, 0x0001020304080c0f);
    assert_eq!(fingerprint_hex(k), "0001020304080c0f");
}

#[test]
fn fingerprint_of_short_prefixes() {
    assert_eq!(fingerprint(&vec![0xab]), 0xabababababababab);
    assert_eq!(fingerprint(&vec![1, 2]), 0x0102020201020202);
    assert_eq!(fingerprint(&vec![]), 0);
    assert_eq!(fingerprint_hex(0xab), "00000000000000ab");
}

#[test]
fn group_positions_keeps_repeated_keys_only() {
    let keys = vec![Some(5), None, Some(3), Some(5), Some(9), Some(3), Some(5)];
    let mut groups = group_positions(&keys);
    groups.sort_by_key(|g| g.key);
    assert_eq!(groups.len(), 2);
    assert_eq!(groups[0].key, 3);
    assert_eq!(groups[0].positions, vec![2, 5]);
    assert_eq!(groups[1].key, 5);
    assert_eq!(groups[1].positions, vec![0, 3, 6]);
}

#[test]
fn size_buckets_apply_threshold() {
    let files = vec![file("/a", 5), file("/b", 1), file("/c", 5), file("/d", 1), file("/e", 7)];
    let buckets = size_buckets(&files, 2);
    assert_eq!(buckets.len(), 1);
    assert_eq!(buckets[0].key, 5);
    assert_eq!(buckets[0].positions, vec![0, 2]);
    assert!(size_buckets(&files, 6).is_empty());
}

#[test]
fn fingerprint_groups_skip_unread_prefixes() {
    let p = vec![Some(vec![1u8, 2, 3]), None, Some(vec![1u8, 2, 3]), Some(vec![9u8, 9, 9])];
    let groups = fingerprint_groups(&p);
    assert_eq!(groups.len(), 1);
    assert_eq!(groups[0].positions, vec![0, 2]);
    let only_one = vec![Some(vec![1u8]), None];
    assert!(fingerprint_groups(&only_one).is_empty());
}

#[test]
fn equal_samples_with_different_content_are_grouped() {
    let a: Vec<u8> = vec![7u8; 4096];
    let mut b = a.clone();
    b[100] = 1;
    b[2000] = 2;
    assert_ne!(a, b);
    let files = vec![file("/x/a.bin", 4096), file("/x/b.bin", 4096)];
    let buckets = size_buckets(&files, 1);
    assert_eq!(buckets.len(), 1);
    let prefixes = vec![vec![Some(a), Some(b)]];
    let result = find_duplicates(&files, 1, &buckets, &prefixes);
    assert_eq!(result.groups.len(), 1);
    assert_eq!(result.groups[0].files, vec!["/x/a.bin".to_string(), "/x/b.bin".to_string()]);
    assert_eq!(result.groups[0].size_bytes, 4096);
    assert_eq!(result.total_wasted_bytes, 4096);
    assert_eq!(result.total_groups, 1);
}

#[test]
fn differing_samples_are_not_grouped() {
    let a: Vec<u8> = vec![7u8; 4096];
    let mut b = a.clone();
    b[1024] = 1;
    let files = vec![file("/a", 4096), file("/b", 4096)];
    let buckets = size_buckets(&files, 1);
    let prefixes = vec![vec![Some(a), Some(b)]];
    let result = find_duplicates(&files, 1, &buckets, &prefixes);
    assert!(result.groups.is_empty());
    assert_eq!(result.total_wasted_bytes, 0);
}

#[test]
fn find_duplicates_groups_share_size() {
    let files = vec![
        file("/r/a", 3000),
        file("/r/b", 10),
        file("/r/c", 3000),
        file("/r/d", 3000),
        file("/r/e", 500),
        file("/r/f", 500),
    ];
    let buckets: Vec<KeyGroup> = size_buckets(&files, 100);
    let mut prefixes = Vec::new();
    for b in &buckets {
        let mut per = Vec::new();
        for &m in &b.positions {
            let n = files[m].size_bytes as usize;
            per.push(Some(vec![3u8; n.min(4096)]));
        }
        prefixes.push(per);
    }
    let result = find_duplicates(&files, 100, &buckets, &prefixes);
    assert_eq!(result.groups.len(), 2);
    assert_eq!(result.groups[0].size_bytes, 3000);
    assert_eq!(result.groups[0].files.len(), 3);
    assert_eq!(result.groups[1].size_bytes, 500);
    assert_eq!(result.total_wasted_bytes, 6000 + 500);
    for g in &result.groups {
        assert!(g.files.len() >= 2);
        for p in &g.files {
            let f = files.iter().find(|f| &f.path == p).unwrap();
            assert_eq!(f.size_bytes, g.size_bytes);
        }
    }
}

#[test]
fn wasted_bytes_formula() {
    assert_eq!(wasted(&group(100, 3)), 200);
    assert_eq!(wasted(&group(100, 1)), 0);
    assert_eq!(wasted(&group(u64::MAX, 3)), u64::MAX);
}

#[test]
fn summary_ranks_and_truncates() {
    let mut groups = Vec::new();
    for i in 0..60u64 {
        groups.push(group(10 + i, 2));
    }
    groups.push(group(35, 3));
    let result = summarize_duplicates(groups);
    assert_eq!(result.groups.len(), 50);
    assert_eq!(result.total_groups, 50);
    assert_eq!(result.groups[0].size_bytes, 35);
    assert_eq!(result.groups[0].files.len(), 3);
    assert_eq!(result.groups[1].size_bytes, 69);
    for w in result.groups.windows(2) {
        assert!(wasted(&w[0]) >= wasted(&w[1]));
    }
    let total: u64 = result.groups.iter().map(|g| wasted(g)).sum();
    assert_eq!(result.total_wasted_bytes, total);
}

#[test]
fn summary_breaks_ties_by_size() {
    let groups = vec![group(50, 3), group(100, 2), group(25, 5)];
    let result = summarize_duplicates(groups);
    let sizes: Vec<u64> = result.groups.iter().map(|g| g.size_bytes).collect();
    assert_eq!(sizes, vec![100, 50, 25]);
    assert_eq!(result.total_wasted_bytes, 300);
}

#[test]
fn empty_summary() {
    let result = summarize_duplicates(Vec::new());
    assert!(result.groups.is_empty());
    assert_eq!(result.total_wasted_bytes, 0);
    assert_eq!(result.total_groups, 0);
}

#[test]
fn duplicate_threshold_in_mib() {
    assert_eq!(duplicate_min_bytes(None), 1048576);
    assert_eq!(duplicate_min_bytes(Some(0)), 0);
    assert_eq!(duplicate_min_bytes(Some(3)), 3 * 1048576);
    assert_eq!(duplicate_min_bytes(Some(u64::MAX)), u64::MAX);
}
