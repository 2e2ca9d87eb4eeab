use file_dedup::folder_scanner::collector::{
    bucket_file_by_size, collect, filter_potential_duplicates,
};
use file_dedup::folder_scanner::file_info::FileInfo;
use std::collections::HashMap;
use std::time::SystemTime;

fn record(path: &str, size: u64) -> FileInfo {
    FileInfo { file: path.to_string(), size, date: SystemTime::UNIX_EPOCH }
}

fn paths(group: &Vec<FileInfo>) -> Vec<String> {
    group.iter().map(|info| info.file.clone()).collect()
}

#[test]
fn bucket_is_made_for_a_new_size() {
    let mut buckets: HashMap<u64, Vec<FileInfo>> = HashMap::new();
    bucket_file_by_size(&mut buckets, record("/a", 10));
    assert_eq!(buckets.len(), 1);
    assert_eq!(paths(&buckets[&10]), vec!["/a".to_string()]);
}

#[test]
fn bucket_grows_at_its_end() {
    let mut buckets: HashMap<u64, Vec<FileInfo>> = HashMap::new();
    bucket_file_by_size(&mut buckets, record("/a", 10));
    bucket_file_by_size(&mut buckets, record("/b", 20));
    bucket_file_by_size(&mut buckets, record("/c", 10));
    assert_eq!(buckets.len(), 2);
    assert_eq!(paths(&buckets[&10]), vec!["/a".to_string(), "/c".to_string()]);
    assert_eq!(paths(&buckets[&20]), vec!["/b".to_string()]);
}

#[test]
fn bucket_of_size_zero_is_a_bucket() {
    let mut buckets: HashMap<u64, Vec<FileInfo>> = HashMap::new();
    bucket_file_by_size(&mut buckets, record("/empty1", 0));
    bucket_file_by_size(&mut buckets, record("/empty2", 0));
    assert_eq!(paths(&buckets[&0]), vec!["/empty1".to_string(), "/empty2".to_string()]);
}

#[test]
fn filter_drops_buckets_of_one() {
    let mut buckets: HashMap<u64, Vec<FileInfo>> = HashMap::new();
    buckets.insert(1, vec![record("/one", 1)]);
    buckets.insert(2, vec![record("/two-a", 2), record("/two-b", 2)]);
    buckets.insert(3, vec![record("/three", 3)]);
    let groups = filter_potential_duplicates(buckets);
    assert_eq!(groups.len(), 1);
    assert_eq!(paths(&groups[0]), vec!["/two-a".to_string(), "/two-b".to_string()]);
}

#[test]
fn filter_of_nothing_is_nothing() {
    let groups = filter_potential_duplicates(HashMap::new());
    assert!(groups.is_empty());
}

#[test]
fn filter_keeps_every_larger_bucket_once() {
    let mut buckets: HashMap<u64, Vec<FileInfo>> = HashMap::new();
    buckets.insert(7, vec![record("/a", 7), record("/b", 7), record("/c", 7)]);
    buckets.insert(9, vec![record("/d", 9), record("/e", 9)]);
    let mut groups = filter_potential_duplicates(buckets);
    groups.sort_by_key(|group| group[0].size);
    assert_eq!(groups.len(), 2);
    assert_eq!(paths(&groups[0]), vec!["/a".to_string(), "/b".to_string(), "/c".to_string()]);
    assert_eq!(paths(&groups[1]), vec!["/d".to_string(), "/e".to_string()]);
}

#[test]
fn collect_groups_by_exact_size() {
    let records = vec![
        record("/a", 100),
        record("/b", 101),
        record("/c", 100),
        record("/d", 5),
        record("/e", 101),
        record("/f", 100),
    ];
    let mut result = collect(records);
    result.buckets.sort_by_key(|group| group[0].size);
    assert_eq!(result.buckets.len(), 2);
    assert_eq!(
        paths(&result.buckets[0]),
        vec!["/a".to_string(), "/c".to_string(), "/f".to_string()]
    );
    assert_eq!(paths(&result.buckets[1]), vec!["/b".to_string(), "/e".to_string()]);
}

#[test]
fn collect_never_mixes_sizes() {
    let mut records = Vec::new();
    for i in 0..40u64 {
        records.push(record(&format!("/f{}", i), i % 7));
    }
    let result = collect(records);
    assert_eq!(result.buckets.len(), 7);
    for group in &result.buckets {
        assert!(group.len() >= 2);
        for info in group {
            assert_eq!(info.size, group[0].size);
        }
    }
    let total: usize = result.buckets.iter().map(|group| group.len()).sum();
    assert_eq!(total, 40);
}

#[test]
fn collect_of_distinct_sizes_has_no_candidates() {
    let result = collect(vec![record("/five", 5), record("/seven", 7)]);
    assert!(result.buckets.is_empty());
}

#[test]
fn collect_of_no_records_has_no_candidates() {
    let result = collect(Vec::new());
    assert!(result.buckets.is_empty());
}

#[test]
fn collect_keeps_the_records_whole() {
    let later = SystemTime::UNIX_EPOCH + std::time::Duration::from_secs(42);
    let records = vec![
        FileInfo { file: "/x".to_string(), size: 3, date: later },
        FileInfo { file: "/y".to_string(), size: 3, date: SystemTime::UNIX_EPOCH },
    ];
    let result = collect(records);
    assert_eq!(result.buckets.len(), 1);
    assert_eq!(result.buckets[0][0].file, "/x");
    assert_eq!(result.buckets[0][0].date, later);
    assert_eq!(result.buckets[0][1].file, "/y");
    assert_eq!(result.buckets[0][1].date, SystemTime::UNIX_EPOCH);
}

#[test]
fn clone_of_a_record_is_the_record() {
    let info = record("/some/where", 77);
    let copy = info.clone();
    assert_eq!(copy.file, "/some/where");
    assert_eq!(copy.size, 77);
    assert_eq!(copy.date, SystemTime::UNIX_EPOCH);
}
