use file_dedup::folder_scanner::deduplicator::{
    collect_samples, dispatch, find_duplicates, handle_request, hash_sample, hash_samples,
    worker_step, DispatchStep, FileRead, Message, WorkerStep, MAX_WORKERS,
};
use file_dedup::folder_scanner::duplicates_group::{DuplicatesGroup, Sample};
use file_dedup::folder_scanner::file_info::FileInfo;
use file_dedup::folder_scanner::sampler::SampleSource;
use std::time::SystemTime;

const HELLO: &str = "2cf24dba5fb0a30e26e83b2ac5b9e29e1b161e5c1fa7425e73043362938b9824";
const WORLD: &str = "486ea46224d1bb4fb680f34f7c9ad96a8f24ec88be73ea8e5a6c65260e9cb8a7";
const EMPTY: &str = "e3b0c44298fc1c149afbf4c8996fb92427ae41e4649b934ca495991b7852b855";
const ABC: &str = "ba7816bf8f01cfea414140de5dae2223b00361a396177a9cb410ff61f20015ad";
const ZEROS_80_KIB: &str = "fa569e2360c540e6280e34a4627516770f1a5f34d81d35689334a99cc1013357";

fn record(path: &str, size: u64) -> FileInfo {
    FileInfo { file: path.to_string(), size, date: SystemTime::UNIX_EPOCH }
}

fn sample(path: &str, bytes: &[u8]) -> Sample {
    Sample { file_info: record(path, bytes.len() as u64), bytes: bytes.to_vec() }
}

fn paths(group: &DuplicatesGroup) -> Vec<String> {
    group.item.iter().map(|member| member.sample.file_info.file.clone()).collect()
}

fn sorted_by_first_path(mut groups: Vec<DuplicatesGroup>) -> Vec<DuplicatesGroup> {
    groups.sort_by_key(|group| group.item[0].sample.file_info.file.clone());
    groups
}

#[test]
fn digest_is_lowercase_hex_sha256() {
    assert_eq!(hash_sample(sample("/a", b"hello")).unwrap().hash, HELLO);
    assert_eq!(hash_sample(sample("/b", b"world")).unwrap().hash, WORLD);
    assert_eq!(hash_sample(sample("/c", b"abc")).unwrap().hash, ABC);
}

#[test]
fn digest_of_no_bytes() {
    assert_eq!(hash_sample(sample("/empty", b"")).unwrap().hash, EMPTY);
}

#[test]
fn digest_of_an_empty_probe() {
    let hashed = hash_sample(sample("/zeros", &vec![0u8; 81920])).unwrap();
    assert_eq!(hashed.hash, ZEROS_80_KIB);
    assert_eq!(hashed.hash.len(), 64);
}

#[test]
fn hashing_keeps_the_sample() {
    let hashed = hash_sample(sample("/keep/me", b"hello")).unwrap();
    assert_eq!(hashed.sample.file_info.file, "/keep/me");
    assert_eq!(hashed.sample.file_info.size, 5);
    assert_eq!(hashed.sample.bytes, b"hello".to_vec());
}

#[test]
fn hashing_keeps_the_order() {
    let hashed = hash_samples(vec![
        sample("/1", b"world"),
        sample("/2", b"hello"),
        sample("/3", b"world"),
    ]);
    let digests: Vec<&str> = hashed.iter().map(|member| member.hash.as_str()).collect();
    assert_eq!(digests, vec![WORLD, HELLO, WORLD]);
    let names: Vec<&str> =
        hashed.iter().map(|member| member.sample.file_info.file.as_str()).collect();
    assert_eq!(names, vec!["/1", "/2", "/3"]);
}

#[test]
fn same_bytes_make_one_group() {
    let groups = find_duplicates(vec![
        sample("/a", b"hello"),
        sample("/b", b"hello"),
        sample("/c", b"world"),
    ]);
    assert_eq!(groups.len(), 1);
    assert_eq!(paths(&groups[0]), vec!["/a".to_string(), "/b".to_string()]);
    assert_eq!(groups[0].item[0].hash, HELLO);
    assert_eq!(groups[0].item[1].hash, HELLO);
}

#[test]
fn one_candidate_group_can_hold_several_groups() {
    let groups = sorted_by_first_path(find_duplicates(vec![
        sample("/a", b"hello"),
        sample("/b", b"world"),
        sample("/c", b"hello"),
        sample("/d", b"other"),
        sample("/e", b"world"),
        sample("/f", b"hello"),
    ]));
    assert_eq!(groups.len(), 2);
    assert_eq!(paths(&groups[0]), vec!["/a".to_string(), "/c".to_string(), "/f".to_string()]);
    assert_eq!(paths(&groups[1]), vec!["/b".to_string(), "/e".to_string()]);
    for group in &groups {
        for member in &group.item {
            assert_eq!(member.hash, group.item[0].hash);
        }
    }
}

#[test]
fn samples_that_all_differ_make_no_group() {
    let groups = find_duplicates(vec![
        sample("/a", b"one"),
        sample("/b", b"two"),
        sample("/c", b"six"),
    ]);
    assert!(groups.is_empty());
}

#[test]
fn no_samples_make_no_group() {
    assert!(find_duplicates(Vec::new()).is_empty());
    assert!(find_duplicates(vec![sample("/alone", b"hello")]).is_empty());
}

#[test]
fn unreadable_files_drop_out() {
    let reads = vec![
        FileRead { file_info: record("/a", 5), source: SampleSource::Whole(b"hello".to_vec()) },
        FileRead { file_info: record("/b", 5), source: SampleSource::Unreadable },
        FileRead { file_info: record("/c", 5), source: SampleSource::Whole(b"hello".to_vec()) },
    ];
    let samples = collect_samples(reads);
    let names: Vec<&str> = samples.iter().map(|sample| sample.file_info.file.as_str()).collect();
    assert_eq!(names, vec!["/a", "/c"]);
}

#[test]
fn request_with_an_unreadable_twin_finds_nothing() {
    let reads = vec![
        FileRead { file_info: record("/a", 5), source: SampleSource::Whole(b"hello".to_vec()) },
        FileRead { file_info: record("/b", 5), source: SampleSource::Unreadable },
    ];
    assert!(handle_request(reads).is_empty());
}

#[test]
fn request_on_large_files_compares_their_heads() {
    let size = 1u64 << 20;
    let head = |fill: u8| -> SampleSource {
        SampleSource::Pieces(vec![Some(vec![fill; 10240]); 8])
    };
    let reads = vec![
        FileRead { file_info: record("/big/a", size), source: head(1) },
        FileRead { file_info: record("/big/b", size), source: head(2) },
        FileRead { file_info: record("/big/c", size), source: head(1) },
    ];
    let groups = handle_request(reads);
    assert_eq!(groups.len(), 1);
    assert_eq!(paths(&groups[0]), vec!["/big/a".to_string(), "/big/c".to_string()]);
    assert_eq!(groups[0].item[0].sample.bytes.len(), 81920);
}

#[test]
fn probing_again_gives_the_same_digest() {
    let info = record("/big", 1 << 20);
    let pieces = || -> SampleSource {
        SampleSource::Pieces(
            (0..8u8).map(|piece| Some(vec![piece; 10240 - piece as usize])).collect(),
        )
    };
    let first = file_dedup::folder_scanner::sampler::extract_sample(&info, pieces()).unwrap();
    let second = file_dedup::folder_scanner::sampler::extract_sample(&info, pieces()).unwrap();
    assert_eq!(first.bytes.len(), 81920);
    assert_eq!(first.bytes, second.bytes);
    let first_digest = hash_sample(first).unwrap().hash;
    let second_digest = hash_sample(second).unwrap().hash;
    assert_eq!(first_digest, second_digest);
    assert_eq!(first_digest.len(), 64);
}

#[test]
fn request_drops_a_large_file_with_a_failed_read() {
    let size = 1u64 << 20;
    let whole = || -> SampleSource { SampleSource::Pieces(vec![Some(vec![1u8; 10240]); 8]) };
    let mut broken = vec![Some(vec![1u8; 10240]); 8];
    broken[5] = None;
    let reads = vec![
        FileRead { file_info: record("/big/a", size), source: whole() },
        FileRead { file_info: record("/big/b", size), source: SampleSource::Pieces(broken) },
    ];
    assert!(handle_request(reads).is_empty());
    let mut broken = vec![Some(vec![1u8; 10240]); 8];
    broken[0] = None;
    let reads = vec![
        FileRead { file_info: record("/big/a", size), source: whole() },
        FileRead { file_info: record("/big/b", size), source: SampleSource::Pieces(broken) },
        FileRead { file_info: record("/big/c", size), source: whole() },
    ];
    let groups = handle_request(reads);
    assert_eq!(groups.len(), 1);
    assert_eq!(paths(&groups[0]), vec!["/big/a".to_string(), "/big/c".to_string()]);
}

#[test]
fn digests_have_sixty_four_hex_digits() {
    let groups = find_duplicates(vec![
        sample("/a", b"hello"),
        sample("/b", b"hello"),
        sample("/c", b""),
        sample("/d", b""),
    ]);
    assert_eq!(groups.len(), 2);
    for group in &groups {
        for member in &group.item {
            assert_eq!(member.hash.len(), 64);
            assert!(member.hash.chars().all(|c| "0123456789abcdef".contains(c)));
        }
    }
}

#[test]
fn worker_processes_a_request() {
    let message = Message::Request { file_info: vec![record("/a", 1), record("/b", 1)] };
    match worker_step(Some(message)) {
        WorkerStep::Process(files) => {
            assert_eq!(files.len(), 2);
            assert_eq!(files[0].file, "/a");
            assert_eq!(files[1].file, "/b");
        }
        WorkerStep::Exit => panic!("a request is processed"),
    }
}

#[test]
fn worker_leaves_on_terminate_and_on_a_broken_queue() {
    assert!(matches!(worker_step(Some(Message::Terminate)), WorkerStep::Exit));
    assert!(matches!(worker_step(None), WorkerStep::Exit));
}

#[test]
fn pool_has_three_workers() {
    assert_eq!(MAX_WORKERS, 3);
}

#[test]
fn dispatch_without_work_still_shuts_the_pool_down() {
    let steps = dispatch(Vec::new());
    assert_eq!(steps.len(), 10);
    for step in &steps[0..3] {
        assert!(matches!(step, DispatchStep::StartWorker));
    }
    for step in &steps[3..6] {
        assert!(matches!(step, DispatchStep::Send(Message::Terminate)));
    }
    for step in &steps[6..9] {
        assert!(matches!(step, DispatchStep::JoinWorker));
    }
    assert!(matches!(steps[9], DispatchStep::SignalEnd));
}

#[test]
fn dispatch_sends_every_group_before_the_shutdown() {
    let buckets = vec![
        vec![record("/a", 1), record("/b", 1)],
        vec![record("/c", 2), record("/d", 2), record("/e", 2)],
    ];
    let steps = dispatch(buckets);
    assert_eq!(steps.len(), 12);
    match &steps[3] {
        DispatchStep::Send(Message::Request { file_info }) => {
            assert_eq!(file_info.len(), 2);
            assert_eq!(file_info[0].file, "/a");
        }
        _ => panic!("the first group is sent first"),
    }
    match &steps[4] {
        DispatchStep::Send(Message::Request { file_info }) => {
            assert_eq!(file_info.len(), 3);
            assert_eq!(file_info[2].file, "/e");
        }
        _ => panic!("the second group is sent second"),
    }
    for step in &steps[5..8] {
        assert!(matches!(step, DispatchStep::Send(Message::Terminate)));
    }
    for step in &steps[8..11] {
        assert!(matches!(step, DispatchStep::JoinWorker));
    }
    assert!(matches!(steps[11], DispatchStep::SignalEnd));
    let signals = steps.iter().filter(|step| matches!(step, DispatchStep::SignalEnd)).count();
    assert_eq!(signals, 1);
}

#[test]
fn clones_hold_what_the_original_holds() {
    let hashed = hash_sample(sample("/a", b"hello")).unwrap();
    let copy = hashed.clone();
    assert_eq!(copy.hash, HELLO);
    assert_eq!(copy.sample.bytes, b"hello".to_vec());
    let group = DuplicatesGroup { item: vec![hashed, copy] };
    let again = group.clone();
    assert_eq!(again.item.len(), 2);
    assert_eq!(again.item[1].sample.file_info.file, "/a");
}
