use file_dedup::folder_scanner::collector::collect;
use file_dedup::folder_scanner::deduplicator::{
    dispatch, handle_request, worker_step, DispatchStep, FileRead, WorkerStep,
};
use file_dedup::folder_scanner::duplicates_group::DuplicatesGroup;
use file_dedup::folder_scanner::duplicates_result_processor::{
    listen, ActionInput, ActionPlan, DeduplicatorResultProcessor, Received,
};
use file_dedup::folder_scanner::file_info::FileInfo;
use file_dedup::folder_scanner::sampler::{sample_plan, SamplePlan, SampleSource};
use file_dedup::Action;
use std::time::SystemTime;

struct Stored {
    path: &'static str,
    size: u64,
    content: &'static [u8],
}

fn walk(files: &[Stored]) -> Vec<FileInfo> {
    files
        .iter()
        .map(|stored| FileInfo {
            file: stored.path.to_string(),
            size: stored.size,
            date: SystemTime::UNIX_EPOCH,
        })
        .collect()
}

fn read(files: &[Stored], info: &FileInfo) -> SampleSource {
    assert_eq!(sample_plan(info.size), SamplePlan::WholeFile);
    match files.iter().find(|stored| stored.path == info.file) {
        Some(stored) => SampleSource::Whole(stored.content.to_vec()),
        None => SampleSource::Unreadable,
    }
}

/// Runs the stages one after the other on one thread, as a run does on many.
fn run(files: &[Stored]) -> Vec<DuplicatesGroup> {
    let candidates = collect(walk(files));
    let mut stream: Vec<Received> = Vec::new();
    for step in dispatch(candidates.buckets) {
        match step {
            DispatchStep::StartWorker | DispatchStep::JoinWorker => {}
            DispatchStep::Send(message) => match worker_step(Some(message)) {
                WorkerStep::Process(group) => {
                    let reads = group
                        .into_iter()
                        .map(|info| {
                            let source = read(files, &info);
                            FileRead { file_info: info, source }
                        })
                        .collect();
                    for found in handle_request(reads) {
                        stream.push(Received::Group(found));
                    }
                }
                WorkerStep::Exit => {}
            },
            DispatchStep::SignalEnd => stream.push(Received::Sentinel),
        }
    }
    listen(stream)
}

#[test]
fn two_of_three_files_of_one_size_are_duplicates() {
    let files = [
        Stored { path: "/dir/A", size: 10, content: b"hello" },
        Stored { path: "/dir/B", size: 10, content: b"hello" },
        Stored { path: "/dir/C", size: 10, content: b"world" },
    ];
    let duplicates = run(&files);
    assert_eq!(duplicates.len(), 1);
    let names: Vec<&str> =
        duplicates[0].item.iter().map(|member| member.sample.file_info.file.as_str()).collect();
    assert_eq!(names, vec!["/dir/A", "/dir/B"]);
}

#[test]
fn files_of_distinct_sizes_are_never_compared() {
    let files = [
        Stored { path: "/dir/five", size: 5, content: b"12345" },
        Stored { path: "/dir/seven", size: 7, content: b"1234567" },
    ];
    assert!(collect(walk(&files)).buckets.is_empty());
    let duplicates = run(&files);
    assert!(duplicates.is_empty());
    let processor = DeduplicatorResultProcessor::new(duplicates);
    let plan = processor.apply(ActionInput::from(Action::Report, None));
    assert!(matches!(plan, ActionPlan::Nothing));
}

#[test]
fn move_takes_all_but_the_shortest_path() {
    let files = [
        Stored { path: "/data/a/copy.txt", size: 5, content: b"hello" },
        Stored { path: "/data/b.txt", size: 5, content: b"hello" },
        Stored { path: "/data/deeper/down/c.txt", size: 5, content: b"hello" },
    ];
    let duplicates = run(&files);
    assert_eq!(duplicates.len(), 1);
    assert_eq!(duplicates[0].item.len(), 3);
    let processor = DeduplicatorResultProcessor::new(duplicates);
    let action = ActionInput::from(Action::Move, Some("X".to_string()));
    assert!(processor.is_applicable(&action));
    match processor.apply(action) {
        ActionPlan::Move { destination_folder, moves } => {
            assert_eq!(destination_folder, "X");
            assert_eq!(moves.len(), 2);
            assert_eq!(moves[0].source, "/data/a/copy.txt");
            assert_eq!(moves[0].target_name, "L2RhdGEvYS9jb3B5LnR4dA==");
            assert_eq!(moves[1].source, "/data/deeper/down/c.txt");
            assert_eq!(moves[1].target_name, "L2RhdGEvZGVlcGVyL2Rvd24vYy50eHQ=");
            assert!(moves.iter().all(|one| one.source != "/data/b.txt"));
        }
        _ => panic!("a move was asked for"),
    }
}

#[test]
fn a_file_that_cannot_be_read_is_no_duplicate() {
    let files = [
        Stored { path: "/dir/A", size: 5, content: b"hello" },
        Stored { path: "/dir/B", size: 5, content: b"hello" },
    ];
    let mut listed = walk(&files);
    listed.push(FileInfo { file: "/dir/gone".to_string(), size: 5, date: SystemTime::UNIX_EPOCH });
    let candidates = collect(listed);
    assert_eq!(candidates.buckets.len(), 1);
    assert_eq!(candidates.buckets[0].len(), 3);
    let reads = candidates.buckets[0]
        .iter()
        .map(|info| FileRead { file_info: info.clone(), source: read(&files, info) })
        .collect();
    let duplicates = handle_request(reads);
    assert_eq!(duplicates.len(), 1);
    assert_eq!(duplicates[0].item.len(), 2);
}
