use file_dedup::folder_scanner::duplicates_group::{DuplicatesGroup, HashedSample, Sample};
use file_dedup::folder_scanner::duplicates_result_processor::{
    listen, listen_step, move_duplicates, reorder_group, report_duplicates, ActionError,
    ActionInput, ActionPlan, DeduplicatorResultProcessor, Received,
};
use file_dedup::folder_scanner::file_info::FileInfo;
use file_dedup::Action;
use std::time::SystemTime;

fn member(path: &str) -> HashedSample {
    HashedSample {
        sample: Sample {
            file_info: FileInfo {
                file: path.to_string(),
                size: 5,
                date: SystemTime::UNIX_EPOCH,
            },
            bytes: b"hello".to_vec(),
        },
        hash: "2cf24dba5fb0a30e26e83b2ac5b9e29e1b161e5c1fa7425e73043362938b9824".to_string(),
    }
}

fn group(paths: &[&str]) -> DuplicatesGroup {
    DuplicatesGroup { item: paths.iter().map(|path| member(path)).collect() }
}

fn paths(members: &Vec<HashedSample>) -> Vec<String> {
    members.iter().map(|member| member.sample.file_info.file.clone()).collect()
}

#[test]
fn from_move_takes_the_folder() {
    match ActionInput::from(Action::Move, Some("/quarantine".to_string())) {
        ActionInput::Move(params) => assert_eq!(params.destination_folder(), "/quarantine"),
        ActionInput::Report => panic!("a move was asked for"),
    }
}

#[test]
fn from_report_needs_no_folder() {
    assert!(matches!(ActionInput::from(Action::Report, None), ActionInput::Report));
    assert!(matches!(
        ActionInput::from(Action::Report, Some("/unused".to_string())),
        ActionInput::Report
    ));
}

#[test]
fn select_refuses_delete() {
    assert_eq!(ActionInput::select(Action::Delete, None).unwrap_err(), ActionError::UnsupportedAction);
    assert_eq!(
        ActionInput::select(Action::Delete, Some("/x".to_string())).unwrap_err(),
        ActionError::UnsupportedAction
    );
}

#[test]
fn select_refuses_a_move_to_nowhere() {
    assert_eq!(ActionInput::select(Action::Move, None).unwrap_err(), ActionError::MissingDestination);
}

#[test]
fn select_takes_what_can_be_done() {
    assert!(matches!(ActionInput::select(Action::Report, None), Ok(ActionInput::Report)));
    match ActionInput::select(Action::Move, Some("/q".to_string())) {
        Ok(ActionInput::Move(params)) => {
            assert_eq!(params.destination_folder(), "/q");
            assert_eq!(params.clone().destination_folder(), "/q");
        }
        _ => panic!("a move with a folder can be done"),
    }
}

#[test]
fn reorder_puts_the_shortest_path_first() {
    let ordered = reorder_group(vec![
        member("/data/deeper/down/c.txt"),
        member("/data/a/copy.txt"),
        member("/data/b.txt"),
    ]);
    assert_eq!(
        paths(&ordered),
        vec![
            "/data/b.txt".to_string(),
            "/data/a/copy.txt".to_string(),
            "/data/deeper/down/c.txt".to_string()
        ]
    );
}

#[test]
fn reorder_keeps_the_order_of_equal_lengths() {
    let ordered = reorder_group(vec![
        member("/bb"),
        member("/zz"),
        member("/a"),
        member("/aa"),
        member("/c"),
    ]);
    assert_eq!(
        paths(&ordered),
        vec![
            "/a".to_string(),
            "/c".to_string(),
            "/bb".to_string(),
            "/zz".to_string(),
            "/aa".to_string()
        ]
    );
}

#[test]
fn reorder_counts_characters() {
    let ordered = reorder_group(vec![member("/d/abcd.tx"), member("/d/\u{e9}\u{e9}.txt")]);
    assert_eq!(
        paths(&ordered),
        vec!["/d/\u{e9}\u{e9}.txt".to_string(), "/d/abcd.tx".to_string()]
    );
}

#[test]
fn reorder_of_small_groups() {
    assert!(reorder_group(Vec::new()).is_empty());
    assert_eq!(paths(&reorder_group(vec![member("/only")])), vec!["/only".to_string()]);
}

#[test]
fn reorder_is_the_same_for_every_arrival_order() {
    let names = ["/a", "/bb", "/ccc", "/dddd"];
    let orders: [[usize; 4]; 4] = [[0, 1, 2, 3], [3, 2, 1, 0], [2, 0, 3, 1], [1, 3, 0, 2]];
    for order in orders.iter() {
        let arrived: Vec<HashedSample> = order.iter().map(|&i| member(names[i])).collect();
        let ordered = reorder_group(arrived);
        assert_eq!(ordered[0].sample.file_info.file, "/a");
        assert_eq!(
            paths(&ordered),
            vec!["/a".to_string(), "/bb".to_string(), "/ccc".to_string(), "/dddd".to_string()]
        );
    }
}

#[test]
fn reorder_keeps_the_members_whole() {
    let ordered = reorder_group(vec![member("/long/path"), member("/p")]);
    assert_eq!(ordered.len(), 2);
    assert_eq!(ordered[0].sample.bytes, b"hello".to_vec());
    assert_eq!(ordered[1].sample.file_info.size, 5);
    assert_eq!(ordered[1].hash, ordered[0].hash);
}

#[test]
fn moves_name_the_targets_in_base64() {
    let duplicates = vec![group(&["/data/a/copy.txt", "/data/b.txt", "/data/deeper/down/c.txt"])];
    let moves = move_duplicates(&duplicates);
    assert_eq!(moves.len(), 2);
    assert_eq!(moves[0].source, "/data/a/copy.txt");
    assert_eq!(moves[0].target_name, "L2RhdGEvYS9jb3B5LnR4dA==");
    assert_eq!(moves[1].source, "/data/deeper/down/c.txt");
    assert_eq!(moves[1].target_name, "L2RhdGEvZGVlcGVyL2Rvd24vYy50eHQ=");
}

#[test]
fn moves_encode_the_bytes_of_the_path() {
    let duplicates = vec![group(&["/k", "/d/\u{e9}.txt"])];
    let moves = move_duplicates(&duplicates);
    assert_eq!(moves.len(), 1);
    assert_eq!(moves[0].source, "/d/\u{e9}.txt");
    assert_eq!(moves[0].target_name, "L2Qvw6kudHh0");
}

#[test]
fn moves_go_group_after_group() {
    let duplicates = vec![
        group(&["/scan/sub/dir/file.bin", "/scan/s/file.bin"]),
        group(&["a", "abc", "ab"]),
        group(&["/tmp/x/B"]),
        group(&[]),
    ];
    let moves = move_duplicates(&duplicates);
    let sources: Vec<&str> = moves.iter().map(|one| one.source.as_str()).collect();
    assert_eq!(sources, vec!["/scan/sub/dir/file.bin", "ab", "abc"]);
    let targets: Vec<&str> = moves.iter().map(|one| one.target_name.as_str()).collect();
    assert_eq!(targets, vec!["L3NjYW4vc3ViL2Rpci9maWxlLmJpbg==", "YWI=", "YWJj"]);
}

#[test]
fn moves_leave_the_groups_as_they_are() {
    let duplicates = vec![group(&["/bb", "/a"])];
    let _ = move_duplicates(&duplicates);
    assert_eq!(paths(&duplicates[0].item), vec!["/bb".to_string(), "/a".to_string()]);
}

#[test]
fn report_names_the_file_to_keep() {
    let duplicates = vec![
        group(&["/data/a/copy.txt", "/data/b.txt", "/data/deeper/down/c.txt"]),
        group(&["/x/1", "/y/2"]),
    ];
    let reports = report_duplicates(&duplicates);
    assert_eq!(reports.len(), 2);
    assert_eq!(reports[0].keep, "/data/b.txt");
    assert_eq!(
        reports[0].to_move,
        vec!["/data/a/copy.txt".to_string(), "/data/deeper/down/c.txt".to_string()]
    );
    assert_eq!(reports[1].keep, "/x/1");
    assert_eq!(reports[1].to_move, vec!["/y/2".to_string()]);
}

#[test]
fn report_of_no_groups_is_empty() {
    assert!(report_duplicates(&Vec::new()).is_empty());
}

#[test]
fn apply_on_no_groups_does_nothing() {
    let processor = DeduplicatorResultProcessor::new(Vec::new());
    assert!(matches!(processor.apply(ActionInput::from(Action::Report, None)), ActionPlan::Nothing));
    let to_folder = ActionInput::from(Action::Move, Some("/q".to_string()));
    assert!(matches!(processor.apply(to_folder), ActionPlan::Nothing));
}

#[test]
fn apply_report_lays_out_the_report() {
    let processor = DeduplicatorResultProcessor::new(vec![group(&["/long/one", "/two"])]);
    match processor.apply(ActionInput::from(Action::Report, None)) {
        ActionPlan::Report { groups } => {
            assert_eq!(groups.len(), 1);
            assert_eq!(groups[0].keep, "/two");
            assert_eq!(groups[0].to_move, vec!["/long/one".to_string()]);
        }
        _ => panic!("a report was asked for"),
    }
}

#[test]
fn apply_move_lays_out_the_moves() {
    let processor = DeduplicatorResultProcessor::new(vec![group(&["/tmp/x/B", "/b"])]);
    match processor.apply(ActionInput::from(Action::Move, Some("/quarantine".to_string()))) {
        ActionPlan::Move { destination_folder, moves } => {
            assert_eq!(destination_folder, "/quarantine");
            assert_eq!(moves.len(), 1);
            assert_eq!(moves[0].source, "/tmp/x/B");
            assert_eq!(moves[0].target_name, "L3RtcC94L0I=");
        }
        _ => panic!("a move was asked for"),
    }
}

#[test]
fn applicable_actions() {
    let processor = DeduplicatorResultProcessor::new(vec![group(&["/a", "/bb"]), group(&[])]);
    assert!(!processor.is_applicable(&ActionInput::from(Action::Report, None)));
    assert!(processor.is_applicable(&ActionInput::from(Action::Move, Some("/q".to_string()))));
    let whole = DeduplicatorResultProcessor::new(vec![group(&["/a", "/bb"])]);
    assert!(whole.is_applicable(&ActionInput::from(Action::Report, None)));
    assert!(whole.is_applicable(&ActionInput::from(Action::Move, Some("/q".to_string()))));
}

#[test]
fn new_takes_the_groups_as_they_are() {
    let processor = DeduplicatorResultProcessor::new(vec![group(&["/bb", "/a"]), group(&["/c", "/d"])]);
    assert_eq!(processor.duplicates.len(), 2);
    assert_eq!(paths(&processor.duplicates[0].item), vec!["/bb".to_string(), "/a".to_string()]);
}

#[test]
fn listen_step_collects_until_the_sentinel() {
    let mut collected = Vec::new();
    assert!(listen_step(&mut collected, Received::Group(group(&["/a", "/b"]))));
    assert!(listen_step(&mut collected, Received::Group(group(&["/c", "/d"]))));
    assert_eq!(collected.len(), 2);
    assert!(!listen_step(&mut collected, Received::Sentinel));
    assert_eq!(collected.len(), 2);
    assert_eq!(paths(&collected[0].item), vec!["/a".to_string(), "/b".to_string()]);
    assert_eq!(paths(&collected[1].item), vec!["/c".to_string(), "/d".to_string()]);
}

#[test]
fn listen_step_discards_on_a_broken_stream() {
    let mut collected = Vec::new();
    assert!(listen_step(&mut collected, Received::Group(group(&["/a", "/b"]))));
    assert!(!listen_step(&mut collected, Received::Closed));
    assert!(collected.is_empty());
}

#[test]
fn listen_gives_the_groups_before_the_sentinel() {
    let stream = vec![
        Received::Group(group(&["/a", "/b"])),
        Received::Group(group(&["/c", "/d"])),
        Received::Sentinel,
    ];
    let collected = listen(stream);
    assert_eq!(collected.len(), 2);
    assert_eq!(paths(&collected[0].item), vec!["/a".to_string(), "/b".to_string()]);
    assert_eq!(paths(&collected[1].item), vec!["/c".to_string(), "/d".to_string()]);
}

#[test]
fn listen_stops_at_the_sentinel() {
    let stream = vec![
        Received::Group(group(&["/a", "/b"])),
        Received::Sentinel,
        Received::Group(group(&["/late", "/later"])),
        Received::Closed,
    ];
    let collected = listen(stream);
    assert_eq!(collected.len(), 1);
    assert_eq!(paths(&collected[0].item), vec!["/a".to_string(), "/b".to_string()]);
}

#[test]
fn listen_discards_what_a_broken_stream_gave() {
    let broken = vec![Received::Group(group(&["/a", "/b"])), Received::Closed, Received::Sentinel];
    assert!(listen(broken).is_empty());
    let cut_short = vec![Received::Group(group(&["/a", "/b"]))];
    assert!(listen(cut_short).is_empty());
}

#[test]
fn listen_to_an_empty_run() {
    assert!(listen(vec![Received::Sentinel]).is_empty());
    assert!(listen(Vec::new()).is_empty());
}
