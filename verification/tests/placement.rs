use folder_splitter::assign::split_by_file_count;
use folder_splitter::entry::{DirectoryEntry, SplitMode};
use folder_splitter::place::{Action, PlacementError, PlacementRun};

fn entry(name: &str) -> DirectoryEntry {
    DirectoryEntry {
        name: name.to_string(),
        is_directory: false,
        size_bytes: 1,
        created: 0,
        accessed: 0,
        modified: 0,
    }
}

fn three_buckets() -> PlacementRun {
    let entries: Vec<DirectoryEntry> = (0..5).map(|i| entry(&format!("f{}", i))).collect();
    let buckets = split_by_file_count(&entries, "", 2).unwrap();
    PlacementRun::new(buckets, SplitMode::Move)
}

#[test]
fn run_walks_buckets_in_order() {
    let mut run = three_buckets();
    let mut created: Vec<usize> = Vec::new();
    let mut transferred: Vec<(usize, usize)> = Vec::new();
    loop {
        match run.next_action() {
            Action::CreateDir { bucket } => {
                created.push(bucket);
                run.note_dir_created();
            }
            Action::Transfer { bucket, entry, copy } => {
                assert!(!copy);
                transferred.push((bucket, entry));
                run.note_transfer_done();
            }
            Action::Finished => break,
        }
    }
    assert_eq!(created, vec![0, 1, 2]);
    assert_eq!(transferred, vec![(0, 0), (0, 1), (1, 0), (1, 1), (2, 0)]);
    let report = run.report();
    assert!(report.failure.is_none());
    assert_eq!(report.completed, vec![(0, 0), (0, 1), (1, 0), (1, 1), (2, 0)]);
}

#[test]
fn existing_destination_aborts_before_anything_happens() {
    let mut run = three_buckets();
    assert_eq!(run.next_action(), Action::CreateDir { bucket: 0 });
    run.note_dir_exists();
    assert_eq!(run.next_action(), Action::Finished);
    let report = run.report();
    assert_eq!(report.failure, Some(PlacementError::DestinationExists { bucket: 0 }));
    assert_eq!(report.completed, Vec::<(usize, usize)>::new());
}

#[test]
fn transfer_failure_keeps_earlier_progress_and_stops() {
    let mut run = three_buckets();
    run.note_dir_created();
    run.note_transfer_done();
    run.note_transfer_done();
    run.note_dir_created();
    assert_eq!(run.next_action(), Action::Transfer { bucket: 1, entry: 0, copy: false });
    run.note_transfer_failed();
    assert_eq!(run.next_action(), Action::Finished);
    let report = run.report();
    assert_eq!(report.failure, Some(PlacementError::TransferFailed { bucket: 1, entry: 0 }));
    assert_eq!(report.completed, vec![(0, 0), (0, 1)]);
}

#[test]
fn copy_mode_only_issues_copies() {
    let entries = vec![entry("a"), entry("b"), entry("c")];
    let buckets = split_by_file_count(&entries, "", 2).unwrap();
    let mut run = PlacementRun::new(buckets, SplitMode::Copy);
    loop {
        match run.next_action() {
            Action::CreateDir { .. } => run.note_dir_created(),
            Action::Transfer { copy, .. } => {
                assert!(copy);
                run.note_transfer_done();
            }
            Action::Finished => break,
        }
    }
    assert_eq!(run.report().completed.len(), 3);
}

#[test]
fn empty_assignment_finishes_at_once() {
    let mut run = PlacementRun::new(Vec::new(), SplitMode::Move);
    assert_eq!(run.next_action(), Action::Finished);
    let report = run.report();
    assert!(report.failure.is_none());
    assert_eq!(report.completed.len(), 0);
}
