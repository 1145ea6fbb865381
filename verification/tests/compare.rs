use directory_capture::capture::{capture_at, Observation};
use directory_capture::compare::run_compare;
use directory_capture::diff::{classify, diff, first_row, recorded_metadata, DiffEntry};
use directory_capture::error::ErrorKind;
use directory_capture::index::{capture_events, find_dates, latest_before};
use directory_capture::model::{FileMetadata, SnapshotRow, Status};
use directory_capture::path_table::PathEntry;
use directory_capture::store::Store;

fn p(s: &str) -> Vec<u8> {
    s.as_bytes().to_vec()
}

fn file(path: &str, modified: u64, size: u64) -> Observation {
    Observation::File { path: p(path), modified, size }
}

fn row(path_id: i64, modified: i64, size: i64, capture_event: i64) -> SnapshotRow {
    SnapshotRow { path_id, metadata: FileMetadata { modified, size }, capture_event }
}

fn meta(modified: i64, size: i64) -> Option<FileMetadata> {
    Some(FileMetadata { modified, size })
}

fn lines(entries: &Vec<DiffEntry>) -> Vec<(String, Status)> {
    entries
        .iter()
        .map(|e| (String::from_utf8(e.path.clone()).unwrap(), e.status))
        .collect()
}

fn line(path: &str, status: Status) -> (String, Status) {
    (path.to_string(), status)
}

#[test]
fn changed_deleted_and_new_files_are_told_apart() {
    let mut store = Store::new();
    capture_at(&mut store, 1, &vec![file("a.txt", 100, 10), file("b.txt", 200, 20)]).unwrap();
    capture_at(&mut store, 2, &vec![file("a.txt", 100, 15), file("c.txt", 300, 5)]).unwrap();
    let entries = diff(&store, 1, 2).unwrap();
    let mut got = lines(&entries);
    got.sort_by(|x, y| x.0.cmp(&y.0));
    assert_eq!(
        got,
        vec![
            line("a.txt", Status::Changed),
            line("b.txt", Status::Deleted),
            line("c.txt", Status::New),
        ]
    );
}

#[test]
fn diff_lists_the_newer_capture_first_and_the_deleted_paths_last() {
    let mut store = Store::new();
    capture_at(&mut store, 1, &vec![file("a.txt", 100, 10), file("b.txt", 200, 20)]).unwrap();
    capture_at(&mut store, 2, &vec![file("c.txt", 300, 5), file("a.txt", 100, 15)]).unwrap();
    assert_eq!(
        lines(&diff(&store, 1, 2).unwrap()),
        vec![
            line("c.txt", Status::New),
            line("a.txt", Status::Changed),
            line("b.txt", Status::Deleted),
        ]
    );
}

#[test]
fn unchanged_directory_is_all_same() {
    let mut store = Store::new();
    let tree = vec![
        file("a", 100, 10),
        Observation::NotRegularFile,
        file("b", 200, 0),
        Observation::WalkError,
        file("c", 0, i64::MAX as u64),
    ];
    capture_at(&mut store, 10, &tree).unwrap();
    capture_at(&mut store, 11, &tree).unwrap();
    let entries = diff(&store, 10, 11).unwrap();
    assert_eq!(entries.len(), 3);
    assert!(entries.iter().all(|e| e.status == Status::Same));
}

#[test]
fn file_only_in_the_newer_capture_is_new() {
    let mut store = Store::new();
    capture_at(&mut store, 1, &vec![file("kept", 1, 1)]).unwrap();
    capture_at(&mut store, 2, &vec![file("kept", 1, 1), file("fresh", 2, 2)]).unwrap();
    assert_eq!(
        lines(&diff(&store, 1, 2).unwrap()),
        vec![line("kept", Status::Same), line("fresh", Status::New)]
    );
}

#[test]
fn file_only_in_the_older_capture_is_deleted() {
    let mut store = Store::new();
    capture_at(&mut store, 1, &vec![file("kept", 1, 1), file("gone", 2, 2)]).unwrap();
    capture_at(&mut store, 2, &vec![file("kept", 1, 1)]).unwrap();
    assert_eq!(
        lines(&diff(&store, 1, 2).unwrap()),
        vec![line("kept", Status::Same), line("gone", Status::Deleted)]
    );
}

#[test]
fn swapping_the_captures_swaps_new_and_deleted() {
    let mut store = Store::new();
    capture_at(&mut store, 1, &vec![file("kept", 1, 1), file("gone", 2, 2)]).unwrap();
    capture_at(&mut store, 2, &vec![file("kept", 1, 1)]).unwrap();
    assert_eq!(
        lines(&diff(&store, 2, 1).unwrap()),
        vec![line("kept", Status::Same), line("gone", Status::New)]
    );
}

#[test]
fn removed_file_is_deleted_in_the_next_comparison() {
    let mut store = Store::new();
    capture_at(&mut store, 1, &vec![file("f", 5, 5)]).unwrap();
    capture_at(&mut store, 2, &vec![file("f", 5, 5), file("g", 6, 6)]).unwrap();
    assert_eq!(
        lines(&run_compare(&store).unwrap().entries),
        vec![line("f", Status::Same), line("g", Status::New)]
    );
    capture_at(&mut store, 3, &vec![file("f", 5, 5)]).unwrap();
    let again = run_compare(&store).unwrap();
    assert_eq!((again.older, again.newer), (2, 3));
    assert_eq!(
        lines(&again.entries),
        vec![line("f", Status::Same), line("g", Status::Deleted)]
    );
}

#[test]
fn change_of_time_alone_or_size_alone_is_a_change() {
    let mut store = Store::new();
    capture_at(&mut store, 1, &vec![file("t", 5, 5), file("s", 5, 5), file("both", 5, 5)]).unwrap();
    capture_at(&mut store, 2, &vec![file("t", 6, 5), file("s", 5, 4), file("both", 0, 0)]).unwrap();
    assert_eq!(
        lines(&diff(&store, 1, 2).unwrap()),
        vec![
            line("t", Status::Changed),
            line("s", Status::Changed),
            line("both", Status::Changed),
        ]
    );
}

#[test]
fn classify_tells_same_from_changed() {
    assert_eq!(classify(meta(100, 10), meta(100, 10)), Some(Status::Same));
    assert_eq!(classify(meta(100, 10), meta(100, 15)), Some(Status::Changed));
    assert_eq!(classify(meta(100, 10), meta(101, 10)), Some(Status::Changed));
    assert_eq!(classify(meta(100, 10), meta(10, 100)), Some(Status::Changed));
}

#[test]
fn classify_at_zero_and_at_the_largest_values() {
    assert_eq!(classify(meta(0, 0), meta(0, 0)), Some(Status::Same));
    assert_eq!(classify(meta(i64::MAX, i64::MAX), meta(i64::MAX, i64::MAX)), Some(Status::Same));
    assert_eq!(classify(meta(0, i64::MAX), meta(0, i64::MAX - 1)), Some(Status::Changed));
    assert_eq!(classify(meta(i64::MAX, 0), meta(i64::MAX - 1, 0)), Some(Status::Changed));
    assert_eq!(classify(meta(0, 0), meta(0, i64::MAX)), Some(Status::Changed));
    assert_eq!(classify(meta(0, 0), meta(i64::MAX, 0)), Some(Status::Changed));
}

#[test]
fn classify_tells_new_from_deleted() {
    assert_eq!(classify(None, meta(1, 1)), Some(Status::New));
    assert_eq!(classify(meta(1, 1), None), Some(Status::Deleted));
    assert_eq!(classify(None, None), None);
}

#[test]
fn diff_of_a_capture_with_itself_is_all_same() {
    let mut store = Store::new();
    capture_at(&mut store, 1, &vec![file("a", 1, 1), file("b", 2, 2)]).unwrap();
    assert_eq!(
        lines(&diff(&store, 1, 1).unwrap()),
        vec![line("a", Status::Same), line("b", Status::Same)]
    );
}

#[test]
fn diff_of_captures_that_do_not_exist_is_empty() {
    let mut store = Store::new();
    capture_at(&mut store, 1, &vec![file("a", 1, 1)]).unwrap();
    assert!(diff(&store, 5, 6).unwrap().is_empty());
    assert_eq!(lines(&diff(&store, 5, 1).unwrap()), vec![line("a", Status::New)]);
    assert_eq!(lines(&diff(&store, 1, 5).unwrap()), vec![line("a", Status::Deleted)]);
}

#[test]
fn diff_ignores_captures_other_than_the_two() {
    let mut store = Store::new();
    capture_at(&mut store, 1, &vec![file("old", 1, 1), file("a", 1, 1)]).unwrap();
    capture_at(&mut store, 2, &vec![file("a", 2, 2)]).unwrap();
    capture_at(&mut store, 3, &vec![file("a", 2, 2), file("b", 1, 1)]).unwrap();
    assert_eq!(
        lines(&diff(&store, 2, 3).unwrap()),
        vec![line("a", Status::Same), line("b", Status::New)]
    );
}

#[test]
fn diff_reports_a_path_once_and_by_its_first_row() {
    let mut store = Store::new();
    capture_at(&mut store, 1, &vec![file("a", 1, 1), file("a", 9, 9)]).unwrap();
    capture_at(&mut store, 2, &vec![file("a", 1, 1), file("a", 5, 5)]).unwrap();
    assert_eq!(lines(&diff(&store, 1, 2).unwrap()), vec![line("a", Status::Same)]);
}

#[test]
fn diff_fails_on_an_id_without_a_path() {
    let store = Store::load(
        vec![PathEntry { id: 1, path: p("a") }],
        vec![row(1, 1, 1, 10), row(1, 1, 1, 20), row(2, 1, 1, 20)],
    )
    .unwrap();
    assert_eq!(diff(&store, 10, 20).err(), Some(ErrorKind::DatabaseState));
    assert_eq!(run_compare(&store).err(), Some(ErrorKind::DatabaseState));
}

#[test]
fn diff_fails_on_a_deleted_id_without_a_path() {
    let store = Store::load(
        vec![PathEntry { id: 1, path: p("a") }],
        vec![row(1, 1, 1, 10), row(0, 1, 1, 10), row(1, 1, 1, 20)],
    )
    .unwrap();
    assert_eq!(diff(&store, 10, 20).err(), Some(ErrorKind::DatabaseState));
    // Rows of other captures are not looked at.
    assert_eq!(lines(&diff(&store, 20, 30).unwrap()), vec![line("a", Status::Deleted)]);
}

#[test]
fn first_row_and_recorded_metadata_find_the_first_match() {
    let rows = vec![row(1, 1, 1, 10), row(2, 2, 2, 10), row(1, 3, 3, 20), row(1, 4, 4, 20)];
    assert_eq!(first_row(&rows, 20, 1, 4), Some(2));
    assert_eq!(first_row(&rows, 20, 1, 2), None);
    assert_eq!(first_row(&rows, 10, 2, 4), Some(1));
    assert_eq!(first_row(&rows, 20, 2, 4), None);
    assert_eq!(recorded_metadata(&rows, 20, 1), meta(3, 3));
    assert_eq!(recorded_metadata(&rows, 10, 1), meta(1, 1));
    assert_eq!(recorded_metadata(&rows, 30, 1), None);
}

#[test]
fn find_dates_needs_two_captures() {
    let mut store = Store::new();
    assert_eq!(find_dates(&store), Err(ErrorKind::NotEnoughHistory));
    assert_eq!(run_compare(&store).err(), Some(ErrorKind::NotEnoughHistory));
    capture_at(&mut store, 10, &vec![file("a", 1, 1), file("b", 1, 1)]).unwrap();
    assert_eq!(find_dates(&store), Err(ErrorKind::NotEnoughHistory));
    assert_eq!(run_compare(&store).err(), Some(ErrorKind::NotEnoughHistory));
    capture_at(&mut store, 20, &vec![file("a", 1, 1)]).unwrap();
    assert_eq!(find_dates(&store), Ok((10, 20)));
}

#[test]
fn find_dates_takes_the_two_latest() {
    let mut store = Store::new();
    for event in [30, 10, 40, 20] {
        capture_at(&mut store, event, &vec![file("a", 1, 1), file("b", 1, 1)]).unwrap();
    }
    assert_eq!(find_dates(&store), Ok((30, 40)));
}

#[test]
fn capture_without_rows_is_no_capture() {
    let mut store = Store::new();
    capture_at(&mut store, 10, &vec![file("a", 1, 1)]).unwrap();
    capture_at(&mut store, 20, &vec![Observation::NotRegularFile]).unwrap();
    assert_eq!(find_dates(&store), Err(ErrorKind::NotEnoughHistory));
}

#[test]
fn latest_before_respects_the_bound() {
    let rows = vec![row(1, 1, 1, 10), row(1, 1, 1, 30), row(1, 1, 1, 20), row(2, 1, 1, 30)];
    assert_eq!(latest_before(&rows, None), Some(30));
    assert_eq!(latest_before(&rows, Some(30)), Some(20));
    assert_eq!(latest_before(&rows, Some(20)), Some(10));
    assert_eq!(latest_before(&rows, Some(10)), None);
    assert_eq!(latest_before(&rows, Some(i64::MIN)), None);
    assert_eq!(latest_before(&Vec::new(), None), None);
}

#[test]
fn capture_events_lists_each_capture_once_latest_first() {
    let mut store = Store::new();
    assert!(capture_events(&store).is_empty());
    for event in [30, 10, 40, 20] {
        capture_at(&mut store, event, &vec![file("a", 1, 1), file("b", 1, 1)]).unwrap();
    }
    assert_eq!(capture_events(&store), vec![40, 30, 20, 10]);
}

#[test]
fn capture_events_copes_with_the_extremes() {
    let store = Store::load(
        Vec::new(),
        vec![row(1, 0, 0, i64::MIN), row(1, 0, 0, i64::MAX), row(1, 0, 0, 0), row(1, 0, 0, i64::MIN)],
    )
    .unwrap();
    assert_eq!(capture_events(&store), vec![i64::MAX, 0, i64::MIN]);
    assert_eq!(find_dates(&store), Ok((0, i64::MAX)));
}

#[test]
fn run_compare_names_the_captures_it_compared() {
    let mut store = Store::new();
    capture_at(&mut store, 100, &vec![file("a.txt", 100, 10), file("b.txt", 200, 20)]).unwrap();
    capture_at(&mut store, 200, &vec![file("a.txt", 100, 15), file("c.txt", 300, 5)]).unwrap();
    let comparison = run_compare(&store).unwrap();
    assert_eq!(comparison.older, 100);
    assert_eq!(comparison.newer, 200);
    assert_eq!(
        lines(&comparison.entries),
        vec![
            line("a.txt", Status::Changed),
            line("c.txt", Status::New),
            line("b.txt", Status::Deleted),
        ]
    );
}
