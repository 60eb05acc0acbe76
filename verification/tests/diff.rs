use fhistory::checksum::ChecksumFunction;
use fhistory::index::{IndexFileInfo, IndexSnapshot};
use fhistory::index_diff::{
    compare_finfo, diff, display_order, filter_by_paths, list_files, IndexDiff,
};

const D1: &str = "1111111111111111";
const D2: &str = "2222222222222222";
const T: i64 = 1_600_000_000_000_000;

fn info(size: u64, time: Option<i64>, digest: Option<&str>) -> IndexFileInfo {
    IndexFileInfo {
        size_bytes: size,
        modified_timestamp_us: time,
        checksum: digest.map(|d| d.to_owned()),
    }
}

fn snapshot(files: &[(&str, IndexFileInfo)]) -> IndexSnapshot {
    let mut s = IndexSnapshot::new(ChecksumFunction::SHA256);
    for (path, record) in files {
        s.update(path, record);
    }
    s
}

fn created(file: &str) -> IndexDiff {
    IndexDiff::Created { file: file.to_owned() }
}

fn deleted(file: &str) -> IndexDiff {
    IndexDiff::Deleted { file: file.to_owned() }
}

fn modified(file: &str) -> IndexDiff {
    IndexDiff::Modified { file: file.to_owned() }
}

fn metadata_modified(file: &str) -> IndexDiff {
    IndexDiff::MetadataModified { file: file.to_owned() }
}

fn renamed(from: &str, to: &str) -> IndexDiff {
    IndexDiff::Renamed { from: from.to_owned(), to: to.to_owned() }
}

#[test]
fn a_snapshot_does_not_differ_from_itself() {
    let s = snapshot(&[
        ("a", info(1, Some(T), Some(D1))),
        ("b", info(2, None, Some(D2))),
        ("c", info(3, Some(T), None)),
        ("d", info(4, None, None)),
    ]);
    assert_eq!(diff(&s, &s), vec![]);
    let empty = snapshot(&[]);
    assert_eq!(diff(&empty, &empty), vec![]);
    assert_eq!(diff(&s, &s.clone()), vec![]);
}

#[test]
fn a_moved_file_is_a_rename() {
    let target = snapshot(&[("a.txt", info(10, Some(T), Some(D1)))]);
    let actual = snapshot(&[("b.txt", info(10, Some(T), Some(D1)))]);
    assert_eq!(diff(&target, &actual), vec![renamed("a.txt", "b.txt")]);
}

#[test]
fn another_time_is_a_change_of_metadata() {
    let target = snapshot(&[("f", info(10, Some(T), Some(D1)))]);
    let actual = snapshot(&[("f", info(10, Some(T + 1), Some(D1)))]);
    assert_eq!(diff(&target, &actual), vec![metadata_modified("f")]);
}

#[test]
fn another_digest_is_a_modification() {
    let target = snapshot(&[("f", info(10, Some(T), Some(D1)))]);
    let actual = snapshot(&[("f", info(10, Some(T), Some(D2)))]);
    assert_eq!(diff(&target, &actual), vec![modified("f")]);
}

#[test]
fn another_size_is_a_modification() {
    let target = snapshot(&[("f", info(10, Some(T), Some(D1)))]);
    let actual = snapshot(&[("f", info(11, Some(T), Some(D1)))]);
    assert_eq!(diff(&target, &actual), vec![modified("f")]);
}

#[test]
fn another_time_comes_before_size_and_digest() {
    let target = snapshot(&[("f", info(10, Some(T), Some(D1)))]);
    let actual = snapshot(&[("f", info(11, Some(T + 1), Some(D2)))]);
    assert_eq!(diff(&target, &actual), vec![metadata_modified("f")]);
    let absent = snapshot(&[("f", info(10, None, Some(D1)))]);
    assert_eq!(diff(&target, &absent), vec![metadata_modified("f")]);
}

#[test]
fn a_record_without_digest_is_compared_by_metadata() {
    let target = snapshot(&[("f", info(10, Some(T), Some(D1)))]);
    let actual = snapshot(&[("f", info(10, Some(T), None))]);
    assert_eq!(diff(&target, &actual), vec![]);
    assert_eq!(diff(&actual, &target), vec![modified("f")]);
}

#[test]
fn compare_finfo_names_the_change() {
    let path = "p".to_owned();
    let base = info(10, Some(T), Some(D1));
    assert_eq!(compare_finfo(&path, &base, &info(10, Some(T), Some(D1))), None);
    assert_eq!(compare_finfo(&path, &base, &info(10, Some(T), None)), None);
    assert_eq!(compare_finfo(&path, &base, &info(10, None, Some(D1))), Some(metadata_modified("p")));
    assert_eq!(compare_finfo(&path, &base, &info(9, Some(T), Some(D1))), Some(modified("p")));
    assert_eq!(compare_finfo(&path, &base, &info(10, Some(T), Some(D2))), Some(modified("p")));
    assert_eq!(compare_finfo(&path, &base, &info(9, Some(1), Some(D2))), Some(metadata_modified("p")));
}

#[test]
fn created_and_deleted_files() {
    let target = snapshot(&[("gone", info(1, Some(T), Some(D1))), ("kept", info(2, Some(T), Some(D2)))]);
    let actual = snapshot(&[("kept", info(2, Some(T), Some(D2))), ("new", info(3, Some(T), Some("33")))]);
    assert_eq!(diff(&target, &actual), vec![deleted("gone"), created("new")]);
    let empty = snapshot(&[]);
    assert_eq!(diff(&empty, &actual), vec![created("kept"), created("new")]);
    assert_eq!(diff(&target, &empty), vec![deleted("gone"), deleted("kept")]);
}

#[test]
fn changes_come_by_path_target_first() {
    let target = snapshot(&[
        ("a", info(1, Some(T), Some("a1"))),
        ("c", info(1, Some(T), Some("c1"))),
        ("e", info(1, Some(T), Some("e1"))),
        ("g", info(1, Some(T), Some("g1"))),
    ]);
    let actual = snapshot(&[
        ("b", info(1, Some(T), Some("b1"))),
        ("c", info(2, Some(T), Some("c1"))),
        ("f", info(1, Some(T), Some("a1"))),
        ("g", info(1, Some(T + 5), Some("g1"))),
        ("h", info(1, Some(T), Some("h1"))),
    ]);
    assert_eq!(
        diff(&target, &actual),
        vec![
            modified("c"),
            deleted("e"),
            metadata_modified("g"),
            created("b"),
            renamed("a", "f"),
            created("h")
        ]
    );
}

#[test]
fn a_rename_needs_the_same_size_and_time() {
    let target = snapshot(&[("a", info(10, Some(T), Some(D1)))]);
    let other_size = snapshot(&[("b", info(11, Some(T), Some(D1)))]);
    assert_eq!(diff(&target, &other_size), vec![deleted("a"), created("b")]);
    let other_time = snapshot(&[("b", info(10, Some(T + 1), Some(D1)))]);
    assert_eq!(diff(&target, &other_time), vec![deleted("a"), created("b")]);
    let other_digest = snapshot(&[("b", info(10, Some(T), Some(D2)))]);
    assert_eq!(diff(&target, &other_digest), vec![deleted("a"), created("b")]);
    let no_time = snapshot(&[("a", info(10, None, Some(D1)))]);
    let moved = snapshot(&[("b", info(10, None, Some(D1)))]);
    assert_eq!(diff(&no_time, &moved), vec![renamed("a", "b")]);
}

#[test]
fn a_rename_needs_digests() {
    let target = snapshot(&[("a", info(10, Some(T), None))]);
    let actual = snapshot(&[("b", info(10, Some(T), None))]);
    assert_eq!(diff(&target, &actual), vec![deleted("a"), created("b")]);
    let with = snapshot(&[("b", info(10, Some(T), Some(D1)))]);
    assert_eq!(diff(&target, &with), vec![deleted("a"), created("b")]);
    let target_with = snapshot(&[("a", info(10, Some(T), Some(D1)))]);
    assert_eq!(diff(&target_with, &actual), vec![deleted("a"), created("b")]);
}

#[test]
fn of_two_candidates_the_smaller_path_is_renamed() {
    let target = snapshot(&[
        ("m/two", info(10, Some(T), Some(D1))),
        ("m/one", info(10, Some(T), Some(D1))),
        ("z", info(10, Some(T), Some(D1))),
    ]);
    let actual = snapshot(&[("new", info(10, Some(T), Some(D1)))]);
    assert_eq!(
        diff(&target, &actual),
        vec![deleted("m/two"), deleted("z"), renamed("m/one", "new")]
    );
}

#[test]
fn a_deleted_file_is_the_source_of_one_rename_only() {
    let target = snapshot(&[("old", info(10, Some(T), Some(D1)))]);
    let actual = snapshot(&[
        ("copy1", info(10, Some(T), Some(D1))),
        ("copy2", info(10, Some(T), Some(D1))),
    ]);
    assert_eq!(diff(&target, &actual), vec![renamed("old", "copy1"), created("copy2")]);
}

#[test]
fn candidates_are_taken_in_turn() {
    let target = snapshot(&[
        ("a1", info(10, Some(T), Some(D1))),
        ("a2", info(10, Some(T), Some(D1))),
        ("a3", info(10, Some(T), Some(D1))),
    ]);
    let actual = snapshot(&[
        ("b1", info(10, Some(T), Some(D1))),
        ("b2", info(10, Some(T), Some(D1))),
    ]);
    assert_eq!(
        diff(&target, &actual),
        vec![deleted("a3"), renamed("a1", "b1"), renamed("a2", "b2")]
    );
}

#[test]
fn a_file_that_is_still_there_is_no_source_of_a_rename() {
    let target = snapshot(&[("a", info(10, Some(T), Some(D1)))]);
    let actual = snapshot(&[("a", info(10, Some(T), Some(D1))), ("b", info(10, Some(T), Some(D1)))]);
    assert_eq!(diff(&target, &actual), vec![created("b")]);
}

#[test]
fn list_files_gives_the_path_of_each_change() {
    let changes = vec![
        created("c"),
        renamed("from", "to"),
        deleted("d"),
        modified("m"),
        metadata_modified("mm"),
    ];
    assert_eq!(list_files(&changes), vec!["c", "from", "d", "m", "mm"]);
    assert_eq!(list_files(&Vec::new()), Vec::<String>::new());
}

#[test]
fn filter_keeps_changes_under_the_prefixes() {
    let changes = vec![
        created("src/a"),
        renamed("doc/old", "src/new"),
        renamed("src/old", "doc/new"),
        deleted("srcx/d"),
        modified("doc/m"),
        metadata_modified("src"),
        created("other"),
    ];
    assert_eq!(
        filter_by_paths(&changes, &vec!["src".to_owned()]),
        vec![created("src/a"), renamed("src/old", "doc/new"), metadata_modified("src")]
    );
    assert_eq!(
        filter_by_paths(&changes, &vec!["doc".to_owned(), "other".to_owned()]),
        vec![renamed("doc/old", "src/new"), modified("doc/m"), created("other")]
    );
    assert_eq!(filter_by_paths(&changes, &Vec::new()), vec![]);
    assert_eq!(filter_by_paths(&changes, &vec![String::new()]), changes);
}

#[test]
fn display_order_is_by_kind_then_path() {
    let changes = vec![
        created("b"),
        modified("z"),
        renamed("r2", "x"),
        deleted("d2"),
        metadata_modified("m"),
        created("a"),
        deleted("d1"),
        renamed("r1", "y"),
        modified("a"),
    ];
    assert_eq!(
        display_order(&changes),
        vec![
            deleted("d1"),
            deleted("d2"),
            modified("a"),
            metadata_modified("m"),
            modified("z"),
            renamed("r1", "y"),
            renamed("r2", "x"),
            created("a"),
            created("b"),
        ]
    );
    assert_eq!(display_order(&Vec::new()), vec![]);
}

#[test]
fn display_order_keeps_the_order_of_equals() {
    let changes = vec![renamed("r", "second"), modified("f"), renamed("r", "first"), metadata_modified("f")];
    assert_eq!(
        display_order(&changes),
        vec![modified("f"), metadata_modified("f"), renamed("r", "second"), renamed("r", "first")]
    );
}
