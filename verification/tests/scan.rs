use fhistory::checksum::{compute, ChecksumFunction};
use fhistory::index::{IndexFileInfo, IndexSnapshot};
use fhistory::index_diff::{diff, list_files};
use fhistory::index_scan::{
    check_excludes, checksum_targets, copy_checksums, scan_checksums, scan_metadata, timestamp_us,
    FileContent, FileMetadata, ScanOptions,
};
use fhistory::Error;

fn info(size: u64, time: Option<i64>, digest: Option<&str>) -> IndexFileInfo {
    IndexFileInfo {
        size_bytes: size,
        modified_timestamp_us: time,
        checksum: digest.map(|d| d.to_owned()),
    }
}

fn options(exclude: &[&str], exclusive: Option<&[&str]>) -> ScanOptions {
    ScanOptions {
        exclude_paths: exclude.iter().map(|p| (*p).to_owned()).collect(),
        exclusive_paths: exclusive.map(|list| list.iter().map(|p| (*p).to_owned()).collect()),
    }
}

fn found(path: &str, size: u64, time: Option<i64>) -> FileMetadata {
    FileMetadata { path: path.to_owned(), size_bytes: size, modified_timestamp_us: time }
}

fn content(path: &str, data: &[u8]) -> FileContent {
    FileContent { path: path.to_owned(), data: data.to_vec() }
}

#[test]
fn timestamp_is_in_microseconds() {
    assert_eq!(timestamp_us(0, 0), 0);
    assert_eq!(timestamp_us(1, 0), 1_000_000);
    assert_eq!(timestamp_us(1_600_000_000, 123_456_789), 1_600_000_000_123_456);
    assert_eq!(timestamp_us(5, 999), 5_000_000);
    assert_eq!(timestamp_us(5, 1_000), 5_000_001);
    assert_eq!(timestamp_us(9_223_372_036_853, 999_999_999), 9_223_372_036_853_999_999);
}

#[test]
fn without_options_every_path_is_scanned() {
    let opts = options(&[], None);
    assert!(check_excludes("a", &opts));
    assert!(check_excludes("", &opts));
    assert!(check_excludes(".fhistory/1-a.idx", &opts));
}

#[test]
fn excluded_paths_are_skipped() {
    let opts = options(&[".fhistory", "tmp/cache"], None);
    assert!(!check_excludes(".fhistory", &opts));
    assert!(!check_excludes(".fhistory/1-a.idx", &opts));
    assert!(!check_excludes("tmp/cache/x/y", &opts));
    assert!(check_excludes("tmp/other", &opts));
    assert!(check_excludes(".fhistory.old/1-a.idx", &opts));
    assert!(check_excludes("sub/.fhistory/1-a.idx", &opts));
}

#[test]
fn exclusive_paths_restrict_the_scan() {
    let opts = options(&[], Some(&["src", "doc/a.txt"]));
    assert!(check_excludes("src/main.rs", &opts));
    assert!(check_excludes("doc/a.txt", &opts));
    assert!(!check_excludes("doc/b.txt", &opts));
    assert!(!check_excludes("srcs/main.rs", &opts));
    let none = options(&[], Some(&[]));
    assert!(!check_excludes("src/main.rs", &none));
}

#[test]
fn exclusion_wins_over_exclusive_paths() {
    let opts = options(&["src/gen"], Some(&["src"]));
    assert!(check_excludes("src/main.rs", &opts));
    assert!(!check_excludes("src/gen/out.rs", &opts));
    assert!(!check_excludes("other", &opts));
}

#[test]
fn metadata_pass_records_size_and_time_without_digest() {
    let walk = vec![found("b", 2, Some(20)), found("a", 1, None), found("dir/c", 3, Some(30))];
    let s = scan_metadata(IndexSnapshot::new(ChecksumFunction::SHA256), &walk, &options(&[], None));
    assert_eq!(s.list(), vec!["a", "b", "dir/c"]);
    assert_eq!(s.get("a"), Some(&info(1, None, None)));
    assert_eq!(s.get("b"), Some(&info(2, Some(20), None)));
    assert_eq!(s.get("dir/c"), Some(&info(3, Some(30), None)));
    assert_eq!(s.checksum_function, ChecksumFunction::SHA256);
}

#[test]
fn metadata_pass_replaces_earlier_records() {
    let mut before = IndexSnapshot::new(ChecksumFunction::MD5);
    before.update("a", &info(1, Some(10), Some("aa")));
    before.update("old", &info(9, Some(90), Some("oo")));
    before.message = Some("kept".to_owned());
    let walk = vec![found("a", 5, Some(50)), found("a", 6, Some(60))];
    let s = scan_metadata(before, &walk, &options(&[], None));
    assert_eq!(s.get("a"), Some(&info(6, Some(60), None)));
    assert_eq!(s.get("old"), Some(&info(9, Some(90), Some("oo"))));
    assert_eq!(s.message, Some("kept".to_owned()));
    assert_eq!(s.checksum_function, ChecksumFunction::MD5);
}

#[test]
fn metadata_pass_never_records_the_store() {
    let walk = vec![
        found("a.txt", 1, Some(1)),
        found(".fhistory/100-abc.idx", 50, Some(2)),
        found(".fhistory/200-def.idx", 60, Some(3)),
        found("dir/.fhistory/x", 4, Some(4)),
        found(".fhistory", 0, Some(5)),
    ];
    let s = scan_metadata(
        IndexSnapshot::new(ChecksumFunction::SHA256),
        &walk,
        &options(&[".fhistory"], None),
    );
    assert_eq!(s.list(), vec!["a.txt", "dir/.fhistory/x"]);
}

#[test]
fn metadata_pass_is_the_same_in_any_order_of_the_walk() {
    let mut walk = vec![
        found("c", 3, Some(3)),
        found("a", 1, Some(1)),
        found("skip/x", 7, Some(7)),
        found("b", 2, Some(2)),
    ];
    let opts = options(&["skip"], None);
    let one = scan_metadata(IndexSnapshot::new(ChecksumFunction::SHA256), &walk, &opts);
    walk.reverse();
    let other = scan_metadata(IndexSnapshot::new(ChecksumFunction::SHA256), &walk, &opts);
    assert_eq!(one.encode(0), other.encode(0));
    assert_eq!(one.list(), vec!["a", "b", "c"]);
}

#[test]
fn checksum_targets_are_the_selected_tracked_paths() {
    let mut s = IndexSnapshot::new(ChecksumFunction::SHA256);
    for path in ["a", "b/x", "b/y", "c", ".fhistory/1-a.idx"] {
        s.update(path, &info(1, None, None));
    }
    assert_eq!(
        checksum_targets(&s, &options(&[".fhistory"], None)),
        vec!["a", "b/x", "b/y", "c"]
    );
    assert_eq!(checksum_targets(&s, &options(&[".fhistory"], Some(&["b", "c"]))), vec!["b/x", "b/y", "c"]);
    assert_eq!(checksum_targets(&s, &options(&[], Some(&[]))), Vec::<String>::new());
}

#[test]
fn checksum_pass_records_digests() {
    let mut s = IndexSnapshot::new(ChecksumFunction::SHA256);
    s.update("a", &info(3, Some(10), None));
    s.update("b", &info(0, None, Some("stale")));
    let read = vec![content("a", b"abc"), content("b", b"")];
    let s = scan_checksums(s, &read, &options(&[], None)).unwrap();
    assert_eq!(
        s.get("a"),
        Some(&info(3, Some(10), Some("ba7816bf8f01cfea414140de5dae2223b00361a396177a9cb410ff61f20015ad")))
    );
    assert_eq!(
        s.get("b"),
        Some(&info(0, None, Some("e3b0c44298fc1c149afbf4c8996fb92427ae41e4649b934ca495991b7852b855")))
    );
}

#[test]
fn checksum_pass_uses_the_digest_function_of_the_snapshot() {
    let mut s = IndexSnapshot::new(ChecksumFunction::MD5);
    s.update("a", &info(3, Some(10), None));
    let s = scan_checksums(s, &vec![content("a", b"abc")], &options(&[], None)).unwrap();
    assert_eq!(s.get("a"), Some(&info(3, Some(10), Some("900150983cd24fb0d6963f7d28e17f72"))));
}

#[test]
fn checksum_pass_leaves_files_outside_its_scope_alone() {
    let mut s = IndexSnapshot::new(ChecksumFunction::SHA256);
    s.update("changed/a", &info(3, Some(10), Some("old-a")));
    s.update("same/b", &info(4, Some(20), Some("old-b")));
    s.update("same/c", &info(5, Some(30), None));
    let read = vec![content("changed/a", b"abc"), content("same/b", b"abc")];
    let s = scan_checksums(s, &read, &options(&[], Some(&["changed"]))).unwrap();
    assert_eq!(
        s.get("changed/a").unwrap().checksum.as_deref(),
        Some("ba7816bf8f01cfea414140de5dae2223b00361a396177a9cb410ff61f20015ad")
    );
    assert_eq!(s.get("same/b"), Some(&info(4, Some(20), Some("old-b"))));
    assert_eq!(s.get("same/c"), Some(&info(5, Some(30), None)));
}

#[test]
fn checksum_pass_refuses_content_of_an_untracked_path() {
    let mut s = IndexSnapshot::new(ChecksumFunction::SHA256);
    s.update("a", &info(3, Some(10), None));
    let read = vec![content("a", b"abc"), content("ghost", b"boo")];
    assert!(matches!(scan_checksums(s, &read, &options(&[], None)), Err(Error::Path)));
}

#[test]
fn checksum_pass_skips_untracked_content_outside_its_scope() {
    let mut s = IndexSnapshot::new(ChecksumFunction::SHA256);
    s.update("a", &info(3, Some(10), None));
    let read = vec![content("skip/ghost", b"boo"), content("a", b"abc")];
    let s = scan_checksums(s, &read, &options(&["skip"], None)).unwrap();
    assert_eq!(s.list(), vec!["a"]);
    assert!(s.get("a").unwrap().checksum.is_some());
}

#[test]
fn incremental_scan_hashes_only_what_the_metadata_flags() {
    let f = ChecksumFunction::SHA256;
    let mut stored = IndexSnapshot::new(f);
    stored.update("same", &info(4, Some(100), Some(&compute(f, b"same"))));
    stored.update("touched", &info(3, Some(100), Some(&compute(f, b"old"))));
    stored.update("gone", &info(1, Some(100), Some(&compute(f, b"x"))));
    let walk = vec![
        found("same", 4, Some(100)),
        found("touched", 3, Some(200)),
        found("fresh", 5, Some(300)),
        found(".fhistory/1-a.idx", 9, Some(1)),
    ];
    let opts = options(&[".fhistory"], None);
    let mut current = scan_metadata(IndexSnapshot::new(f), &walk, &opts);
    let flagged = list_files(&diff(&stored, &current));
    assert_eq!(flagged, vec!["gone", "touched", "fresh"]);
    let scoped = ScanOptions { exclude_paths: opts.exclude_paths.clone(), exclusive_paths: Some(flagged) };
    assert_eq!(checksum_targets(&current, &scoped), vec!["fresh", "touched"]);
    let read = vec![content("fresh", b"fresh"), content("touched", b"new")];
    current = scan_checksums(current, &read, &scoped).unwrap();
    assert_eq!(current.get("same"), Some(&info(4, Some(100), None)));
    assert_eq!(current.get("touched").unwrap().checksum, Some(compute(f, b"new")));
    assert_eq!(current.get("fresh").unwrap().checksum, Some(compute(f, b"fresh")));
    let mut merged = stored.clone();
    merged.delete("gone");
    merged.merge(&{
        let mut hashed = IndexSnapshot::new(f);
        for path in ["fresh", "touched"] {
            hashed.update(path, current.get(path).unwrap());
        }
        hashed
    });
    assert_eq!(merged.get("same"), stored.get("same"));
    assert_eq!(merged.list(), vec!["fresh", "same", "touched"]);
}

#[test]
fn stored_digests_are_copied_where_metadata_is_unchanged() {
    let mut stored = IndexSnapshot::new(ChecksumFunction::SHA256);
    stored.update("same", &info(4, Some(100), Some("d-same")));
    stored.update("resized", &info(4, Some(100), Some("d-resized")));
    stored.update("touched", &info(4, Some(100), Some("d-touched")));
    stored.update("timeless", &info(4, None, Some("d-timeless")));
    stored.update("undigested", &info(4, Some(100), None));
    stored.update("gone", &info(4, Some(100), Some("d-gone")));
    let mut current = IndexSnapshot::new(ChecksumFunction::MD5);
    current.message = Some("now".to_owned());
    current.update("same", &info(4, Some(100), None));
    current.update("resized", &info(5, Some(100), None));
    current.update("touched", &info(4, Some(101), None));
    current.update("timeless", &info(4, None, None));
    current.update("undigested", &info(4, Some(100), None));
    current.update("fresh", &info(4, Some(100), None));
    current.update("hashed", &info(4, Some(100), Some("mine")));
    stored.update("hashed", &info(4, Some(100), Some("theirs")));
    let copied = copy_checksums(current, &stored);
    assert_eq!(copied.get("same"), Some(&info(4, Some(100), Some("d-same"))));
    assert_eq!(copied.get("resized"), Some(&info(5, Some(100), None)));
    assert_eq!(copied.get("touched"), Some(&info(4, Some(101), None)));
    assert_eq!(copied.get("timeless"), Some(&info(4, None, Some("d-timeless"))));
    assert_eq!(copied.get("undigested"), Some(&info(4, Some(100), None)));
    assert_eq!(copied.get("fresh"), Some(&info(4, Some(100), None)));
    assert_eq!(copied.get("hashed"), Some(&info(4, Some(100), Some("mine"))));
    assert_eq!(copied.get("gone"), None);
    assert_eq!(copied.checksum_function, ChecksumFunction::MD5);
    assert_eq!(copied.message, Some("now".to_owned()));
    assert_eq!(copied.list().len(), 7);
}
