use fhistory::index::IndexFileInfo;
use fhistory::table::FileTable;

fn info(size: u64) -> IndexFileInfo {
    IndexFileInfo { size_bytes: size, modified_timestamp_us: None, checksum: None }
}

fn table(paths: &[&str]) -> FileTable {
    let mut t = FileTable::new();
    for (i, path) in paths.iter().enumerate() {
        t.insert((*path).to_owned(), info(i as u64));
    }
    t
}

#[test]
fn table_keeps_paths_in_order() {
    let t = table(&["m", "c", "x", "a", "c/d", "b"]);
    assert_eq!(t.len(), 6);
    let listed: Vec<&str> = (0..t.len()).map(|i| t.path_at(i).as_str()).collect();
    assert_eq!(listed, vec!["a", "b", "c", "c/d", "m", "x"]);
    assert_eq!(t.info_at(0), &info(3));
    assert_eq!(t.info_at(5), &info(2));
}

#[test]
fn table_finds_the_place_of_a_path() {
    let t = table(&["b", "d", "f"]);
    assert_eq!(t.find("a"), (0, false));
    assert_eq!(t.find("b"), (0, true));
    assert_eq!(t.find("c"), (1, false));
    assert_eq!(t.find("d"), (1, true));
    assert_eq!(t.find("e"), (2, false));
    assert_eq!(t.find("f"), (2, true));
    assert_eq!(t.find("g"), (3, false));
    assert_eq!(FileTable::new().find("a"), (0, false));
}

#[test]
fn table_replaces_the_record_of_a_path() {
    let mut t = table(&["a", "b"]);
    t.insert("a".to_owned(), info(9));
    assert_eq!(t.len(), 2);
    assert_eq!(t.get("a"), Some(&info(9)));
    assert_eq!(t.get("b"), Some(&info(1)));
    assert_eq!(t.get("c"), None);
}

#[test]
fn table_removes_by_path_and_by_position() {
    let mut t = table(&["a", "b", "c", "d"]);
    t.remove("b");
    t.remove("zz");
    assert_eq!(t.len(), 3);
    t.remove_at(0);
    assert_eq!(t.len(), 2);
    assert_eq!(t.path_at(0), "c");
    assert_eq!(t.path_at(1), "d");
    t.remove_at(1);
    assert_eq!(t.len(), 1);
    assert_eq!(t.get("c"), Some(&info(2)));
}

#[test]
fn table_clone_is_independent() {
    let mut t = table(&["a"]);
    let copy = t.clone();
    t.remove("a");
    assert_eq!(copy.len(), 1);
    assert_eq!(copy.get("a"), Some(&info(0)));
    assert_eq!(t.len(), 0);
}
