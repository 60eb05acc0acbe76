use fhistory::paths::{join_paths, path_components, starts_with};
use std::path::{Path, PathBuf};

const SAMPLES: [&str; 34] = [
    "", ".", "..", "/", "//", "a", "a/", "a/b", "a//b", "a/./b", "./a", "./a/b", "/a", "/a/b",
    "/a/", "a/b/c", "ab", "ab/c", "a/bc", ".fhistory", ".fhistory/1-a.idx", "./.fhistory",
    "a/..", "../a", "a/.", "/.", "/./a", ".//a", "a b/c", "a\\b", "\u{e9}/x", "\u{e9}", "a/b/",
    "/a//b/./c/",
];

fn text(parts: Vec<Vec<char>>) -> Vec<String> {
    parts.into_iter().map(|p| p.into_iter().collect()).collect()
}

#[test]
fn components_of_plain_paths() {
    assert_eq!(text(path_components("a/b/c")), vec!["a", "b", "c"]);
    assert_eq!(text(path_components("/a/b")), vec!["/", "a", "b"]);
    assert_eq!(text(path_components("./a")), vec![".", "a"]);
    assert_eq!(text(path_components("a/./b//c/")), vec!["a", "b", "c"]);
    assert_eq!(text(path_components("")), Vec::<String>::new());
    assert_eq!(text(path_components(".")), vec!["."]);
    assert_eq!(text(path_components("/")), vec!["/"]);
    assert_eq!(text(path_components("a/../b")), vec!["a", "..", "b"]);
}

#[test]
fn components_are_those_of_std_paths() {
    for sample in SAMPLES {
        let want: Vec<String> = Path::new(sample)
            .components()
            .map(|c| c.as_os_str().to_str().unwrap().to_owned())
            .collect();
        assert_eq!(text(path_components(sample)), want, "components of {:?}", sample);
    }
}

#[test]
fn starts_with_matches_whole_components() {
    assert!(starts_with("a/b/c", "a"));
    assert!(starts_with("a/b/c", "a/b"));
    assert!(starts_with("a/b/c", "a/b/c"));
    assert!(starts_with("a/b/c", "a/b/"));
    assert!(!starts_with("a/b/c", "a/b/c/d"));
    assert!(!starts_with("ab/c", "a"));
    assert!(!starts_with("a/bc", "a/b"));
    assert!(!starts_with("a/b", "b"));
    assert!(!starts_with("a/b", "/a"));
    assert!(starts_with("/a/b", "/a"));
    assert!(starts_with("/a/b", "/"));
    assert!(starts_with("anything", ""));
    assert!(starts_with("", ""));
    assert!(!starts_with("", "a"));
    assert!(starts_with(".fhistory/1-a.idx", ".fhistory"));
    assert!(!starts_with(".fhistory.bak/x", ".fhistory"));
}

#[test]
fn starts_with_is_that_of_std_paths() {
    for path in SAMPLES {
        for base in SAMPLES {
            assert_eq!(
                starts_with(path, base),
                Path::new(path).starts_with(Path::new(base)),
                "{:?} under {:?}",
                path,
                base
            );
        }
    }
}

#[test]
fn join_puts_one_slash_between() {
    assert_eq!(join_paths("data", ".fhistory"), "data/.fhistory");
    assert_eq!(join_paths("data/", ".fhistory"), "data/.fhistory");
    assert_eq!(join_paths("/srv/data", "idx/1-a.idx"), "/srv/data/idx/1-a.idx");
    assert_eq!(join_paths(".", ".fhistory"), "./.fhistory");
}

#[test]
fn join_keeps_a_path_from_the_root() {
    assert_eq!(join_paths("data", "/var/idx"), "/var/idx");
    assert_eq!(join_paths("", "/var/idx"), "/var/idx");
}

#[test]
fn join_with_an_empty_side() {
    assert_eq!(join_paths("", "idx"), "idx");
    assert_eq!(join_paths("", ""), "");
    assert_eq!(join_paths("data", ""), "data/");
    assert_eq!(join_paths("data/", ""), "data/");
}

#[test]
fn join_is_that_of_std_paths() {
    for base in SAMPLES {
        for path in SAMPLES {
            let want: PathBuf = Path::new(base).join(path);
            assert_eq!(
                join_paths(base, path),
                want.to_str().unwrap(),
                "{:?} joined with {:?}",
                base,
                path
            );
        }
    }
}
