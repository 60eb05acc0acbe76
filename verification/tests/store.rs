use fhistory::checksum::{compute, ChecksumFunction};
use fhistory::index::{IndexFileInfo, IndexSnapshot};
use fhistory::reference::IndexReference;
use fhistory::store::IndexDirectory;
use fhistory::Error;
use regex::Regex;

fn info(size: u64, time: Option<i64>, digest: Option<&str>) -> IndexFileInfo {
    IndexFileInfo {
        size_bytes: size,
        modified_timestamp_us: time,
        checksum: digest.map(|d| d.to_owned()),
    }
}

fn reference(time: i64, digest: &str) -> IndexReference {
    IndexReference { timestamp_us: time, checksum: digest.to_owned() }
}

fn names(list: &[&str]) -> Vec<String> {
    list.iter().map(|n| (*n).to_owned()).collect()
}

fn sample(f: ChecksumFunction) -> IndexSnapshot {
    let mut s = IndexSnapshot::new(f);
    s.update("a.txt", &info(10, Some(5), Some(&compute(f, b"content of a"))));
    s.update("dir/b c.txt", &info(20, Some(6), Some(&compute(f, b"content of b"))));
    s.message = Some("two files".to_owned());
    s
}

#[test]
fn filename_is_time_hyphen_digest_idx() {
    assert_eq!(reference(1234567890, "abc123").filename(), "1234567890-abc123.idx");
    assert_eq!(reference(0, "d41d8cd98f00b204e9800998ecf8427e").filename(), "0-d41d8cd98f00b204e9800998ecf8427e.idx");
    assert_eq!(reference(-5, "ff").filename(), "-5-ff.idx");
    assert_eq!(reference(i64::MAX, "0").filename(), "9223372036854775807-0.idx");
}

#[test]
fn from_filename_reads_canonical_names() {
    assert_eq!(IndexReference::from_filename("1234567890-abc123.idx"), Some(reference(1234567890, "abc123")));
    assert_eq!(IndexReference::from_filename("0-z.idx"), Some(reference(0, "z")));
    assert_eq!(IndexReference::from_filename("007-00.idx"), Some(reference(7, "00")));
    assert_eq!(
        IndexReference::from_filename("9223372036854775807-a.idx"),
        Some(reference(i64::MAX, "a"))
    );
}

#[test]
fn from_filename_refuses_other_names() {
    for name in [
        "", "abc", "1-a", "1-a.idx ", " 1-a.idx", "1-a.idx\n", "-1-a.idx", "+1-a.idx", "1-.idx",
        "-a.idx", "1-A.idx", "1-a.IDX", "1-a.idy", "1-a.idxx", "1-a-b.idx", "1-a.b.idx", "1a.idx",
        "x-a.idx", "1-a_b.idx", "1--a.idx", "1-a..idx", ".idx", "1-a.idx.bak", "lock",
        "9223372036854775808-a.idx", "99999999999999999999999-a.idx", "1-\u{e9}.idx",
        "\u{663}-a.idx", "1-a.idx/",
    ] {
        assert_eq!(IndexReference::from_filename(name), None, "{:?}", name);
    }
}

#[test]
fn from_filename_agrees_with_the_pattern() {
    let pattern = Regex::new(r"^(?P<timestamp>\d+)-(?P<checksum>[a-z0-9]+)\.idx$").unwrap();
    let pieces = ["", "1", "42", "-", "a", "z9", ".idx", ".", "idx", "A", "\n", " ", "\u{663}", "9223372036854775808", "_"];
    let mut checked: u32 = 0;
    for a in pieces {
        for b in pieces {
            for c in pieces {
                for d in pieces {
                    let name = format!("{}{}{}{}", a, b, c, d);
                    let want = pattern.captures(&name).and_then(|m| {
                        m["timestamp"].parse::<i64>().ok().map(|t| reference(t, &m["checksum"]))
                    });
                    assert_eq!(IndexReference::from_filename(&name), want, "{:?}", name);
                    checked += 1;
                }
            }
        }
    }
    assert_eq!(checked, 15 * 15 * 15 * 15);
}

#[test]
fn filename_is_read_back() {
    for r in [reference(0, "a"), reference(17, "0f"), reference(i64::MAX, "abcxyz019")] {
        assert_eq!(IndexReference::from_filename(&r.filename()), Some(r));
    }
}

#[test]
fn create_gives_an_empty_store() {
    let directory = IndexDirectory::create("data", ".fhistory");
    assert_eq!(directory.index_path(), "data/.fhistory");
    assert!(directory.list().is_empty());
    assert_eq!(directory.latest(), None);
    let absolute = IndexDirectory::create("data", "/var/idx");
    assert_eq!(absolute.index_path(), "/var/idx");
}

#[test]
fn open_sorts_latest_first() {
    let directory =
        IndexDirectory::open("/data", "idx", &names(&["20-b.idx", "10-a.idx", "30-c.idx", "25-d.idx"]))
            .unwrap();
    assert_eq!(directory.index_path(), "/data/idx");
    assert_eq!(
        directory.list(),
        &vec![reference(30, "c"), reference(25, "d"), reference(20, "b"), reference(10, "a")]
    );
    assert_eq!(directory.latest(), Some(reference(30, "c")));
}

#[test]
fn open_keeps_the_order_of_equal_times() {
    let directory = IndexDirectory::open(
        ".",
        ".fhistory",
        &names(&["5-x.idx", "7-b.idx", "5-a.idx", "7-a.idx", "5-m.idx"]),
    )
    .unwrap();
    assert_eq!(
        directory.list(),
        &vec![
            reference(7, "b"),
            reference(7, "a"),
            reference(5, "x"),
            reference(5, "a"),
            reference(5, "m")
        ]
    );
}

#[test]
fn open_sorts_as_a_stable_sort_does() {
    let mut x: u64 = 3;
    let mut listing = Vec::new();
    for i in 0..200 {
        x = x.wrapping_mul(6364136223846793005).wrapping_add(1442695040888963407);
        listing.push(format!("{}-f{}.idx", (x >> 40) % 13, i));
    }
    let directory = IndexDirectory::open("", "s", &listing).unwrap();
    let mut want: Vec<IndexReference> =
        listing.iter().map(|n| IndexReference::from_filename(n).unwrap()).collect();
    want.sort_by(|a, b| b.timestamp_us.cmp(&a.timestamp_us));
    assert_eq!(directory.list(), &want);
}

#[test]
fn open_of_an_empty_directory() {
    let directory = IndexDirectory::open("data", ".fhistory", &Vec::new()).unwrap();
    assert!(directory.list().is_empty());
    assert_eq!(directory.latest(), None);
}

#[test]
fn open_refuses_a_foreign_file() {
    assert!(matches!(
        IndexDirectory::open("data", ".fhistory", &names(&["10-a.idx", "README", "20-b.idx"])),
        Err(Error::Format)
    ));
    assert!(matches!(
        IndexDirectory::open("data", ".fhistory", &names(&["10-a.idx.tmp"])),
        Err(Error::Format)
    ));
}

#[test]
fn snapshot_path_lies_in_the_store() {
    let directory = IndexDirectory::create("/data", ".fhistory");
    assert_eq!(directory.snapshot_path(&reference(12, "ab")), "/data/.fhistory/12-ab.idx");
}

#[test]
fn append_hands_out_reference_and_bytes() {
    let mut directory = IndexDirectory::create("data", ".fhistory");
    let snapshot = sample(ChecksumFunction::SHA256);
    let file = directory.append(&snapshot, 1000).unwrap();
    assert_eq!(file.reference.timestamp_us, 1000);
    assert_eq!(file.reference.checksum, compute(ChecksumFunction::SHA256, &file.data));
    assert_eq!(file.reference.checksum.len(), 64);
    assert_ne!(file.data, snapshot.encode(1000));
    assert_eq!(inflate::inflate_bytes_zlib(&file.data).unwrap(), snapshot.encode(1000));
    assert_eq!(directory.latest(), Some(file.reference.clone()));
    assert_eq!(directory.list(), &vec![file.reference]);
}

#[test]
fn append_uses_the_digest_function_of_the_snapshot() {
    let mut directory = IndexDirectory::create("data", ".fhistory");
    let file = directory.append(&sample(ChecksumFunction::MD5), 1).unwrap();
    assert_eq!(file.reference.checksum, compute(ChecksumFunction::MD5, &file.data));
    assert_eq!(file.reference.checksum.len(), 32);
}

#[test]
fn append_refuses_a_time_that_is_not_later() {
    let mut directory = IndexDirectory::open("data", ".fhistory", &names(&["1000-a.idx", "500-b.idx"])).unwrap();
    let snapshot = sample(ChecksumFunction::SHA256);
    assert!(matches!(directory.append(&snapshot, 1000), Err(Error::Causality)));
    assert!(matches!(directory.append(&snapshot, 999), Err(Error::Causality)));
    assert!(matches!(directory.append(&snapshot, i64::MIN), Err(Error::Causality)));
    assert_eq!(directory.list(), &vec![reference(1000, "a"), reference(500, "b")]);
    let file = directory.append(&snapshot, 1001).unwrap();
    assert_eq!(directory.list().len(), 3);
    assert_eq!(directory.latest(), Some(file.reference));
}

#[test]
fn successive_appends_need_increasing_times() {
    let mut directory = IndexDirectory::create("data", ".fhistory");
    let snapshot = sample(ChecksumFunction::SHA256);
    let first = directory.append(&snapshot, 10).unwrap();
    assert!(matches!(directory.append(&snapshot, 10), Err(Error::Causality)));
    assert!(matches!(directory.append(&snapshot, 9), Err(Error::Causality)));
    let second = directory.append(&snapshot, 11).unwrap();
    assert_eq!(directory.list(), &vec![second.reference, first.reference]);
}

#[test]
fn an_appended_snapshot_is_found_when_the_store_is_opened() {
    let mut directory = IndexDirectory::create("data", ".fhistory");
    let a = directory.append(&sample(ChecksumFunction::SHA256), 10).unwrap();
    let b = directory.append(&sample(ChecksumFunction::SHA256), 20).unwrap();
    let listing = vec![a.reference.filename(), b.reference.filename()];
    let opened = IndexDirectory::open("data", ".fhistory", &listing).unwrap();
    assert_eq!(opened.list(), directory.list());
}

#[test]
fn load_gives_back_what_was_appended() {
    for f in [ChecksumFunction::SHA256, ChecksumFunction::MD5] {
        let mut directory = IndexDirectory::create("data", ".fhistory");
        let snapshot = sample(f);
        let file = directory.append(&snapshot, 77).unwrap();
        let loaded = directory.load(&file.reference, &file.data).unwrap();
        assert_eq!(loaded.checksum_function, f);
        assert_eq!(loaded.message, snapshot.message);
        assert_eq!(loaded.list(), snapshot.list());
        for path in snapshot.list() {
            assert_eq!(loaded.get(&path), snapshot.get(&path));
        }
    }
}

#[test]
fn load_refuses_every_flipped_byte() {
    for f in [ChecksumFunction::SHA256, ChecksumFunction::MD5] {
        let mut directory = IndexDirectory::create("data", ".fhistory");
        let file = directory.append(&sample(f), 77).unwrap();
        for at in 0..file.data.len() {
            for bit in [1u8, 2, 4, 8, 16, 32, 64, 128] {
                let mut changed = file.data.clone();
                changed[at] ^= bit;
                assert!(
                    matches!(directory.load(&file.reference, &changed), Err(Error::ChecksumMismatch)),
                    "byte {} changed by {}",
                    at,
                    bit
                );
            }
        }
    }
}

#[test]
fn load_refuses_shortened_and_lengthened_bytes() {
    let mut directory = IndexDirectory::create("data", ".fhistory");
    let file = directory.append(&sample(ChecksumFunction::SHA256), 77).unwrap();
    let mut longer = file.data.clone();
    longer.push(0);
    assert!(matches!(directory.load(&file.reference, &longer), Err(Error::ChecksumMismatch)));
    let shorter = &file.data[..file.data.len() - 1];
    assert!(matches!(directory.load(&file.reference, shorter), Err(Error::ChecksumMismatch)));
    assert!(matches!(directory.load(&file.reference, &[]), Err(Error::ChecksumMismatch)));
}

#[test]
fn load_refuses_a_reference_with_another_digest() {
    let mut directory = IndexDirectory::create("data", ".fhistory");
    let file = directory.append(&sample(ChecksumFunction::SHA256), 77).unwrap();
    let mut digest = file.reference.checksum.clone();
    let last = digest.pop().unwrap();
    digest.push(if last == '0' { '1' } else { '0' });
    assert!(matches!(
        directory.load(&reference(77, &digest), &file.data),
        Err(Error::ChecksumMismatch)
    ));
    for other in ["", "abc", &file.reference.checksum[..63], &file.reference.checksum.to_uppercase()] {
        assert!(
            matches!(directory.load(&reference(77, other), &file.data), Err(Error::ChecksumMismatch)),
            "{:?}",
            other
        );
    }
}

#[test]
fn load_refuses_other_bytes_with_checksum_mismatch() {
    let mut directory = IndexDirectory::create("data", ".fhistory");
    let file = directory.append(&sample(ChecksumFunction::SHA256), 77).unwrap();
    let mut other = sample(ChecksumFunction::SHA256);
    other.update("a.txt", &info(11, Some(5), Some("00")));
    let forged = deflate::deflate_bytes_zlib(&other.encode(77));
    assert!(matches!(directory.load(&file.reference, &forged), Err(Error::ChecksumMismatch)));
}

#[test]
fn load_holds_the_digest_against_the_reference_before_reading_files() {
    let directory = IndexDirectory::create("data", ".fhistory");
    let frame = deflate::deflate_bytes_zlib(b"#checksum md5\n#timestamp 5\nnot a file line\n");
    assert!(matches!(directory.load(&reference(5, "0000"), &frame), Err(Error::ChecksumMismatch)));
    let right = reference(5, &compute(ChecksumFunction::MD5, &frame));
    assert!(matches!(directory.load(&right, &frame), Err(Error::Format)));
}

#[test]
fn load_uses_the_digest_function_that_the_snapshot_states() {
    let directory = IndexDirectory::create("data", ".fhistory");
    let frame = deflate::deflate_bytes_zlib(b"#checksum md5\n#timestamp 5\naa 1 2 p\n");
    let by_md5 = reference(5, &compute(ChecksumFunction::MD5, &frame));
    let by_sha = reference(5, &compute(ChecksumFunction::SHA256, &frame));
    assert!(directory.load(&by_md5, &frame).is_ok());
    assert!(matches!(directory.load(&by_sha, &frame), Err(Error::ChecksumMismatch)));
}

#[test]
fn load_refuses_another_time_than_that_of_the_reference() {
    let directory = IndexDirectory::create("data", ".fhistory");
    let frame = deflate::deflate_bytes_zlib(b"#checksum md5\n#timestamp 5\naa 1 2 p\n");
    let r = reference(6, &compute(ChecksumFunction::MD5, &frame));
    assert!(matches!(directory.load(&r, &frame), Err(Error::Format)));
}

#[test]
fn load_refuses_bytes_that_are_no_zlib_frame() {
    let directory = IndexDirectory::create("data", ".fhistory");
    let plain = b"#checksum md5\n#timestamp 5\n".to_vec();
    let r = reference(5, &compute(ChecksumFunction::MD5, &plain));
    assert!(matches!(directory.load(&r, &plain), Err(Error::Format)));
    let nothing = reference(5, &compute(ChecksumFunction::MD5, &[]));
    assert!(matches!(directory.load(&nothing, &[]), Err(Error::Format)));
}

#[test]
fn load_refuses_a_frame_without_digest_function() {
    let directory = IndexDirectory::create("data", ".fhistory");
    let frame = deflate::deflate_bytes_zlib(b"#timestamp 5\n");
    let r = reference(5, &compute(ChecksumFunction::MD5, &frame));
    assert!(matches!(directory.load(&r, &frame), Err(Error::Format)));
    let unknown = deflate::deflate_bytes_zlib(b"#checksum crc32\n#timestamp 5\n");
    let r = reference(5, &compute(ChecksumFunction::MD5, &unknown));
    assert!(matches!(directory.load(&r, &unknown), Err(Error::Format)));
}

#[test]
fn clone_of_a_store_is_independent() {
    let mut directory = IndexDirectory::create("data", ".fhistory");
    let copy = directory.clone();
    directory.append(&sample(ChecksumFunction::MD5), 1).unwrap();
    assert!(copy.list().is_empty());
    assert_eq!(copy.index_path(), "data/.fhistory");
}

#[test]
fn load_answers_for_arbitrary_bytes() {
    let directory = IndexDirectory::create("data", ".fhistory");
    let good = deflate::deflate_bytes_zlib(b"#checksum md5\n#timestamp 5\naa 1 2 p\nbb 3 4 q\n");
    let mut x: u64 = 2024;
    let mut refused: u32 = 0;
    for round in 0..3000 {
        x = x.wrapping_mul(6364136223846793005).wrapping_add(1442695040888963407);
        let mut frame = if round % 2 == 0 {
            good.clone()
        } else {
            let len = (x >> 58) as usize;
            let mut bytes = vec![0x78, 0x9c];
            for _ in 0..len {
                x = x.wrapping_mul(6364136223846793005).wrapping_add(1442695040888963407);
                bytes.push((x >> 40) as u8);
            }
            bytes
        };
        x = x.wrapping_mul(6364136223846793005).wrapping_add(1442695040888963407);
        let at = (x >> 33) as usize % frame.len();
        frame[at] ^= 1 << ((x >> 20) % 8);
        if round % 5 == 0 {
            frame.truncate(at + 1);
        }
        let r = reference(5, &compute(ChecksumFunction::MD5, &frame));
        match directory.load(&r, &frame) {
            Ok(snapshot) => assert_eq!(snapshot.checksum_function, ChecksumFunction::MD5),
            Err(Error::Format) => refused += 1,
            Err(other) => panic!("round {}: {:?}", round, other),
        }
    }
    assert!(refused > 1000);
}

#[test]
fn append_refuses_an_old_time_whatever_the_snapshot_holds() {
    let mut directory =
        IndexDirectory::open("data", ".fhistory", &names(&["1000-a.idx", "500-b.idx"])).unwrap();
    let mut undigested = IndexSnapshot::new(ChecksumFunction::SHA256);
    undigested.update("f", &info(1, Some(5), None));
    assert!(matches!(directory.append(&undigested, 1000), Err(Error::Causality)));
    assert!(matches!(directory.append(&undigested, 1), Err(Error::Causality)));
    assert_eq!(directory.list(), &vec![reference(1000, "a"), reference(500, "b")]);
}
