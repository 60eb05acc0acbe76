//! The two passes that fill a snapshot: one records what a walk of the tree
//! found of each file, the other the digest of each file's content. Both skip
//! the paths that the scan options leave out.

use vstd::prelude::*;
use crate::checksum::{compute, digest_hex, digest_takes, ChecksumFunction};
use crate::error::Error;
use crate::index::{same_time, FileInfoView, IndexFileInfo, IndexSnapshot, SnapshotView};
use crate::paths::{path_starts_with, starts_with_any, under_any};
use crate::table::{has_path, index_of, lemma_sorted_distinct};
use crate::text::{opt_string_clone, string_views};

verus! {

/// Which paths a scan looks at.
#[derive(Debug)]
pub struct ScanOptions {
    /// Paths under one of these are skipped. The store's own directory
    /// belongs here.
    pub exclude_paths: Vec<String>,
    /// Where present, only paths under one of these are looked at.
    pub exclusive_paths: Option<Vec<String>>,
}

/// Scan options as plain values.
pub struct ScanOptionsView {
    pub exclude_paths: Seq<Seq<char>>,
    pub exclusive_paths: Option<Seq<Seq<char>>>,
}

impl View for ScanOptions {
    type V = ScanOptionsView;

    open spec fn view(&self) -> ScanOptionsView {
        ScanOptionsView {
            exclude_paths: string_views(self.exclude_paths@),
            exclusive_paths: match self.exclusive_paths {
                Some(only) => Some(string_views(only@)),
                None => None,
            },
        }
    }
}

/// Whether a scan looks at `path`: it falls under no excluded path and, where
/// there is a list of exclusive paths, under one of them.
pub open spec fn selected(path: Seq<char>, opts: ScanOptionsView) -> bool {
    &&& !under_any(path, opts.exclude_paths)
    &&& match opts.exclusive_paths {
        Some(only) => under_any(path, only),
        None => true,
    }
}

/// Whether a scan under `opts` looks at `path`.
pub fn check_excludes(path: &str, opts: &ScanOptions) -> (r: bool)
    ensures
        r == selected(path@, opts@),
{
    if starts_with_any(path, &opts.exclude_paths) {
        return false;
    }
    match &opts.exclusive_paths {
        Some(only) => starts_with_any(path, only),
        None => true,
    }
}

/// The latest second whose microseconds fit in 64 bits.
pub const MAX_SECONDS: u64 = 9_223_372_036_853;

/// A time in microseconds since the epoch, from its whole seconds and the
/// nanoseconds of the second begun.
pub fn timestamp_us(seconds: u64, subsec_nanos: u32) -> (us: i64)
    requires
        seconds <= MAX_SECONDS,
        subsec_nanos < 1_000_000_000,
    ensures
        us == seconds * 1_000_000 + subsec_nanos / 1_000,
{
    (seconds * 1_000_000 + (subsec_nanos / 1_000) as u64) as i64
}

/// What a walk of the tree found of one regular file.
#[derive(Debug)]
pub struct FileMetadata {
    /// The path from the data root, in forward-slash form.
    pub path: String,
    pub size_bytes: u64,
    pub modified_timestamp_us: Option<i64>,
}

/// What a walk found of a file, as plain values.
pub struct FileMetadataView {
    pub path: Seq<char>,
    pub size_bytes: u64,
    pub modified_timestamp_us: Option<i64>,
}

impl View for FileMetadata {
    type V = FileMetadataView;

    open spec fn view(&self) -> FileMetadataView {
        FileMetadataView {
            path: self.path@,
            size_bytes: self.size_bytes,
            modified_timestamp_us: self.modified_timestamp_us,
        }
    }
}

/// What a walk found, as plain values.
pub open spec fn metadata_views(found: Seq<FileMetadata>) -> Seq<FileMetadataView> {
    found.map_values(|file: FileMetadata| file@)
}

/// The record that the metadata pass writes for a file: its size and time,
/// and no digest.
pub open spec fn metadata_record(file: FileMetadataView) -> FileInfoView {
    FileInfoView {
        size_bytes: file.size_bytes,
        modified_timestamp_us: file.modified_timestamp_us,
        checksum: None,
    }
}

/// The files of a snapshot after the metadata pass over `found`: each file
/// that the options select takes the place of the path's earlier record.
pub open spec fn with_metadata(
    files: Map<Seq<char>, FileInfoView>,
    found: Seq<FileMetadataView>,
    opts: ScanOptionsView,
) -> Map<Seq<char>, FileInfoView>
    decreases found.len(),
{
    if found.len() == 0 {
        files
    } else {
        let before = with_metadata(files, found.drop_last(), opts);
        if selected(found.last().path, opts) {
            before.insert(found.last().path, metadata_record(found.last()))
        } else {
            before
        }
    }
}

/// The metadata pass: records size and modification time of every file in
/// `found` that `opts` selects, without a digest, in place of the path's
/// earlier record. No record is made or changed for a path that `opts`
/// leaves out: a scan that excludes the store's directory records nothing
/// under it.
pub fn scan_metadata(index: IndexSnapshot, found: &Vec<FileMetadata>, opts: &ScanOptions) -> (result:
    IndexSnapshot)
    requires
        index.wf(),
    ensures
        result.wf(),
        result@ == (SnapshotView {
            files: with_metadata(index@.files, metadata_views(found@), opts@),
            ..index@
        }),
        forall|path: Seq<char>|
            !selected(path, opts@) && #[trigger] index@.files.contains_key(path)
                ==> result@.files.contains_key(path) && result@.files[path] == index@.files[path],
        forall|path: Seq<char>|
            !selected(path, opts@) && #[trigger] result@.files.contains_key(path)
                ==> index@.files.contains_key(path),
{
    let mut current = index;
    let mut i: usize = 0;
    assert(metadata_views(found@).take(0) =~= Seq::<FileMetadataView>::empty());
    while i < found.len()
        invariant
            i <= found.len(),
            current.wf(),
            current@ == (SnapshotView {
                files: with_metadata(index@.files, metadata_views(found@).take(i as int), opts@),
                ..index@
            }),
        decreases found.len() - i,
    {
        let file = &found[i];
        proof {
            let upto = metadata_views(found@).take(i as int + 1);
            assert(upto.drop_last() =~= metadata_views(found@).take(i as int));
            assert(upto.last() == file@);
        }
        if check_excludes(file.path.as_str(), opts) {
            let info = IndexFileInfo {
                size_bytes: file.size_bytes,
                modified_timestamp_us: file.modified_timestamp_us,
                checksum: None,
            };
            current.update(file.path.as_str(), &info);
        }
        i += 1;
    }
    assert(metadata_views(found@).take(i as int) =~= metadata_views(found@));
    proof {
        assert forall|path: Seq<char>|
            !selected(path, opts@) && #[trigger] index@.files.contains_key(
                path,
            ) implies current@.files.contains_key(path) && current@.files[path]
            == index@.files[path] by {
            lemma_metadata_pass_skips(index@.files, metadata_views(found@), opts@, path);
        }
        assert forall|path: Seq<char>|
            !selected(path, opts@) && #[trigger] current@.files.contains_key(
                path,
            ) implies index@.files.contains_key(path) by {
            lemma_metadata_pass_skips(index@.files, metadata_views(found@), opts@, path);
        }
    }
    current
}

/// The metadata pass changes nothing at a path that the options leave out:
/// with the store's directory among the excluded paths, no scan ever records
/// a file under it.
pub proof fn lemma_metadata_pass_skips(
    files: Map<Seq<char>, FileInfoView>,
    found: Seq<FileMetadataView>,
    opts: ScanOptionsView,
    path: Seq<char>,
)
    requires
        !selected(path, opts),
    ensures
        with_metadata(files, found, opts).contains_key(path) == files.contains_key(path),
        files.contains_key(path) ==> with_metadata(files, found, opts)[path] == files[path],
    decreases found.len(),
{
    if found.len() > 0 {
        lemma_metadata_pass_skips(files, found.drop_last(), opts, path);
    }
}

/// After the metadata pass a selected file that the walk found has the
/// record of what the walk found of it last, and a path that the walk did not
/// find has the record it had: the outcome does not depend on the order in
/// which a walk visits different files.
pub proof fn lemma_metadata_pass_records(
    files: Map<Seq<char>, FileInfoView>,
    found: Seq<FileMetadataView>,
    opts: ScanOptionsView,
    path: Seq<char>,
)
    ensures
        (forall|j: int| 0 <= j < found.len() ==> (#[trigger] found[j]).path != path) ==> {
            &&& with_metadata(files, found, opts).contains_key(path) == files.contains_key(path)
            &&& files.contains_key(path) ==> with_metadata(files, found, opts)[path] == files[path]
        },
        forall|i: int|
            0 <= i < found.len() && (#[trigger] found[i]).path == path && selected(path, opts) && (
            forall|j: int| i < j < found.len() ==> (#[trigger] found[j]).path != path) ==> {
                &&& with_metadata(files, found, opts).contains_key(path)
                &&& with_metadata(files, found, opts)[path] == metadata_record(found[i])
            },
    decreases found.len(),
{
    if found.len() > 0 {
        let shorter = found.drop_last();
        lemma_metadata_pass_records(files, shorter, opts, path);
        let n = found.len() - 1;
        assert(found.last() == found[n]);
        if forall|j: int| 0 <= j < found.len() ==> (#[trigger] found[j]).path != path {
            assert forall|j: int| 0 <= j < shorter.len() implies (#[trigger] shorter[j]).path
                != path by {
                assert(shorter[j] == found[j]);
            }
        }
        assert forall|i: int|
            0 <= i < found.len() && (#[trigger] found[i]).path == path && selected(path, opts) && (
            forall|j: int| i < j < found.len() ==> (#[trigger] found[j]).path != path) implies {
            &&& with_metadata(files, found, opts).contains_key(path)
            &&& with_metadata(files, found, opts)[path] == metadata_record(found[i])
        } by {
            if i < n {
                assert(shorter[i] == found[i]);
                assert forall|j: int| i < j < shorter.len() implies (#[trigger] shorter[j]).path
                    != path by {
                    assert(shorter[j] == found[j]);
                }
                assert(found[n].path != path);
            }
        }
    }
}

/// A scan that excludes `store` and starts from a snapshot with nothing under
/// `store` ends with nothing under `store`.
pub proof fn lemma_scan_excludes_store(
    files: Map<Seq<char>, FileInfoView>,
    found: Seq<FileMetadataView>,
    opts: ScanOptionsView,
    store: Seq<char>,
)
    requires
        opts.exclude_paths.contains(store),
        forall|path: Seq<char>| files.contains_key(path) ==> !path_starts_with(path, store),
    ensures
        forall|path: Seq<char>| #[trigger]
            with_metadata(files, found, opts).contains_key(path) ==> !path_starts_with(path, store),
{
    assert forall|path: Seq<char>| #[trigger]
        with_metadata(files, found, opts).contains_key(path) implies !path_starts_with(
        path,
        store,
    ) by {
        if path_starts_with(path, store) {
            let k = choose|k: int| 0 <= k < opts.exclude_paths.len() && opts.exclude_paths[k] == store;
            assert(path_starts_with(path, opts.exclude_paths[k]));
            assert(under_any(path, opts.exclude_paths));
            lemma_metadata_pass_skips(files, found, opts, path);
        }
    }
}

/// The content of one file, as it was read.
#[derive(Debug)]
pub struct FileContent {
    /// The path from the data root, in forward-slash form.
    pub path: String,
    pub data: Vec<u8>,
}

/// What was read of a file, as plain values.
pub struct FileContentView {
    pub path: Seq<char>,
    pub data: Seq<u8>,
}

impl View for FileContent {
    type V = FileContentView;

    open spec fn view(&self) -> FileContentView {
        FileContentView { path: self.path@, data: self.data@ }
    }
}

/// What was read, as plain values.
pub open spec fn content_views(contents: Seq<FileContent>) -> Seq<FileContentView> {
    contents.map_values(|file: FileContent| file@)
}

/// A record with the digest of `data` in place of its digest.
pub open spec fn with_digest(info: FileInfoView, f: ChecksumFunction, data: Seq<u8>) -> FileInfoView {
    FileInfoView { checksum: Some(digest_hex(f, data)), ..info }
}

/// The files of a snapshot after the checksum pass over `contents`: each
/// selected file's record takes the digest of what was read. There is no
/// result where a selected file is not tracked.
pub open spec fn with_checksums(
    f: ChecksumFunction,
    files: Map<Seq<char>, FileInfoView>,
    contents: Seq<FileContentView>,
    opts: ScanOptionsView,
) -> Option<Map<Seq<char>, FileInfoView>>
    decreases contents.len(),
{
    if contents.len() == 0 {
        Some(files)
    } else {
        let file = contents.last();
        match with_checksums(f, files, contents.drop_last(), opts) {
            None => None,
            Some(before) => if !selected(file.path, opts) {
                Some(before)
            } else if !before.contains_key(file.path) {
                None
            } else {
                Some(before.insert(file.path, with_digest(before[file.path], f, file.data)))
            },
        }
    }
}

/// The tracked paths that the checksum pass looks at under `opts`: the files
/// to read for it, by increasing path.
pub fn checksum_targets(index: &IndexSnapshot, opts: &ScanOptions) -> (targets: Vec<String>)
    ensures
        string_views(targets@) == index.paths().filter(|path: Seq<char>| selected(path, opts@)),
{
    let ghost wanted = |path: Seq<char>| selected(path, opts@);
    let mut targets: Vec<String> = Vec::new();
    let mut i: usize = 0;
    proof {
        reveal(Seq::filter);
        assert(index.paths().take(0) =~= Seq::<Seq<char>>::empty());
    }
    while i < index.files.len()
        invariant
            i <= index.paths().len(),
            index.paths().len() == index.entries().len(),
            wanted == |path: Seq<char>| selected(path, opts@),
            string_views(targets@) == index.paths().take(i as int).filter(wanted),
        decreases index.paths().len() - i,
    {
        let path = index.files.path_at(i);
        proof {
            reveal(Seq::filter);
            let upto = index.paths().take(i as int + 1);
            assert(upto.drop_last() =~= index.paths().take(i as int));
            assert(upto.last() == path@);
        }
        if check_excludes(path.as_str(), opts) {
            let ghost before = string_views(targets@);
            targets.push(path.clone());
            assert(string_views(targets@) =~= before.push(path@));
        }
        i += 1;
    }
    assert(index.paths().take(i as int) =~= index.paths());
    targets
}

/// The checksum pass: gives the record of every file in `contents` that
/// `opts` selects the digest of what was read of it, under the snapshot's
/// digest function. Size and modification time stay, and so does every other
/// record: a file that `opts` leaves out keeps the digest it had, whatever
/// content is handed in for it. Content for a selected path that is not
/// tracked is refused.
pub fn scan_checksums(index: IndexSnapshot, contents: &Vec<FileContent>, opts: &ScanOptions) -> (result:
    Result<IndexSnapshot, Error>)
    requires
        index.wf(),
        forall|i: int|
            0 <= i < contents.len() && selected((#[trigger] contents[i]).path@, opts@)
                ==> digest_takes(index.checksum_function, contents[i].data@.len()),
    ensures
        match result {
            Ok(scanned) => {
                &&& scanned.wf()
                &&& with_checksums(
                    index.checksum_function,
                    index@.files,
                    content_views(contents@),
                    opts@,
                ) == Some(scanned@.files)
                &&& scanned@ == (SnapshotView { files: scanned@.files, ..index@ })
                &&& forall|path: Seq<char>|
                    !selected(path, opts@) && #[trigger] index@.files.contains_key(path)
                        ==> scanned@.files.contains_key(path) && scanned@.files[path]
                        == index@.files[path]
                &&& forall|path: Seq<char>|
                    !selected(path, opts@) && #[trigger] scanned@.files.contains_key(path)
                        ==> index@.files.contains_key(path)
            },
            Err(e) => {
                &&& e == Error::Path
                &&& with_checksums(
                    index.checksum_function,
                    index@.files,
                    content_views(contents@),
                    opts@,
                ) is None
            },
        },
{
    let mut current = index;
    let f = current.checksum_function;
    let mut i: usize = 0;
    assert(content_views(contents@).take(0) =~= Seq::<FileContentView>::empty());
    while i < contents.len()
        invariant
            i <= contents.len(),
            current.wf(),
            f == index.checksum_function,
            forall|k: int|
                0 <= k < contents.len() && selected((#[trigger] contents[k]).path@, opts@)
                    ==> digest_takes(f, contents[k].data@.len()),
            with_checksums(f, index@.files, content_views(contents@).take(i as int), opts@) == Some(
                current@.files,
            ),
            current@ == (SnapshotView { files: current@.files, ..index@ }),
        decreases contents.len() - i,
    {
        let file = &contents[i];
        proof {
            let upto = content_views(contents@).take(i as int + 1);
            assert(upto.drop_last() =~= content_views(contents@).take(i as int));
            assert(upto.last() == file@);
        }
        if check_excludes(file.path.as_str(), opts) {
            let mut info = match current.get(file.path.as_str()) {
                Some(known) => known.clone(),
                None => {
                    proof {
                        lemma_checksums_fail(
                            f,
                            index@.files,
                            content_views(contents@),
                            opts@,
                            i as int + 1,
                        );
                    }
                    return Err(Error::Path);
                },
            };
            info.checksum = Some(compute(f, file.data.as_slice()));
            current.update(file.path.as_str(), &info);
        }
        i += 1;
    }
    assert(content_views(contents@).take(i as int) =~= content_views(contents@));
    proof {
        assert forall|path: Seq<char>|
            !selected(path, opts@) && #[trigger] index@.files.contains_key(
                path,
            ) implies current@.files.contains_key(path) && current@.files[path]
            == index@.files[path] by {
            lemma_checksum_pass_skips(f, index@.files, content_views(contents@), opts@, path);
        }
        assert forall|path: Seq<char>|
            !selected(path, opts@) && #[trigger] current@.files.contains_key(
                path,
            ) implies index@.files.contains_key(path) by {
            lemma_checksum_pass_skips(f, index@.files, content_views(contents@), opts@, path);
        }
    }
    Ok(current)
}

/// Once the checksum pass has failed on the first files it fails on all.
proof fn lemma_checksums_fail(
    f: ChecksumFunction,
    files: Map<Seq<char>, FileInfoView>,
    contents: Seq<FileContentView>,
    opts: ScanOptionsView,
    n: int,
)
    requires
        0 <= n <= contents.len(),
        with_checksums(f, files, contents.take(n), opts) is None,
    ensures
        with_checksums(f, files, contents, opts) is None,
    decreases contents.len() - n,
{
    if n < contents.len() {
        assert(contents.take(n + 1).drop_last() =~= contents.take(n));
        lemma_checksums_fail(f, files, contents, opts, n + 1);
    } else {
        assert(contents.take(n) =~= contents);
    }
}

/// The checksum pass changes nothing at a path that the options leave out:
/// after a pass restricted to the files flagged as changed, every other file
/// has the digest it had.
pub proof fn lemma_checksum_pass_skips(
    f: ChecksumFunction,
    files: Map<Seq<char>, FileInfoView>,
    contents: Seq<FileContentView>,
    opts: ScanOptionsView,
    path: Seq<char>,
)
    requires
        !selected(path, opts),
        with_checksums(f, files, contents, opts) is Some,
    ensures
        with_checksums(f, files, contents, opts)->0.contains_key(path) == files.contains_key(path),
        files.contains_key(path) ==> with_checksums(f, files, contents, opts)->0[path] == files[path],
    decreases contents.len(),
{
    if contents.len() > 0 {
        lemma_checksum_pass_skips(f, files, contents.drop_last(), opts, path);
    }
}

/// The checksum pass tracks the paths that were tracked, with the sizes and
/// times they had: it changes digests, and only of files whose content it was
/// given.
pub proof fn lemma_checksum_pass_keeps(
    f: ChecksumFunction,
    files: Map<Seq<char>, FileInfoView>,
    contents: Seq<FileContentView>,
    opts: ScanOptionsView,
    path: Seq<char>,
)
    requires
        with_checksums(f, files, contents, opts) is Some,
    ensures
        with_checksums(f, files, contents, opts)->0.contains_key(path) == files.contains_key(path),
        files.contains_key(path) ==> {
            let after = with_checksums(f, files, contents, opts)->0[path];
            &&& after.size_bytes == files[path].size_bytes
            &&& after.modified_timestamp_us == files[path].modified_timestamp_us
            &&& (forall|i: int| 0 <= i < contents.len() ==> (#[trigger] contents[i]).path != path)
                ==> after == files[path]
        },
    decreases contents.len(),
{
    if contents.len() > 0 {
        lemma_checksum_pass_keeps(f, files, contents.drop_last(), opts, path);
        if forall|i: int| 0 <= i < contents.len() ==> (#[trigger] contents[i]).path != path {
            assert forall|i: int| 0 <= i < contents.drop_last().len() implies (
            #[trigger] contents.drop_last()[i]).path != path by {
                assert(contents.drop_last()[i] == contents[i]);
            }
            assert(contents.last() == contents[contents.len() - 1]);
        }
    }
}

/// After the checksum pass every file that is tracked and selected, and
/// whose content was handed in, has the digest of the content that was handed
/// in for it last.
pub proof fn lemma_checksum_pass_covers(
    f: ChecksumFunction,
    files: Map<Seq<char>, FileInfoView>,
    contents: Seq<FileContentView>,
    opts: ScanOptionsView,
    i: int,
)
    requires
        with_checksums(f, files, contents, opts) is Some,
        0 <= i < contents.len(),
        selected(contents[i].path, opts),
        forall|j: int| i < j < contents.len() ==> (#[trigger] contents[j]).path != contents[i].path,
    ensures
        with_checksums(f, files, contents, opts)->0.contains_key(contents[i].path),
        with_checksums(f, files, contents, opts)->0[contents[i].path].checksum == Some(
            digest_hex(f, contents[i].data),
        ),
    decreases contents.len(),
{
    let shorter = contents.drop_last();
    if i < contents.len() - 1 {
        assert(shorter[i] == contents[i]);
        assert forall|j: int| i < j < shorter.len() implies (#[trigger] shorter[j]).path
            != shorter[i].path by {
            assert(shorter[j] == contents[j]);
        }
        lemma_checksum_pass_covers(f, files, shorter, opts, i);
        assert(contents.last() == contents[contents.len() - 1]);
    } else {
        assert(contents.last() == contents[i]);
    }
}

/// A record that takes over the digest of `stored`, the record that an
/// earlier snapshot has for the same path: it does where it has no digest of
/// its own and size and modification time are those of the stored record.
pub open spec fn with_stored_checksum(info: FileInfoView, stored: Option<FileInfoView>) -> FileInfoView {
    match stored {
        Some(earlier) => if info.checksum is None && earlier.size_bytes == info.size_bytes
            && earlier.modified_timestamp_us == info.modified_timestamp_us {
            FileInfoView { checksum: earlier.checksum, ..info }
        } else {
            info
        },
        None => info,
    }
}

/// The record of `path` in `files`, if there is one.
pub open spec fn record_of(files: Map<Seq<char>, FileInfoView>, path: Seq<char>) -> Option<
    FileInfoView,
> {
    if files.contains_key(path) {
        Some(files[path])
    } else {
        None
    }
}

/// The files of a snapshot with the digests that `stored` has for the files
/// whose metadata has not changed.
pub open spec fn with_stored_checksums(
    files: Map<Seq<char>, FileInfoView>,
    stored: Map<Seq<char>, FileInfoView>,
) -> Map<Seq<char>, FileInfoView> {
    Map::new(
        |path: Seq<char>| files.contains_key(path),
        |path: Seq<char>| with_stored_checksum(files[path], record_of(stored, path)),
    )
}

/// Gives every file of `index` that has no digest yet the digest that `from`
/// records for its path, where size and modification time are the same in
/// both. A file whose metadata has changed is left for the checksum pass.
pub fn copy_checksums(index: IndexSnapshot, from: &IndexSnapshot) -> (result: IndexSnapshot)
    requires
        index.wf(),
        from.wf(),
    ensures
        result.wf(),
        result@ == (SnapshotView {
            files: with_stored_checksums(index@.files, from@.files),
            ..index@
        }),
{
    let paths = index.list();
    let ghost names = index.paths();
    let ghost es = index.entries();
    let mut current = index;
    let mut i: usize = 0;
    assert(names.len() == es.len());
    assert forall|k: int| 0 <= k < es.len() implies #[trigger] names[k] == es[k].0 by {}
    while i < paths.len()
        invariant
            i <= paths.len(),
            index.wf(),
            from.wf(),
            current.wf(),
            es == index.entries(),
            names == string_views(paths@),
            names.len() == es.len(),
            forall|k: int| 0 <= k < es.len() ==> #[trigger] names[k] == es[k].0,
            current@ == (SnapshotView { files: current@.files, ..index@ }),
            forall|path: Seq<char>|
                current@.files.contains_key(path) == #[trigger] index@.files.contains_key(path),
            forall|path: Seq<char>| #[trigger]
                index@.files.contains_key(path) ==> current@.files[path] == (if exists|k: int|
                    0 <= k < i && #[trigger] names[k] == path {
                    with_stored_checksum(index@.files[path], record_of(from@.files, path))
                } else {
                    index@.files[path]
                }),
        decreases paths.len() - i,
    {
        let path = &paths[i];
        assert(string_views(paths@)[i as int] == path@);
        assert(names[i as int] == es[i as int].0);
        proof {
            crate::table::lemma_lookup(es, i as int);
            assert forall|k: int| 0 <= k < i implies #[trigger] names[k] != path@ by {
                lemma_sorted_distinct(es, k, i as int);
                assert(names[k] == es[k].0);
            }
        }
        let ghost before = current@.files;
        let mut chosen: Option<IndexFileInfo> = None;
        match (current.get(path.as_str()), from.get(path.as_str())) {
            (Some(info), Some(earlier)) => {
                if info.checksum.is_none() && earlier.size_bytes == info.size_bytes && same_time(
                    &earlier.modified_timestamp_us,
                    &info.modified_timestamp_us,
                ) {
                    chosen = Some(
                        IndexFileInfo {
                            size_bytes: info.size_bytes,
                            modified_timestamp_us: info.modified_timestamp_us,
                            checksum: opt_string_clone(&earlier.checksum),
                        },
                    );
                }
            },
            _ => {},
        }
        match chosen {
            Some(info) => {
                current.update(path.as_str(), &info);
            },
            None => {
                assert(with_stored_checksum(index@.files[path@], record_of(from@.files, path@))
                    == index@.files[path@]);
            },
        }
        proof {
            let now = current@.files;
            let done = path@;
            assert(now[done] == with_stored_checksum(index@.files[done], record_of(from@.files, done)));
            assert forall|q: Seq<char>| #[trigger] index@.files.contains_key(q) implies now[q] == (
            if exists|k: int| 0 <= k < i + 1 && #[trigger] names[k] == q {
                with_stored_checksum(index@.files[q], record_of(from@.files, q))
            } else {
                index@.files[q]
            }) by {
                if q == done {
                    assert(names[i as int] == q);
                } else {
                    assert(now[q] == before[q]);
                    if exists|k: int| 0 <= k < i + 1 && #[trigger] names[k] == q {
                        let k = choose|k: int| 0 <= k < i + 1 && #[trigger] names[k] == q;
                        assert(k < i);
                    }
                }
            }
        }
        i += 1;
    }
    proof {
        assert forall|q: Seq<char>| #[trigger] index@.files.contains_key(q) implies current@.files[q]
            == with_stored_checksum(index@.files[q], record_of(from@.files, q)) by {
            let k = index_of(es, q);
            assert(has_path(es, q));
            assert(names[k] == es[k].0);
        }
        assert(current@.files =~= with_stored_checksums(index@.files, from@.files));
    }
    current
}

} // verus!
