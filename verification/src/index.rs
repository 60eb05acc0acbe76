//! Snapshots: the tracked paths of a directory tree, each with its size, its
//! modification time and the digest of its content.

use vstd::prelude::*;
pub use crate::reference::IndexReference;
pub use crate::store::IndexDirectory;
use crate::checksum::ChecksumFunction;
use crate::paths::{path_starts_with, starts_with};
use crate::table::{
    index_of, lemma_map_len, lemma_take_all, lemma_take_next, lemma_total_size_take, to_map,
    total_size, Entries, FileTable,
};
use crate::text::{opt_string_clone, opt_view};

verus! {

/// What a snapshot records of one file.
#[derive(Debug, PartialEq, Eq)]
pub struct IndexFileInfo {
    pub size_bytes: u64,
    /// Microseconds since the epoch.
    pub modified_timestamp_us: Option<i64>,
    /// The digest of the content: absent while only metadata was collected.
    pub checksum: Option<String>,
}

/// A file's record as plain values.
pub struct FileInfoView {
    pub size_bytes: u64,
    pub modified_timestamp_us: Option<i64>,
    pub checksum: Option<Seq<char>>,
}

impl View for IndexFileInfo {
    type V = FileInfoView;

    open spec fn view(&self) -> FileInfoView {
        FileInfoView {
            size_bytes: self.size_bytes,
            modified_timestamp_us: self.modified_timestamp_us,
            checksum: opt_view(self.checksum),
        }
    }
}

impl Clone for IndexFileInfo {
    fn clone(&self) -> (copy: Self)
        ensures
            copy@ == self@,
    {
        IndexFileInfo {
            size_bytes: self.size_bytes,
            modified_timestamp_us: self.modified_timestamp_us,
            checksum: opt_string_clone(&self.checksum),
        }
    }
}

/// The state of a directory tree at one point in time: a record for each
/// tracked path, the digest function of the store, and a message.
#[derive(Debug)]
pub struct IndexSnapshot {
    pub checksum_function: ChecksumFunction,
    pub files: FileTable,
    pub message: Option<String>,
}

/// A snapshot as plain values. The paths are relative to the data root, in
/// forward-slash form.
pub struct SnapshotView {
    pub checksum_function: ChecksumFunction,
    pub files: Map<Seq<char>, FileInfoView>,
    pub message: Option<Seq<char>>,
}

impl View for IndexSnapshot {
    type V = SnapshotView;

    open spec fn view(&self) -> SnapshotView {
        SnapshotView {
            checksum_function: self.checksum_function,
            files: self.files@,
            message: opt_view(self.message),
        }
    }
}

impl Clone for IndexSnapshot {
    fn clone(&self) -> (copy: Self)
        ensures
            copy.entries() == self.entries(),
            copy@ == self@,
    {
        IndexSnapshot {
            checksum_function: self.checksum_function,
            files: self.files.clone(),
            message: opt_string_clone(&self.message),
        }
    }
}

impl IndexSnapshot {
    /// The paths with their records, by increasing path.
    pub open spec fn entries(&self) -> Entries {
        self.files.entries()
    }

    /// The snapshot's invariant: the paths of its table strictly increase.
    /// Every function that makes or changes a snapshot keeps it.
    pub open spec fn wf(&self) -> bool {
        self.files.wf()
    }

    /// The paths of the snapshot, in order.
    pub open spec fn paths(&self) -> Seq<Seq<char>> {
        self.entries().map_values(|entry: (Seq<char>, FileInfoView)| entry.0)
    }

    /// A snapshot without files and without a message.
    pub fn new(checksum_function: ChecksumFunction) -> (snapshot: IndexSnapshot)
        ensures
            snapshot.wf(),
            snapshot.entries() == Seq::<(Seq<char>, FileInfoView)>::empty(),
            snapshot@ == (SnapshotView {
                checksum_function,
                files: Map::<Seq<char>, FileInfoView>::empty(),
                message: None,
            }),
    {
        IndexSnapshot { checksum_function, files: FileTable::new(), message: None }
    }

    /// The tracked paths, by increasing path.
    pub fn list(&self) -> (paths: Vec<String>)
        ensures
            paths@.map_values(|path: String| path@) == self.paths(),
    {
        let mut paths: Vec<String> = Vec::new();
        let mut i: usize = 0;
        while i < self.files.len()
            invariant
                i <= self.entries().len(),
                paths@.map_values(|path: String| path@) == self.paths().take(i as int),
            decreases self.entries().len() - i,
        {
            let ghost before = paths@.map_values(|path: String| path@);
            let path = self.files.path_at(i).clone();
            assert(path@ == self.paths()[i as int]);
            paths.push(path);
            assert(paths@.map_values(|path: String| path@) =~= before.push(self.paths()[i as int]));
            assert(paths@.map_values(|path: String| path@) =~= self.paths().take(i as int + 1));
            i += 1;
        }
        assert(self.paths().take(i as int) =~= self.paths());
        paths
    }

    /// The record of `path`, if it is tracked.
    pub fn get(&self, path: &str) -> (r: Option<&IndexFileInfo>)
        requires
            self.wf(),
        ensures
            match r {
                Some(info) => self@.files.contains_key(path@) && info@ == self@.files[path@],
                None => !self@.files.contains_key(path@),
            },
    {
        self.files.get(path)
    }

    /// Records `info` for `path`, in place of an earlier record if there is
    /// one.
    pub fn update(&mut self, path: &str, info: &IndexFileInfo)
        requires
            old(self).wf(),
        ensures
            final(self).wf(),
            final(self)@ == (SnapshotView {
                files: old(self)@.files.insert(path@, info@),
                ..old(self)@
            }),
    {
        self.files.insert(path.to_owned(), info.clone());
    }

    /// Forgets `path`. Nothing changes if it is not tracked.
    pub fn delete(&mut self, path: &str)
        requires
            old(self).wf(),
        ensures
            final(self).wf(),
            final(self)@ == (SnapshotView {
                files: old(self)@.files.remove(path@),
                ..old(self)@
            }),
    {
        self.files.remove(path);
    }

    /// The number of files.
    pub fn total_file_count(&self) -> (count: u64)
        ensures
            count == self.entries().len(),
            self.wf() ==> count == self@.files.dom().len(),
    {
        proof {
            if self.wf() {
                lemma_map_len(self.entries());
            }
        }
        self.files.len() as u64
    }

    /// The sizes of all files, added up, unless the sum is too large for 64
    /// bits.
    pub fn checked_total_size_bytes(&self) -> (sum: Option<u64>)
        ensures
            sum == (if total_size(self.entries()) <= u64::MAX {
                Some(total_size(self.entries()) as u64)
            } else {
                None
            }),
    {
        let ghost es = self.entries();
        let mut sum: u64 = 0;
        let mut i: usize = 0;
        assert(es.take(0) =~= Seq::<(Seq<char>, FileInfoView)>::empty());
        while i < self.files.len()
            invariant
                es == self.entries(),
                i <= self.entries().len(),
                sum == total_size(es.take(i as int)),
            decreases self.entries().len() - i,
        {
            proof {
                lemma_total_size_take(es, i as int);
                lemma_total_size_take(es, i as int + 1);
            }
            let size: u64 = self.files.info_at(i).size_bytes;
            if size > u64::MAX - sum {
                return None;
            }
            sum = sum + size;
            i += 1;
        }
        assert(es.take(i as int) =~= es);
        Some(sum)
    }

    /// The sizes of all files, added up.
    pub fn total_size_bytes(&self) -> (sum: u64)
        requires
            total_size(self.entries()) <= u64::MAX,
        ensures
            sum == total_size(self.entries()),
    {
        match self.checked_total_size_bytes() {
            Some(sum) => sum,
            None => 0,
        }
    }

    /// Forgets every path that falls under `prefix`.
    pub fn clear(&mut self, prefix: &str)
        requires
            old(self).wf(),
        ensures
            final(self).wf(),
            final(self)@ == (SnapshotView {
                files: without_prefix(old(self)@.files, prefix@),
                ..old(self)@
            }),
    {
        let ghost start = self.files@;
        let mut i: usize = 0;
        while i < self.files.len()
            invariant
                self.files.wf(),
                i <= self.files.entries().len(),
                self.checksum_function == old(self).checksum_function,
                self.message == old(self).message,
                start == old(self).files@,
                forall|j: int|
                    0 <= j < i ==> !path_starts_with((#[trigger] self.files.entries()[j]).0, prefix@),
                forall|path: Seq<char>| #[trigger]
                    self.files@.contains_key(path) ==> start.contains_key(path)
                        && self.files@[path] == start[path],
                forall|path: Seq<char>|
                    start.contains_key(path) && !path_starts_with(path, prefix@)
                        ==> #[trigger] self.files@.contains_key(path),
            decreases self.files.entries().len() - i,
        {
            if starts_with(self.files.path_at(i).as_str(), prefix) {
                self.files.remove_at(i);
            } else {
                i += 1;
            }
        }
        proof {
            let es = self.files.entries();
            assert forall|path: Seq<char>| #[trigger]
                self.files@.contains_key(path) implies !path_starts_with(path, prefix@) by {
                let k = index_of(es, path);
                assert(es[k].0 == path);
            }
            assert(self.files@ =~= without_prefix(start, prefix@));
        }
    }

    /// Takes over every record of `other`, in place of the record that the
    /// path had here, if it had one.
    pub fn merge(&mut self, other: &IndexSnapshot)
        requires
            old(self).wf(),
            other.wf(),
        ensures
            final(self).wf(),
            final(self)@ == (SnapshotView {
                files: old(self)@.files.union_prefer_right(other@.files),
                ..old(self)@
            }),
    {
        let ghost start = self.files@;
        let ghost theirs = other.entries();
        let mut i: usize = 0;
        proof {
            lemma_take_all(theirs);
            assert(start.union_prefer_right(Map::<Seq<char>, FileInfoView>::empty()) =~= start);
        }
        while i < other.files.len()
            invariant
                self.files.wf(),
                other.wf(),
                theirs == other.entries(),
                i <= theirs.len(),
                self.checksum_function == old(self).checksum_function,
                self.message == old(self).message,
                start == old(self).files@,
                self.files@ == start.union_prefer_right(to_map(theirs.take(i as int))),
            decreases theirs.len() - i,
        {
            let path = other.files.path_at(i).clone();
            let info = other.files.info_at(i).clone();
            proof {
                lemma_take_next(theirs, i as int);
                let before = to_map(theirs.take(i as int));
                assert(start.union_prefer_right(before.insert(path@, info@))
                    =~= start.union_prefer_right(before).insert(path@, info@));
            }
            self.files.insert(path, info);
            i += 1;
        }
        proof {
            lemma_take_all(theirs);
        }
    }
}

/// Whether two optional times are the same.
pub fn same_time(a: &Option<i64>, b: &Option<i64>) -> (r: bool)
    ensures
        r == (*a == *b),
{
    match (a, b) {
        (None, None) => true,
        (Some(x), Some(y)) => *x == *y,
        _ => false,
    }
}

/// The records of `files` whose paths do not fall under `prefix`.
pub open spec fn without_prefix(files: Map<Seq<char>, FileInfoView>, prefix: Seq<char>) -> Map<
    Seq<char>,
    FileInfoView,
> {
    Map::new(
        |path: Seq<char>| files.contains_key(path) && !path_starts_with(path, prefix),
        |path: Seq<char>| files[path],
    )
}

} // verus!
