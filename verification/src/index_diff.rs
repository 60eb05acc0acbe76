//! The difference between two snapshots: what was created, modified, deleted
//! or renamed between a target snapshot and the actual state.

use vstd::prelude::*;
use crate::index::{same_time, FileInfoView, IndexFileInfo, IndexSnapshot};
use crate::paths::{starts_with_any, under_any};
use crate::table::{has_path, lemma_lookup, lemma_sorted_distinct, sorted, to_map, Entries};
use crate::text::{
    lemma_seq_lt_asymmetric, lemma_seq_lt_total, lemma_seq_lt_transitive, opt_string_eq, seq_lt,
    str_lt, string_views,
};

verus! {

/// One change between two snapshots.
#[derive(Debug, PartialEq, Eq)]
pub enum IndexDiff {
    /// The file is in the actual snapshot only.
    Created { file: String },
    /// The file is in both, with another modification time.
    MetadataModified { file: String },
    /// The file is in both, with another size or another digest.
    Modified { file: String },
    /// The file is in the target snapshot only.
    Deleted { file: String },
    /// A file of the target snapshot is in the actual one under another path.
    Renamed { from: String, to: String },
}

/// The changes between two snapshots, in order.
pub type IndexDiffList = Vec<IndexDiff>;

/// A change as plain values.
pub enum DiffView {
    Created { file: Seq<char> },
    MetadataModified { file: Seq<char> },
    Modified { file: Seq<char> },
    Deleted { file: Seq<char> },
    Renamed { from: Seq<char>, to: Seq<char> },
}

impl View for IndexDiff {
    type V = DiffView;

    open spec fn view(&self) -> DiffView {
        match *self {
            IndexDiff::Created { file } => DiffView::Created { file: file@ },
            IndexDiff::MetadataModified { file } => DiffView::MetadataModified { file: file@ },
            IndexDiff::Modified { file } => DiffView::Modified { file: file@ },
            IndexDiff::Deleted { file } => DiffView::Deleted { file: file@ },
            IndexDiff::Renamed { from, to } => DiffView::Renamed { from: from@, to: to@ },
        }
    }
}

impl Clone for IndexDiff {
    fn clone(&self) -> (copy: Self)
        ensures
            copy@ == self@,
    {
        match self {
            IndexDiff::Created { file } => IndexDiff::Created { file: file.clone() },
            IndexDiff::MetadataModified { file } => IndexDiff::MetadataModified {
                file: file.clone(),
            },
            IndexDiff::Modified { file } => IndexDiff::Modified { file: file.clone() },
            IndexDiff::Deleted { file } => IndexDiff::Deleted { file: file.clone() },
            IndexDiff::Renamed { from, to } => IndexDiff::Renamed {
                from: from.clone(),
                to: to.clone(),
            },
        }
    }
}

/// A list of changes as plain values.
pub open spec fn diff_views(diffs: Seq<IndexDiff>) -> Seq<DiffView> {
    diffs.map_values(|d: IndexDiff| d@)
}

/// An optional change as plain values.
pub open spec fn opt_diff_view(d: Option<IndexDiff>) -> Option<DiffView> {
    match d {
        Some(change) => Some(change@),
        None => None,
    }
}

/// The path that a change is about; of a rename, the path that the file had.
pub open spec fn change_path(d: DiffView) -> Seq<char> {
    match d {
        DiffView::Created { file } => file,
        DiffView::MetadataModified { file } => file,
        DiffView::Modified { file } => file,
        DiffView::Deleted { file } => file,
        DiffView::Renamed { from, to } => from,
    }
}

/// How the record of a file that is in both snapshots has changed. Another
/// modification time is a change of metadata, whatever else differs. With the
/// same time, another size is a modification, and so is another digest where
/// the actual record has one.
pub open spec fn compare_records(path: Seq<char>, target: FileInfoView, actual: FileInfoView) -> Option<
    DiffView,
> {
    if target.modified_timestamp_us != actual.modified_timestamp_us {
        Some(DiffView::MetadataModified { file: path })
    } else if target.size_bytes != actual.size_bytes {
        Some(DiffView::Modified { file: path })
    } else if actual.checksum is Some && target.checksum != actual.checksum {
        Some(DiffView::Modified { file: path })
    } else {
        None
    }
}

/// What the difference says of one file of the target snapshot: how its
/// record changed where the actual snapshot has the path, else that it was
/// deleted, unless a rename has taken it as its source.
pub open spec fn target_change(
    entry: (Seq<char>, FileInfoView),
    actual: Map<Seq<char>, FileInfoView>,
    consumed: Set<Seq<char>>,
) -> Option<DiffView> {
    if actual.contains_key(entry.0) {
        compare_records(entry.0, entry.1, actual[entry.0])
    } else if consumed.contains(entry.0) {
        None
    } else {
        Some(DiffView::Deleted { file: entry.0 })
    }
}

/// The changes of the files of the target snapshot, by increasing path.
pub open spec fn target_changes(
    target: Entries,
    actual: Map<Seq<char>, FileInfoView>,
    consumed: Set<Seq<char>>,
) -> Seq<DiffView>
    decreases target.len(),
{
    if target.len() == 0 {
        Seq::<DiffView>::empty()
    } else {
        let before = target_changes(target.drop_last(), actual, consumed);
        match target_change(target.last(), actual, consumed) {
            Some(change) => before.push(change),
            None => before,
        }
    }
}

/// Whether the deleted file `entry` can be what the new file with the record
/// `created` was renamed from: no rename has taken it yet, it has a digest,
/// and digest, size and modification time are those of the new file.
pub open spec fn rename_candidate(
    entry: (Seq<char>, FileInfoView),
    actual: Map<Seq<char>, FileInfoView>,
    consumed: Set<Seq<char>>,
    created: FileInfoView,
) -> bool {
    &&& !actual.contains_key(entry.0)
    &&& !consumed.contains(entry.0)
    &&& entry.1.checksum is Some
    &&& created.checksum == entry.1.checksum
    &&& created.size_bytes == entry.1.size_bytes
    &&& created.modified_timestamp_us == entry.1.modified_timestamp_us
}

/// The position from `from` on of the first candidate in `target`, which is
/// the one with the smallest path; the length of `target` if there is none.
pub open spec fn first_candidate(
    target: Entries,
    actual: Map<Seq<char>, FileInfoView>,
    consumed: Set<Seq<char>>,
    created: FileInfoView,
    from: int,
) -> int
    decreases target.len() - from,
{
    if from >= target.len() {
        target.len() as int
    } else if rename_candidate(target[from], actual, consumed, created) {
        from
    } else {
        first_candidate(target, actual, consumed, created, from + 1)
    }
}

/// The outcome of going through the files of the actual snapshot.
pub struct ActualPass {
    /// A rename or a creation for each file that the target snapshot lacks.
    pub changes: Seq<DiffView>,
    /// The deleted paths that the renames have taken as their sources.
    pub consumed: Set<Seq<char>>,
}

/// Going through the first `n` files of the actual snapshot, by increasing
/// path. A file that the target snapshot lacks was renamed from the
/// candidate with the smallest path, which no later rename can take again;
/// it was created where there is no candidate.
pub open spec fn actual_pass(target: Entries, actual: Entries, n: int) -> ActualPass
    decreases n,
{
    if n <= 0 {
        ActualPass { changes: Seq::<DiffView>::empty(), consumed: Set::<Seq<char>>::empty() }
    } else {
        let before = actual_pass(target, actual, n - 1);
        let entry = actual[n - 1];
        if has_path(target, entry.0) {
            before
        } else {
            let k = first_candidate(target, to_map(actual), before.consumed, entry.1, 0);
            if k < target.len() {
                ActualPass {
                    changes: before.changes.push(
                        DiffView::Renamed { from: target[k].0, to: entry.0 },
                    ),
                    consumed: before.consumed.insert(target[k].0),
                }
            } else {
                ActualPass {
                    changes: before.changes.push(DiffView::Created { file: entry.0 }),
                    consumed: before.consumed,
                }
            }
        }
    }
}

/// The changes from `target` to `actual`: first what became of each file of
/// the target snapshot, by increasing path, without the deletions that a
/// rename accounts for; then a rename or a creation for each file that only
/// the actual snapshot has, by increasing path.
pub open spec fn diff_spec(target: Entries, actual: Entries) -> Seq<DiffView> {
    let pass = actual_pass(target, actual, actual.len() as int);
    target_changes(target, to_map(actual), pass.consumed) + pass.changes
}

/// How the record of the file at `fpath` has changed from `target` to
/// `actual`, if it has.
pub fn compare_finfo(fpath: &String, target: &IndexFileInfo, actual: &IndexFileInfo) -> (change:
    Option<IndexDiff>)
    ensures
        opt_diff_view(change) == compare_records(fpath@, target@, actual@),
{
    if !same_time(&target.modified_timestamp_us, &actual.modified_timestamp_us) {
        return Some(IndexDiff::MetadataModified { file: fpath.clone() });
    }
    if target.size_bytes != actual.size_bytes {
        return Some(IndexDiff::Modified { file: fpath.clone() });
    }
    if actual.checksum.is_some() && !opt_string_eq(&target.checksum, &actual.checksum) {
        return Some(IndexDiff::Modified { file: fpath.clone() });
    }
    None
}

/// For each file of `target`, whether `actual` lacks its path.
fn absent_flags(target: &IndexSnapshot, actual: &IndexSnapshot) -> (flags: Vec<bool>)
    requires
        target.wf(),
        actual.wf(),
    ensures
        flags.len() == target.entries().len(),
        forall|j: int|
            0 <= j < flags.len() ==> flags[j] == !actual@.files.contains_key(
                (#[trigger] target.entries()[j]).0,
            ),
{
    let mut flags: Vec<bool> = Vec::new();
    let mut j: usize = 0;
    while j < target.files.len()
        invariant
            actual.wf(),
            j <= target.entries().len(),
            flags.len() == j,
            forall|k: int|
                0 <= k < j ==> flags[k] == !actual@.files.contains_key(
                    (#[trigger] target.entries()[k]).0,
                ),
        decreases target.entries().len() - j,
    {
        let (_, known) = actual.files.find(target.files.path_at(j).as_str());
        flags.push(!known);
        j += 1;
    }
    flags
}

/// `n` times `false`.
fn all_false(n: usize) -> (flags: Vec<bool>)
    ensures
        flags.len() == n,
        forall|j: int| 0 <= j < n ==> !flags[j],
{
    let mut flags: Vec<bool> = Vec::new();
    let mut j: usize = 0;
    while j < n
        invariant
            j <= n,
            flags.len() == j,
            forall|k: int| 0 <= k < j ==> !flags[k],
        decreases n - j,
    {
        flags.push(false);
        j += 1;
    }
    flags
}

/// The position in `target` of the first candidate for the source of a
/// rename to a file with the record `created`.
fn find_candidate(
    target: &IndexSnapshot,
    absent: &Vec<bool>,
    consumed: &Vec<bool>,
    created: &IndexFileInfo,
    Ghost(actual): Ghost<Map<Seq<char>, FileInfoView>>,
    Ghost(taken): Ghost<Set<Seq<char>>>,
) -> (k: usize)
    requires
        absent.len() == target.entries().len(),
        consumed.len() == target.entries().len(),
        forall|j: int|
            0 <= j < absent.len() ==> absent[j] == !actual.contains_key(
                (#[trigger] target.entries()[j]).0,
            ),
        forall|j: int|
            0 <= j < consumed.len() ==> consumed[j] == taken.contains(
                (#[trigger] target.entries()[j]).0,
            ),
    ensures
        k == first_candidate(target.entries(), actual, taken, created@, 0),
        k <= target.entries().len(),
{
    let ghost es = target.entries();
    let mut j: usize = 0;
    while j < target.files.len()
        invariant
            es == target.entries(),
            j <= es.len(),
            absent.len() == es.len(),
            consumed.len() == es.len(),
            forall|k: int|
                0 <= k < absent.len() ==> absent[k] == !actual.contains_key((#[trigger] es[k]).0),
            forall|k: int|
                0 <= k < consumed.len() ==> consumed[k] == taken.contains((#[trigger] es[k]).0),
            first_candidate(es, actual, taken, created@, 0) == first_candidate(
                es,
                actual,
                taken,
                created@,
                j as int,
            ),
        decreases es.len() - j,
    {
        let info = target.files.info_at(j);
        assert(info@ == es[j as int].1);
        if absent[j] && !consumed[j] && info.checksum.is_some() && opt_string_eq(
            &created.checksum,
            &info.checksum,
        ) && created.size_bytes == info.size_bytes && same_time(
            &created.modified_timestamp_us,
            &info.modified_timestamp_us,
        ) {
            assert(rename_candidate(es[j as int], actual, taken, created@));
            return j;
        }
        assert(!rename_candidate(es[j as int], actual, taken, created@));
        j += 1;
    }
    j
}

/// The changes from `target` to `actual`. A file that only `target` has was
/// deleted, one that only `actual` has was created, unless the two have the
/// same digest, size and modification time: then the file was renamed. Each
/// deleted file is the source of one rename at most, and of the candidates
/// for a rename the one with the smallest path is taken. A file in both is
/// listed where its record changed.
pub fn diff(target: &IndexSnapshot, actual: &IndexSnapshot) -> (diffs: IndexDiffList)
    requires
        target.wf(),
        actual.wf(),
    ensures
        diff_views(diffs@) == diff_spec(target.entries(), actual.entries()),
{
    let ghost te = target.entries();
    let ghost ae = actual.entries();
    let absent = absent_flags(target, actual);
    let n: usize = target.files.len();
    let mut consumed = all_false(n);
    let mut tail: Vec<IndexDiff> = Vec::new();
    let mut i: usize = 0;
    while i < actual.files.len()
        invariant
            te == target.entries(),
            ae == actual.entries(),
            sorted(te),
            sorted(ae),
            n == te.len(),
            i <= ae.len(),
            absent.len() == n,
            consumed.len() == n,
            forall|j: int|
                0 <= j < n ==> absent[j] == !to_map(ae).contains_key((#[trigger] te[j]).0),
            forall|j: int|
                0 <= j < n ==> consumed[j] == actual_pass(te, ae, i as int).consumed.contains(
                    (#[trigger] te[j]).0,
                ),
            diff_views(tail@) == actual_pass(te, ae, i as int).changes,
        decreases ae.len() - i,
    {
        let path = actual.files.path_at(i);
        let info = actual.files.info_at(i);
        let ghost before = actual_pass(te, ae, i as int);
        let ghost listed = diff_views(tail@);
        let (_, known) = target.files.find(path.as_str());
        if !known {
            let k = find_candidate(
                target,
                &absent,
                &consumed,
                info,
                Ghost(to_map(ae)),
                Ghost(before.consumed),
            );
            if k < n {
                let change = IndexDiff::Renamed {
                    from: target.files.path_at(k).clone(),
                    to: path.clone(),
                };
                tail.push(change);
                consumed.set(k, true);
                proof {
                    assert(diff_views(tail@) =~= listed.push(
                        DiffView::Renamed { from: te[k as int].0, to: ae[i as int].0 },
                    ));
                    assert forall|j: int| 0 <= j < n implies consumed[j] == before.consumed.insert(
                        te[k as int].0,
                    ).contains((#[trigger] te[j]).0) by {
                        if j != k {
                            lemma_sorted_distinct(te, j, k as int);
                        }
                    }
                }
            } else {
                tail.push(IndexDiff::Created { file: path.clone() });
                assert(diff_views(tail@) =~= listed.push(DiffView::Created { file: ae[i as int].0 }));
            }
        }
        i += 1;
    }
    let ghost pass = actual_pass(te, ae, ae.len() as int);
    let mut head: Vec<IndexDiff> = Vec::new();
    let mut j: usize = 0;
    assert(te.take(0) =~= Seq::<(Seq<char>, FileInfoView)>::empty());
    while j < n
        invariant
            te == target.entries(),
            ae == actual.entries(),
            actual.wf(),
            n == te.len(),
            j <= n,
            absent.len() == n,
            consumed.len() == n,
            forall|k: int|
                0 <= k < n ==> absent[k] == !to_map(ae).contains_key((#[trigger] te[k]).0),
            forall|k: int| 0 <= k < n ==> consumed[k] == pass.consumed.contains((#[trigger] te[k]).0),
            diff_views(head@) == target_changes(te.take(j as int), to_map(ae), pass.consumed),
        decreases n - j,
    {
        let path = target.files.path_at(j);
        let info = target.files.info_at(j);
        let ghost listed = diff_views(head@);
        proof {
            let upto = te.take(j as int + 1);
            assert(upto.drop_last() =~= te.take(j as int));
            assert(upto.last() == te[j as int]);
        }
        if !absent[j] {
            if let Some(other) = actual.get(path.as_str()) {
                if let Some(change) = compare_finfo(path, info, other) {
                    let ghost seen = change@;
                    head.push(change);
                    assert(diff_views(head@) =~= listed.push(seen));
                }
            }
        } else if !consumed[j] {
            head.push(IndexDiff::Deleted { file: path.clone() });
            assert(diff_views(head@) =~= listed.push(DiffView::Deleted { file: te[j as int].0 }));
        }
        j += 1;
    }
    assert(te.take(j as int) =~= te);
    let ghost first = diff_views(head@);
    let ghost second = diff_views(tail@);
    head.append(&mut tail);
    assert(diff_views(head@) =~= first + second);
    head
}

/// The path of each change; of a rename, the path that the file had.
pub fn list_files(diffs: &IndexDiffList) -> (files: Vec<String>)
    ensures
        string_views(files@) == diff_views(diffs@).map_values(|d: DiffView| change_path(d)),
{
    let mut files: Vec<String> = Vec::new();
    let mut i: usize = 0;
    while i < diffs.len()
        invariant
            i <= diffs.len(),
            string_views(files@) == diff_views(diffs@).map_values(|d: DiffView| change_path(d)).take(
                i as int,
            ),
        decreases diffs.len() - i,
    {
        let ghost before = string_views(files@);
        let file = match &diffs[i] {
            IndexDiff::Deleted { file } => file.clone(),
            IndexDiff::Modified { file } => file.clone(),
            IndexDiff::MetadataModified { file } => file.clone(),
            IndexDiff::Renamed { from, .. } => from.clone(),
            IndexDiff::Created { file } => file.clone(),
        };
        assert(file@ == change_path(diffs[i as int]@));
        files.push(file);
        assert(string_views(files@) =~= before.push(change_path(diffs[i as int]@)));
        assert(string_views(files@) =~= diff_views(diffs@).map_values(
            |d: DiffView| change_path(d),
        ).take(i as int + 1));
        i += 1;
    }
    assert(diff_views(diffs@).map_values(|d: DiffView| change_path(d)).take(i as int)
        =~= diff_views(diffs@).map_values(|d: DiffView| change_path(d)));
    files
}

/// The changes whose path falls under one of `prefixes`, in their order. A
/// rename goes by the path that the file had.
pub fn filter_by_paths(diffs: &IndexDiffList, prefixes: &Vec<String>) -> (kept: IndexDiffList)
    ensures
        diff_views(kept@) == diff_views(diffs@).filter(
            |d: DiffView| under_any(change_path(d), string_views(prefixes@)),
        ),
{
    let ghost wanted = |d: DiffView| under_any(change_path(d), string_views(prefixes@));
    let mut kept: Vec<IndexDiff> = Vec::new();
    let mut i: usize = 0;
    proof {
        reveal(Seq::filter);
        assert(diff_views(diffs@).take(0) =~= Seq::<DiffView>::empty());
    }
    while i < diffs.len()
        invariant
            i <= diffs.len(),
            wanted == |d: DiffView| under_any(change_path(d), string_views(prefixes@)),
            diff_views(kept@) == diff_views(diffs@).take(i as int).filter(wanted),
        decreases diffs.len() - i,
    {
        let change = &diffs[i];
        proof {
            reveal(Seq::filter);
            let upto = diff_views(diffs@).take(i as int + 1);
            assert(upto.drop_last() =~= diff_views(diffs@).take(i as int));
            assert(upto.last() == change@);
        }
        let under = match change {
            IndexDiff::Deleted { file } => starts_with_any(file.as_str(), prefixes),
            IndexDiff::Modified { file } => starts_with_any(file.as_str(), prefixes),
            IndexDiff::MetadataModified { file } => starts_with_any(file.as_str(), prefixes),
            IndexDiff::Renamed { from, .. } => starts_with_any(from.as_str(), prefixes),
            IndexDiff::Created { file } => starts_with_any(file.as_str(), prefixes),
        };
        if under {
            let ghost before = diff_views(kept@);
            kept.push(change.clone());
            assert(diff_views(kept@) =~= before.push(change@));
        }
        i += 1;
    }
    assert(diff_views(diffs@).take(i as int) =~= diff_views(diffs@));
    kept
}

/// A snapshot does not differ from itself.
pub proof fn lemma_diff_same(es: Entries)
    requires
        sorted(es),
    ensures
        diff_spec(es, es) == Seq::<DiffView>::empty(),
{
    lemma_actual_pass_same(es, es.len() as int);
    lemma_target_changes_same(es, es.len() as int);
    assert(es.take(es.len() as int) =~= es);
}

/// Going through a snapshot's own files finds nothing new.
proof fn lemma_actual_pass_same(es: Entries, n: int)
    requires
        sorted(es),
        0 <= n <= es.len(),
    ensures
        actual_pass(es, es, n).changes == Seq::<DiffView>::empty(),
        actual_pass(es, es, n).consumed == Set::<Seq<char>>::empty(),
    decreases n,
{
    if n > 0 {
        lemma_actual_pass_same(es, n - 1);
        lemma_lookup(es, n - 1);
    }
}

/// None of a snapshot's files has changed against the snapshot itself.
proof fn lemma_target_changes_same(es: Entries, n: int)
    requires
        sorted(es),
        0 <= n <= es.len(),
    ensures
        target_changes(es.take(n), to_map(es), Set::<Seq<char>>::empty()) == Seq::<DiffView>::empty(),
    decreases n,
{
    if n > 0 {
        lemma_target_changes_same(es, n - 1);
        lemma_lookup(es, n - 1);
        assert(es.take(n).drop_last() =~= es.take(n - 1));
        assert(es.take(n).last() == es[n - 1]);
    }
}

/// Where a change stands when changes are shown: deletions first, then
/// modifications, then renames, then creations.
pub open spec fn display_rank(d: DiffView) -> int {
    match d {
        DiffView::Deleted { file } => 1,
        DiffView::Modified { file } => 2,
        DiffView::MetadataModified { file } => 2,
        DiffView::Renamed { from, to } => 3,
        DiffView::Created { file } => 4,
    }
}

/// Whether `a` is shown before `b`: it is of an earlier kind, or of the same
/// kind with a path that comes first.
pub open spec fn shown_before(a: DiffView, b: DiffView) -> bool {
    display_rank(a) < display_rank(b) || (display_rank(a) == display_rank(b) && seq_lt(
        change_path(a),
        change_path(b),
    ))
}

/// Whether no change of `list` stands behind one that is shown after it.
pub open spec fn display_ordered(list: Seq<DiffView>) -> bool {
    forall|i: int, j: int|
        #![trigger list[i], list[j]]
        0 <= i < j < list.len() ==> !shown_before(list[j], list[i])
}

/// Where `d` goes in `list`: behind every change that is not shown after it.
pub open spec fn display_position(list: Seq<DiffView>, d: DiffView) -> int
    decreases list.len(),
{
    if list.len() == 0 || !shown_before(d, list.last()) {
        list.len() as int
    } else {
        display_position(list.drop_last(), d)
    }
}

/// The changes in the order in which they are shown. Changes of one kind and
/// one path keep their order.
pub open spec fn display_sorted(list: Seq<DiffView>) -> Seq<DiffView>
    decreases list.len(),
{
    if list.len() == 0 {
        list
    } else {
        let before = display_sorted(list.drop_last());
        before.insert(display_position(before, list.last()), list.last())
    }
}

/// What is not shown before what is not shown before a change is not shown
/// before that change.
proof fn lemma_not_before_transitive(a: DiffView, b: DiffView, c: DiffView)
    requires
        !shown_before(b, a),
        !shown_before(c, b),
    ensures
        !shown_before(c, a),
{
    if shown_before(c, a) && display_rank(a) == display_rank(b) && display_rank(b) == display_rank(c) {
        let pa = change_path(a);
        let pb = change_path(b);
        let pc = change_path(c);
        lemma_seq_lt_total(pb, pa);
        lemma_seq_lt_total(pc, pb);
        if pa != pb && pb != pc {
            lemma_seq_lt_transitive(pc, pa, pb);
            lemma_seq_lt_asymmetric(pb, pc);
        }
    }
}

/// The place of a change parts the changes that are not shown after it from
/// those that are.
proof fn lemma_display_position(list: Seq<DiffView>, d: DiffView)
    ensures
        0 <= display_position(list, d) <= list.len(),
        forall|k: int|
            display_position(list, d) <= k < list.len() ==> shown_before(d, #[trigger] list[k]),
        display_position(list, d) > 0 ==> !shown_before(d, list[display_position(list, d) - 1]),
    decreases list.len(),
{
    if !(list.len() == 0 || !shown_before(d, list.last())) {
        lemma_display_position(list.drop_last(), d);
        let p = display_position(list.drop_last(), d);
        assert forall|k: int| p <= k < list.len() implies shown_before(d, #[trigger] list[k]) by {
            if k < list.len() - 1 {
                assert(list.drop_last()[k] == list[k]);
            }
        }
        if p > 0 {
            assert(list.drop_last()[p - 1] == list[p - 1]);
        }
    }
}

/// A place with only changes behind it that are shown after `d`, and one
/// before it that is not, is the place of `d`.
proof fn lemma_display_position_is(list: Seq<DiffView>, d: DiffView, p: int)
    requires
        0 <= p <= list.len(),
        forall|k: int| p <= k < list.len() ==> shown_before(d, #[trigger] list[k]),
        p > 0 ==> !shown_before(d, list[p - 1]),
    ensures
        display_position(list, d) == p,
    decreases list.len(),
{
    if p < list.len() {
        assert(shown_before(d, list[list.len() - 1]));
        let shorter = list.drop_last();
        assert forall|k: int| p <= k < shorter.len() implies shown_before(
            d,
            #[trigger] shorter[k],
        ) by {
            assert(shorter[k] == list[k]);
        }
        if p > 0 {
            assert(shorter[p - 1] == list[p - 1]);
        }
        lemma_display_position_is(shorter, d, p);
    }
}

/// The changes in display order are the same changes, each as often as it
/// was there, and none stands behind one that is shown after it.
pub proof fn lemma_display_sorted(list: Seq<DiffView>)
    ensures
        display_ordered(display_sorted(list)),
        display_sorted(list).to_multiset() == list.to_multiset(),
        display_sorted(list).len() == list.len(),
    decreases list.len(),
{
    if list.len() > 0 {
        let d = list.last();
        let before = display_sorted(list.drop_last());
        lemma_display_sorted(list.drop_last());
        lemma_display_position(before, d);
        let p = display_position(before, d);
        let grown = before.insert(p, d);
        assert forall|i: int, j: int|
            #![trigger grown[i], grown[j]]
            0 <= i < j < grown.len() implies !shown_before(grown[j], grown[i]) by {
            let oi = if i < p { i } else { i - 1 };
            let oj = if j < p { j } else { j - 1 };
            if i != p {
                assert(grown[i] == before[oi]);
            }
            if j != p {
                assert(grown[j] == before[oj]);
            }
            if j == p {
                if i < p - 1 {
                    assert(!shown_before(before[p - 1], before[i]));
                    lemma_not_before_transitive(before[i], before[p - 1], d);
                }
            } else if i == p {
                assert(shown_before(d, before[oj]));
                if shown_before(before[oj], d) {
                    if display_rank(d) == display_rank(before[oj]) {
                        lemma_seq_lt_asymmetric(change_path(d), change_path(before[oj]));
                    }
                }
            } else {
                assert(!shown_before(before[oj], before[oi]));
            }
        }
        vstd::seq_lib::to_multiset_insert(before, p, d);
        vstd::seq_lib::to_multiset_build(list.drop_last(), d);
        assert(list.drop_last().push(d) =~= list);
    }
}

/// Where a change stands when changes are shown.
fn rank_of(d: &IndexDiff) -> (rank: u8)
    ensures
        rank == display_rank(d@),
{
    match d {
        IndexDiff::Deleted { .. } => 1,
        IndexDiff::Modified { .. } => 2,
        IndexDiff::MetadataModified { .. } => 2,
        IndexDiff::Renamed { .. } => 3,
        IndexDiff::Created { .. } => 4,
    }
}

/// The path that a change is about; of a rename, the path that the file had.
fn path_of(d: &IndexDiff) -> (path: &String)
    ensures
        path@ == change_path(d@),
{
    match d {
        IndexDiff::Deleted { file } => file,
        IndexDiff::Modified { file } => file,
        IndexDiff::MetadataModified { file } => file,
        IndexDiff::Renamed { from, .. } => from,
        IndexDiff::Created { file } => file,
    }
}

/// Whether `a` is shown before `b`.
fn is_shown_before(a: &IndexDiff, b: &IndexDiff) -> (r: bool)
    ensures
        r == shown_before(a@, b@),
{
    let ra: u8 = rank_of(a);
    let rb: u8 = rank_of(b);
    ra < rb || (ra == rb && str_lt(path_of(a).as_str(), path_of(b).as_str()))
}

/// The changes in the order in which they are shown: deletions, then
/// modifications, then renames, then creations, each kind by path.
pub fn display_order(diffs: &IndexDiffList) -> (shown: IndexDiffList)
    ensures
        diff_views(shown@) == display_sorted(diff_views(diffs@)),
{
    let mut shown: Vec<IndexDiff> = Vec::new();
    let mut i: usize = 0;
    assert(diff_views(diffs@).take(0) =~= Seq::<DiffView>::empty());
    while i < diffs.len()
        invariant
            i <= diffs.len(),
            diff_views(shown@) == display_sorted(diff_views(diffs@).take(i as int)),
        decreases diffs.len() - i,
    {
        let change = diffs[i].clone();
        let ghost before = diff_views(shown@);
        proof {
            let upto = diff_views(diffs@).take(i as int + 1);
            assert(upto.drop_last() =~= diff_views(diffs@).take(i as int));
            assert(upto.last() == change@);
        }
        let mut p: usize = shown.len();
        while p > 0 && is_shown_before(&change, &shown[p - 1])
            invariant
                p <= shown.len(),
                before == diff_views(shown@),
                forall|k: int| p <= k < before.len() ==> shown_before(change@, #[trigger] before[k]),
            decreases p,
        {
            assert(before[p - 1] == shown[p - 1]@);
            p -= 1;
        }
        proof {
            if p > 0 {
                assert(before[p - 1] == shown[p - 1]@);
            }
            lemma_display_position_is(before, change@, p as int);
        }
        let ghost added = change@;
        shown.insert(p, change);
        assert(diff_views(shown@) =~= before.insert(p as int, added));
        i += 1;
    }
    assert(diff_views(diffs@).take(i as int) =~= diff_views(diffs@));
    shown
}

} // verus!
