//! The table of a snapshot's files: paths with their records, kept by
//! increasing path, each path once.

use vstd::prelude::*;
use crate::index::{FileInfoView, IndexFileInfo};
use crate::text::{
    lemma_seq_lt_asymmetric, lemma_seq_lt_irreflexive, lemma_seq_lt_total,
    lemma_seq_lt_transitive, seq_lt, str_eq, str_lt,
};

verus! {

/// Paths with their records, in the order in which a snapshot keeps them.
pub type Entries = Seq<(Seq<char>, FileInfoView)>;

/// Whether the paths of `es` strictly increase. Then no path occurs twice.
pub open spec fn sorted(es: Entries) -> bool {
    forall|i: int, j: int|
        #![trigger es[i], es[j]]
        0 <= i < j < es.len() ==> seq_lt(es[i].0, es[j].0)
}

/// Whether `es` has a record for `path`.
pub open spec fn has_path(es: Entries, path: Seq<char>) -> bool {
    exists|i: int| 0 <= i < es.len() && (#[trigger] es[i]).0 == path
}

/// A position of `path` in `es`.
pub open spec fn index_of(es: Entries, path: Seq<char>) -> int {
    choose|i: int| 0 <= i < es.len() && (#[trigger] es[i]).0 == path
}

/// The mapping from path to record that `es` lists.
pub open spec fn to_map(es: Entries) -> Map<Seq<char>, FileInfoView> {
    Map::new(|path: Seq<char>| has_path(es, path), |path: Seq<char>| es[index_of(es, path)].1)
}

/// Whether `i` is where `path` stands in `es`, or would have to: the paths
/// before `i` come before `path`, and those from `i` on do not.
pub open spec fn lower_bound(es: Entries, path: Seq<char>, i: int) -> bool {
    &&& 0 <= i <= es.len()
    &&& forall|j: int| 0 <= j < i ==> seq_lt((#[trigger] es[j]).0, path)
    &&& forall|j: int| i <= j < es.len() ==> !seq_lt((#[trigger] es[j]).0, path)
}

/// The sizes of all records, added up.
pub open spec fn total_size(es: Entries) -> nat
    decreases es.len(),
{
    if es.len() == 0 {
        0
    } else {
        total_size(es.drop_last()) + es.last().1.size_bytes as nat
    }
}

/// In a sorted list two positions hold two paths.
pub proof fn lemma_sorted_distinct(es: Entries, i: int, j: int)
    requires
        sorted(es),
        0 <= i < es.len(),
        0 <= j < es.len(),
        i != j,
    ensures
        es[i].0 != es[j].0,
{
    if i < j {
        lemma_seq_lt_asymmetric(es[i].0, es[j].0);
    } else {
        lemma_seq_lt_asymmetric(es[j].0, es[i].0);
    }
}

/// A sorted list maps each of its paths to the record beside it.
pub proof fn lemma_lookup(es: Entries, i: int)
    requires
        sorted(es),
        0 <= i < es.len(),
    ensures
        has_path(es, es[i].0),
        to_map(es).contains_key(es[i].0),
        to_map(es)[es[i].0] == es[i].1,
{
    let k = index_of(es, es[i].0);
    if k != i {
        lemma_sorted_distinct(es, i, k);
    }
}

/// A path that is not at its place in a sorted list is not in the list.
pub proof fn lemma_absent(es: Entries, path: Seq<char>, i: int)
    requires
        sorted(es),
        lower_bound(es, path, i),
        i == es.len() || es[i].0 != path,
    ensures
        !has_path(es, path),
{
    if has_path(es, path) {
        let k = index_of(es, path);
        if k < i {
            lemma_seq_lt_irreflexive(path);
        } else if k > i {
            assert(seq_lt(es[i].0, es[k].0));
        }
    }
}

/// Putting a new path at its place keeps the list sorted and adds the path to
/// the mapping.
pub proof fn lemma_insert(es: Entries, path: Seq<char>, info: FileInfoView, i: int)
    requires
        sorted(es),
        lower_bound(es, path, i),
        !has_path(es, path),
    ensures
        sorted(es.insert(i, (path, info))),
        to_map(es.insert(i, (path, info))) == to_map(es).insert(path, info),
{
    let grown = es.insert(i, (path, info));
    assert forall|j: int| i <= j < es.len() implies seq_lt(path, (#[trigger] es[j]).0) by {
        lemma_seq_lt_total(path, es[j].0);
    }
    assert(sorted(grown)) by {
        assert forall|a: int, b: int|
            #![trigger grown[a], grown[b]]
            0 <= a < b < grown.len() implies seq_lt(grown[a].0, grown[b].0) by {
            if b < i {
                assert(grown[a] == es[a] && grown[b] == es[b]);
            } else if b == i {
                assert(grown[a] == es[a]);
            } else if a < i {
                assert(grown[a] == es[a] && grown[b] == es[b - 1]);
                if b - 1 == i {
                    lemma_seq_lt_transitive(es[a].0, path, es[b - 1].0);
                } else {
                    assert(seq_lt(es[a].0, es[b - 1].0));
                }
            } else if a == i {
                assert(grown[b] == es[b - 1]);
            } else {
                assert(grown[a] == es[a - 1] && grown[b] == es[b - 1]);
            }
        }
    }
    assert forall|q: Seq<char>| has_path(grown, q) <==> (q == path || has_path(es, q)) by {
        if has_path(grown, q) {
            let k = index_of(grown, q);
            if k < i {
                assert(grown[k] == es[k]);
            } else if k > i {
                assert(grown[k] == es[k - 1]);
            }
        }
        if q == path {
            assert(grown[i].0 == q);
        }
        if has_path(es, q) {
            let k = index_of(es, q);
            if k < i {
                assert(grown[k] == es[k]);
            } else {
                assert(grown[k + 1] == es[k]);
            }
        }
    }
    assert forall|q: Seq<char>| has_path(grown, q) implies #[trigger] to_map(grown)[q] == to_map(
        es,
    ).insert(path, info)[q] by {
        let k = index_of(grown, q);
        if q == path {
            if k != i {
                lemma_sorted_distinct(grown, k, i);
            }
        } else {
            let old_k = if k < i { k } else { k - 1 };
            assert(grown[k] == es[old_k]);
            lemma_lookup(es, old_k);
        }
    }
    assert(to_map(grown) =~= to_map(es).insert(path, info));
}

/// Putting another record beside a path keeps the list sorted and changes
/// the mapping at that path alone.
pub proof fn lemma_replace(es: Entries, info: FileInfoView, i: int)
    requires
        sorted(es),
        0 <= i < es.len(),
    ensures
        sorted(es.update(i, (es[i].0, info))),
        to_map(es.update(i, (es[i].0, info))) == to_map(es).insert(es[i].0, info),
{
    let path = es[i].0;
    let changed = es.update(i, (path, info));
    assert(sorted(changed)) by {
        assert forall|a: int, b: int|
            #![trigger changed[a], changed[b]]
            0 <= a < b < changed.len() implies seq_lt(changed[a].0, changed[b].0) by {
            assert(changed[a].0 == es[a].0 && changed[b].0 == es[b].0);
            assert(seq_lt(es[a].0, es[b].0));
        }
    }
    assert forall|q: Seq<char>| has_path(changed, q) <==> has_path(es, q) by {
        if has_path(changed, q) {
            let k = index_of(changed, q);
            assert(es[k].0 == q);
        }
        if has_path(es, q) {
            let k = index_of(es, q);
            assert(changed[k].0 == q);
        }
    }
    lemma_lookup(es, i);
    assert forall|q: Seq<char>| has_path(changed, q) implies #[trigger] to_map(changed)[q]
        == to_map(es).insert(path, info)[q] by {
        let k = index_of(changed, q);
        lemma_lookup(changed, k);
        if k != i {
            assert(changed[k] == es[k]);
            lemma_lookup(es, k);
            lemma_sorted_distinct(es, k, i);
        }
    }
    assert(to_map(changed) =~= to_map(es).insert(path, info));
}

/// Taking a position out keeps the list sorted and takes its path out of the
/// mapping.
pub proof fn lemma_remove(es: Entries, i: int)
    requires
        sorted(es),
        0 <= i < es.len(),
    ensures
        sorted(es.remove(i)),
        to_map(es.remove(i)) == to_map(es).remove(es[i].0),
{
    let path = es[i].0;
    let less = es.remove(i);
    assert(sorted(less)) by {
        assert forall|a: int, b: int|
            #![trigger less[a], less[b]]
            0 <= a < b < less.len() implies seq_lt(less[a].0, less[b].0) by {
            let oa = if a < i { a } else { a + 1 };
            let ob = if b < i { b } else { b + 1 };
            assert(less[a] == es[oa] && less[b] == es[ob]);
            assert(seq_lt(es[oa].0, es[ob].0));
        }
    }
    assert forall|q: Seq<char>| has_path(less, q) <==> (q != path && has_path(es, q)) by {
        if has_path(less, q) {
            let k = index_of(less, q);
            let ok = if k < i { k } else { k + 1 };
            assert(less[k] == es[ok]);
            lemma_sorted_distinct(es, ok, i);
        }
        if q != path && has_path(es, q) {
            let k = index_of(es, q);
            if k < i {
                assert(less[k] == es[k]);
            } else {
                assert(less[k - 1] == es[k]);
            }
        }
    }
    assert forall|q: Seq<char>| has_path(less, q) implies #[trigger] to_map(less)[q] == to_map(
        es,
    ).remove(path)[q] by {
        let k = index_of(less, q);
        lemma_lookup(less, k);
        let ok = if k < i { k } else { k + 1 };
        assert(less[k] == es[ok]);
        lemma_lookup(es, ok);
    }
    assert(to_map(less) =~= to_map(es).remove(path));
}

/// The first `n + 1` entries of a sorted list map what the first `n` map, and
/// the path at `n`.
pub proof fn lemma_take_next(es: Entries, n: int)
    requires
        sorted(es),
        0 <= n < es.len(),
    ensures
        sorted(es.take(n)),
        sorted(es.take(n + 1)),
        !has_path(es.take(n), es[n].0),
        to_map(es.take(n + 1)) == to_map(es.take(n)).insert(es[n].0, es[n].1),
{
    let short = es.take(n);
    let long = es.take(n + 1);
    assert(sorted(short)) by {
        assert forall|a: int, b: int|
            #![trigger short[a], short[b]]
            0 <= a < b < short.len() implies seq_lt(short[a].0, short[b].0) by {
            assert(short[a] == es[a] && short[b] == es[b]);
        }
    }
    assert(sorted(long)) by {
        assert forall|a: int, b: int|
            #![trigger long[a], long[b]]
            0 <= a < b < long.len() implies seq_lt(long[a].0, long[b].0) by {
            assert(long[a] == es[a] && long[b] == es[b]);
        }
    }
    assert(lower_bound(short, es[n].0, n)) by {
        assert forall|j: int| 0 <= j < n implies seq_lt((#[trigger] short[j]).0, es[n].0) by {
            assert(short[j] == es[j]);
        }
    }
    lemma_absent(short, es[n].0, n);
    lemma_insert(short, es[n].0, es[n].1, n);
    assert(short.insert(n, es[n]) =~= long);
}

/// The whole list maps nothing that its beginnings do not.
pub proof fn lemma_take_all(es: Entries)
    ensures
        es.take(es.len() as int) == es,
        to_map(es.take(0)) == Map::<Seq<char>, FileInfoView>::empty(),
{
    assert(es.take(es.len() as int) =~= es);
    assert(to_map(es.take(0)) =~= Map::<Seq<char>, FileInfoView>::empty());
}

/// A sorted list maps as many paths as it is long.
pub proof fn lemma_map_len(es: Entries)
    requires
        sorted(es),
    ensures
        to_map(es).dom().finite(),
        to_map(es).dom().len() == es.len(),
    decreases es.len(),
{
    if es.len() == 0 {
        assert(to_map(es) =~= Map::<Seq<char>, FileInfoView>::empty());
    } else {
        let n = es.len() - 1;
        lemma_take_next(es, n);
        lemma_take_all(es);
        lemma_map_len(es.take(n));
        assert(to_map(es).dom() =~= to_map(es.take(n)).dom().insert(es[n].0));
    }
}

/// The sizes of the first entries add up to no more than those of all.
pub proof fn lemma_total_size_take(es: Entries, n: int)
    requires
        0 <= n <= es.len(),
    ensures
        total_size(es.take(n)) <= total_size(es),
        n < es.len() ==> total_size(es.take(n + 1)) == total_size(es.take(n))
            + es[n].1.size_bytes as nat,
    decreases es.len() - n,
{
    if n < es.len() {
        lemma_total_size_take(es, n + 1);
        assert(es.take(n + 1).drop_last() =~= es.take(n));
    } else {
        assert(es.take(n) =~= es);
    }
}

/// A sorted list is the only sorted list of its mapping: the order in which
/// records were put in leaves no trace.
pub proof fn lemma_entries_unique(a: Entries, b: Entries)
    requires
        sorted(a),
        sorted(b),
        to_map(a) == to_map(b),
    ensures
        a == b,
    decreases a.len(),
{
    if a.len() == 0 {
        if b.len() > 0 {
            lemma_lookup(b, 0);
            assert(has_path(a, b[0].0));
        }
        assert(a =~= b);
    } else {
        let n = a.len() - 1;
        lemma_lookup(a, n);
        assert(has_path(b, a[n].0));
        let m = b.len() - 1;
        lemma_lookup(b, m);
        assert(has_path(a, b[m].0));
        let k = index_of(b, a[n].0);
        let j = index_of(a, b[m].0);
        if k < m {
            assert(seq_lt(b[k].0, b[m].0));
            if j < n {
                assert(seq_lt(a[j].0, a[n].0));
                lemma_seq_lt_asymmetric(b[k].0, b[m].0);
            } else {
                lemma_seq_lt_irreflexive(a[n].0);
            }
        }
        assert(b[m].0 == a[n].0);
        lemma_remove(a, n);
        lemma_remove(b, m);
        assert(a.remove(n) =~= a.drop_last());
        assert(b.remove(m) =~= b.drop_last());
        lemma_entries_unique(a.drop_last(), b.drop_last());
        assert(a[n] == b[m]);
        assert(a =~= a.drop_last().push(a[n]));
        assert(b =~= b.drop_last().push(b[m]));
    }
}

/// A path with its record.
#[derive(Debug)]
pub struct FileEntry {
    pub path: String,
    pub info: IndexFileInfo,
}

/// The entries of a table as plain values.
pub open spec fn entry_views(files: Seq<FileEntry>) -> Entries {
    files.map_values(|entry: FileEntry| (entry.path@, entry.info@))
}

/// An ordered map from path to record. It lists its paths in lexicographic
/// order and finds one by bisection.
#[derive(Debug)]
pub struct FileTable {
    rows: Vec<FileEntry>,
}

impl View for FileTable {
    type V = Map<Seq<char>, FileInfoView>;

    open spec fn view(&self) -> Map<Seq<char>, FileInfoView> {
        to_map(self.entries())
    }
}

impl Clone for FileTable {
    fn clone(&self) -> (copy: Self)
        ensures
            copy.entries() == self.entries(),
    {
        let mut rows: Vec<FileEntry> = Vec::new();
        let mut i: usize = 0;
        while i < self.rows.len()
            invariant
                i <= self.rows.len(),
                entry_views(rows@) == entry_views(self.rows@).take(i as int),
            decreases self.rows.len() - i,
        {
            let entry = &self.rows[i];
            let ghost before = entry_views(rows@);
            let copy = FileEntry { path: entry.path.clone(), info: entry.info.clone() };
            assert(copy.path@ == entry.path@ && copy.info@ == entry.info@);
            rows.push(copy);
            assert(entry_views(rows@) =~= before.push((entry.path@, entry.info@)));
            assert(entry_views(rows@) =~= entry_views(self.rows@).take(i as int + 1));
            i += 1;
        }
        assert(entry_views(self.rows@).take(i as int) =~= entry_views(self.rows@));
        FileTable { rows }
    }
}

impl FileTable {
    /// The paths with their records, by increasing path.
    pub closed spec fn entries(&self) -> Entries {
        entry_views(self.rows@)
    }

    /// The table's invariant: its paths strictly increase. Every function
    /// that makes or changes a table keeps it.
    pub open spec fn wf(&self) -> bool {
        sorted(self.entries())
    }

    /// A table without files.
    pub fn new() -> (table: FileTable)
        ensures
            table.wf(),
            table.entries() == Seq::<(Seq<char>, FileInfoView)>::empty(),
            table@ == Map::<Seq<char>, FileInfoView>::empty(),
    {
        let table = FileTable { rows: Vec::new() };
        assert(table.entries() =~= Seq::<(Seq<char>, FileInfoView)>::empty());
        assert(to_map(table.entries()) =~= Map::<Seq<char>, FileInfoView>::empty());
        table
    }

    /// Where `path` stands among the files, or would have to, and whether it
    /// is there.
    pub fn find(&self, path: &str) -> (at: (usize, bool))
        requires
            self.wf(),
        ensures
            lower_bound(self.entries(), path@, at.0 as int),
            at.1 == has_path(self.entries(), path@),
            at.1 == self@.contains_key(path@),
            at.1 ==> at.0 < self.entries().len() && self.entries()[at.0 as int].0 == path@,
    {
        let ghost es = self.entries();
        let mut lo: usize = 0;
        let mut hi: usize = self.rows.len();
        while lo < hi
            invariant
                es == self.entries(),
                sorted(es),
                0 <= lo <= hi <= es.len(),
                es.len() == self.rows.len(),
                forall|j: int| 0 <= j < lo ==> seq_lt((#[trigger] es[j]).0, path@),
                forall|j: int| hi <= j < es.len() ==> !seq_lt((#[trigger] es[j]).0, path@),
            decreases hi - lo,
        {
            let mid: usize = lo + (hi - lo) / 2;
            assert(es[mid as int].0 == self.rows[mid as int].path@);
            if str_lt(self.rows[mid].path.as_str(), path) {
                assert forall|j: int| 0 <= j < mid + 1 implies seq_lt(
                    (#[trigger] es[j]).0,
                    path@,
                ) by {
                    if j < mid {
                        lemma_seq_lt_transitive(es[j].0, es[mid as int].0, path@);
                    }
                }
                lo = mid + 1;
            } else {
                assert forall|j: int| mid <= j < es.len() implies !seq_lt(
                    (#[trigger] es[j]).0,
                    path@,
                ) by {
                    if j > mid && seq_lt(es[j].0, path@) {
                        lemma_seq_lt_transitive(es[mid as int].0, es[j].0, path@);
                    }
                }
                hi = mid;
            }
        }
        let mut found = false;
        if lo < self.rows.len() {
            assert(es[lo as int].0 == self.rows[lo as int].path@);
            found = str_eq(self.rows[lo].path.as_str(), path);
        }
        proof {
            if found {
                lemma_lookup(es, lo as int);
            } else {
                lemma_absent(es, path@, lo as int);
            }
        }
        (lo, found)
    }

    /// The number of files.
    pub fn len(&self) -> (n: usize)
        ensures
            n == self.entries().len(),
    {
        self.rows.len()
    }

    /// The path at position `i`, counted by increasing path.
    pub fn path_at(&self, i: usize) -> (path: &String)
        requires
            i < self.entries().len(),
        ensures
            path@ == self.entries()[i as int].0,
    {
        &self.rows[i].path
    }

    /// The record at position `i`, counted by increasing path.
    pub fn info_at(&self, i: usize) -> (info: &IndexFileInfo)
        requires
            i < self.entries().len(),
        ensures
            info@ == self.entries()[i as int].1,
    {
        &self.rows[i].info
    }

    /// The record of `path`, if the table has one.
    pub fn get(&self, path: &str) -> (r: Option<&IndexFileInfo>)
        requires
            self.wf(),
        ensures
            match r {
                Some(info) => self@.contains_key(path@) && info@ == self@[path@],
                None => !self@.contains_key(path@),
            },
    {
        let (i, found) = self.find(path);
        if found {
            proof {
                lemma_lookup(self.entries(), i as int);
            }
            Some(&self.rows[i].info)
        } else {
            None
        }
    }

    /// Records `info` for `path`, in place of an earlier record if there is
    /// one.
    pub fn insert(&mut self, path: String, info: IndexFileInfo)
        requires
            old(self).wf(),
        ensures
            final(self).wf(),
            final(self)@ == old(self)@.insert(path@, info@),
    {
        let (i, found) = self.find(path.as_str());
        let ghost before = self.entries();
        let ghost p = path@;
        let ghost v = info@;
        let entry = FileEntry { path, info };
        if found {
            self.rows.set(i, entry);
            proof {
                lemma_replace(before, v, i as int);
                assert(self.entries() =~= before.update(i as int, (p, v)));
            }
        } else {
            self.rows.insert(i, entry);
            proof {
                lemma_insert(before, p, v, i as int);
                assert(self.entries() =~= before.insert(i as int, (p, v)));
            }
        }
    }

    /// Takes the record of `path` out. Nothing changes if there is none.
    pub fn remove(&mut self, path: &str)
        requires
            old(self).wf(),
        ensures
            final(self).wf(),
            final(self)@ == old(self)@.remove(path@),
    {
        let (i, found) = self.find(path);
        let ghost before = self.entries();
        if found {
            self.rows.remove(i);
            proof {
                lemma_remove(before, i as int);
                assert(self.entries() =~= before.remove(i as int));
            }
        } else {
            assert(to_map(before).remove(path@) =~= to_map(before));
        }
    }

    /// Takes the record at position `i` out.
    pub fn remove_at(&mut self, i: usize)
        requires
            old(self).wf(),
            i < old(self).entries().len(),
        ensures
            final(self).wf(),
            final(self).entries() == old(self).entries().remove(i as int),
            final(self)@ == old(self)@.remove(old(self).entries()[i as int].0),
    {
        let ghost before = self.entries();
        self.rows.remove(i);
        proof {
            lemma_remove(before, i as int);
            assert(self.entries() =~= before.remove(i as int));
        }
    }
}

} // verus!
