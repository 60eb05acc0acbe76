//! The handle of a committed snapshot, and the name of its file.

use vstd::prelude::*;
use vstd::seq_lib::to_multiset_insert;
use crate::decimal::{
    decimal, is_digit, lemma_decimal_chars, lemma_digits, parse_digits, push_i64, read_digits,
};
use crate::text::{
    chars_eq, chars_to_string, free_of, lemma_split_append_piece, lemma_split_free,
    push_str_chars, split, split_chars, str_to_chars, views,
};

verus! {

/// The handle of a committed snapshot: when it was taken, and the digest of
/// its file.
#[derive(Debug, PartialEq, Eq)]
pub struct IndexReference {
    /// Microseconds since the epoch.
    pub timestamp_us: i64,
    /// The digest of the snapshot's bytes as they are stored.
    pub checksum: String,
}

/// A reference as plain values.
pub struct ReferenceView {
    pub timestamp_us: i64,
    pub checksum: Seq<char>,
}

impl View for IndexReference {
    type V = ReferenceView;

    open spec fn view(&self) -> ReferenceView {
        ReferenceView { timestamp_us: self.timestamp_us, checksum: self.checksum@ }
    }
}

impl Clone for IndexReference {
    fn clone(&self) -> (copy: Self)
        ensures
            copy@ == self@,
    {
        IndexReference { timestamp_us: self.timestamp_us, checksum: self.checksum.clone() }
    }
}

/// References as plain values.
pub open spec fn reference_views(refs: Seq<IndexReference>) -> Seq<ReferenceView> {
    refs.map_values(|r: IndexReference| r@)
}

/// What ends the name of a snapshot's file.
pub open spec fn extension() -> Seq<char> {
    seq!['i', 'd', 'x']
}

/// A digit or a small letter.
pub open spec fn is_lower_alnum(c: char) -> bool {
    is_digit(c) || ('a' <= c && c <= 'z')
}

/// Whether `s` can be the digest in a file's name: small letters and digits,
/// at least one.
pub open spec fn is_name_digest(s: Seq<char>) -> bool {
    s.len() > 0 && forall|i: int| 0 <= i < s.len() ==> is_lower_alnum(#[trigger] s[i])
}

/// The name of a snapshot's file: the time, a hyphen, the digest, and `.idx`.
pub open spec fn file_name(r: ReferenceView) -> Seq<char> {
    (decimal(r.timestamp_us as int).push('-') + r.checksum).push('.') + extension()
}

/// The reference that a file's name stands for. A name is digits, a hyphen,
/// small letters and digits, and `.idx`, and the digits are a time of 64
/// bits.
pub open spec fn parse_file_name(name: Seq<char>) -> Option<ReferenceView> {
    let parts = split(name, '-');
    if parts.len() == 2 {
        let tail = split(parts[1], '.');
        if tail.len() == 2 && tail[1] == extension() && is_name_digest(tail[0]) {
            match parse_digits(parts[0], i64::MAX as int) {
                Some(us) => Some(ReferenceView { timestamp_us: us as i64, checksum: tail[0] }),
                None => None,
            }
        } else {
            None
        }
    } else {
        None
    }
}

/// The name of a reference's file stands for the reference, where the time
/// is not negative and the digest is small letters and digits.
pub proof fn lemma_parse_file_name(r: ReferenceView)
    requires
        r.timestamp_us >= 0,
        is_name_digest(r.checksum),
    ensures
        parse_file_name(file_name(r)) == Some(r),
{
    let time = decimal(r.timestamp_us as int);
    let tail = r.checksum.push('.') + extension();
    lemma_digits(r.timestamp_us as nat);
    lemma_decimal_chars(r.timestamp_us as int, '.');
    assert(free_of(time, '-'));
    assert(free_of(tail, '-'));
    lemma_split_free(time, '-');
    lemma_split_append_piece(time, tail, '-');
    assert(file_name(r) =~= time.push('-') + tail);
    assert(seq![time].push(tail) =~= seq![time, tail]);
    assert(free_of(r.checksum, '.'));
    assert(free_of(extension(), '.'));
    lemma_split_free(r.checksum, '.');
    lemma_split_append_piece(r.checksum, extension(), '.');
    assert(seq![r.checksum].push(extension()) =~= seq![r.checksum, extension()]);
}

impl IndexReference {
    /// The name of the snapshot's file in the store.
    pub fn filename(&self) -> (name: String)
        ensures
            name@ == file_name(self@),
    {
        let mut out: Vec<char> = Vec::new();
        push_i64(&mut out, self.timestamp_us);
        out.push('-');
        push_str_chars(&mut out, self.checksum.as_str());
        out.push('.');
        proof {
            reveal_strlit("idx");
            assert("idx"@ =~= extension());
        }
        push_str_chars(&mut out, "idx");
        assert(out@ =~= file_name(self@));
        chars_to_string(&out)
    }

    /// The reference that the file name `name` stands for, if it is the name
    /// of a snapshot's file.
    pub fn from_filename(name: &str) -> (r: Option<IndexReference>)
        ensures
            match r {
                Some(reference) => parse_file_name(name@) == Some(reference@),
                None => parse_file_name(name@) is None,
            },
    {
        let chars = str_to_chars(name);
        let parts = split_chars(&chars, '-');
        assert(views(parts@).len() == parts.len());
        if parts.len() != 2 {
            return None;
        }
        assert(views(parts@)[0] == parts[0]@ && views(parts@)[1] == parts[1]@);
        let tail = split_chars(&parts[1], '.');
        assert(views(tail@).len() == tail.len());
        if tail.len() != 2 {
            return None;
        }
        assert(views(tail@)[0] == tail[0]@ && views(tail@)[1] == tail[1]@);
        proof {
            reveal_strlit("idx");
            assert("idx"@ =~= extension());
        }
        let suffix = str_to_chars("idx");
        if !chars_eq(&tail[1], &suffix) {
            return None;
        }
        if !is_digest_chars(&tail[0]) {
            return None;
        }
        assert(parts[0]@.subrange(0, parts[0]@.len() as int) =~= parts[0]@);
        match read_digits(&parts[0], 0, 0x7fff_ffff_ffff_ffff) {
            Some(us) => Some(
                IndexReference { timestamp_us: us as i64, checksum: chars_to_string(&tail[0]) },
            ),
            None => None,
        }
    }
}

/// Whether `s` is small letters and digits, at least one.
fn is_digest_chars(s: &Vec<char>) -> (r: bool)
    ensures
        r == is_name_digest(s@),
{
    if s.len() == 0 {
        return false;
    }
    let mut i: usize = 0;
    while i < s.len()
        invariant
            i <= s.len(),
            forall|j: int| 0 <= j < i ==> is_lower_alnum(#[trigger] s@[j]),
        decreases s.len() - i,
    {
        let c = s[i];
        if !(('0' <= c && c <= '9') || ('a' <= c && c <= 'z')) {
            return false;
        }
        i += 1;
    }
    true
}

/// Whether the times of `refs` never increase: the latest snapshot first.
pub open spec fn descending(refs: Seq<ReferenceView>) -> bool {
    forall|i: int, j: int|
        #![trigger refs[i], refs[j]]
        0 <= i < j < refs.len() ==> refs[i].timestamp_us >= refs[j].timestamp_us
}

/// Where `r` goes in the descending `refs`: behind every reference that is
/// not older than it.
pub open spec fn insert_position(refs: Seq<ReferenceView>, r: ReferenceView) -> int
    decreases refs.len(),
{
    if refs.len() == 0 || refs.last().timestamp_us >= r.timestamp_us {
        refs.len() as int
    } else {
        insert_position(refs.drop_last(), r)
    }
}

/// `refs` with `r` at its place.
pub open spec fn insert_desc(refs: Seq<ReferenceView>, r: ReferenceView) -> Seq<ReferenceView> {
    refs.insert(insert_position(refs, r), r)
}

/// `refs` by descending time. References of the same time keep their order.
pub open spec fn sort_desc(refs: Seq<ReferenceView>) -> Seq<ReferenceView>
    decreases refs.len(),
{
    if refs.len() == 0 {
        refs
    } else {
        insert_desc(sort_desc(refs.drop_last()), refs.last())
    }
}

/// The place of `r` parts the references that are not older from the older
/// ones.
pub proof fn lemma_insert_position(refs: Seq<ReferenceView>, r: ReferenceView)
    ensures
        0 <= insert_position(refs, r) <= refs.len(),
        forall|k: int|
            insert_position(refs, r) <= k < refs.len() ==> (#[trigger] refs[k]).timestamp_us
                < r.timestamp_us,
        insert_position(refs, r) > 0 ==> refs[insert_position(refs, r) - 1].timestamp_us
            >= r.timestamp_us,
    decreases refs.len(),
{
    if !(refs.len() == 0 || refs.last().timestamp_us >= r.timestamp_us) {
        lemma_insert_position(refs.drop_last(), r);
        let p = insert_position(refs.drop_last(), r);
        assert forall|k: int| p <= k < refs.len() implies (#[trigger] refs[k]).timestamp_us
            < r.timestamp_us by {
            if k < refs.len() - 1 {
                assert(refs.drop_last()[k] == refs[k]);
            }
        }
        if p > 0 {
            assert(refs.drop_last()[p - 1] == refs[p - 1]);
        }
    }
}

/// A place with only older references behind it and a reference that is not
/// older before it is the place of `r`.
pub proof fn lemma_insert_position_is(refs: Seq<ReferenceView>, r: ReferenceView, p: int)
    requires
        0 <= p <= refs.len(),
        forall|k: int| p <= k < refs.len() ==> (#[trigger] refs[k]).timestamp_us < r.timestamp_us,
        p > 0 ==> refs[p - 1].timestamp_us >= r.timestamp_us,
    ensures
        insert_position(refs, r) == p,
    decreases refs.len(),
{
    if p < refs.len() {
        assert(refs[refs.len() - 1].timestamp_us < r.timestamp_us);
        let shorter = refs.drop_last();
        assert forall|k: int| p <= k < shorter.len() implies (#[trigger] shorter[k]).timestamp_us
            < r.timestamp_us by {
            assert(shorter[k] == refs[k]);
        }
        if p > 0 {
            assert(shorter[p - 1] == refs[p - 1]);
        }
        lemma_insert_position_is(shorter, r, p);
    }
}

/// Putting a reference at its place keeps the order and adds the reference,
/// nothing else.
pub proof fn lemma_insert_desc(refs: Seq<ReferenceView>, r: ReferenceView)
    requires
        descending(refs),
    ensures
        descending(insert_desc(refs, r)),
        insert_desc(refs, r).to_multiset() == refs.to_multiset().insert(r),
{
    lemma_insert_position(refs, r);
    let p = insert_position(refs, r);
    let grown = refs.insert(p, r);
    assert forall|i: int, j: int|
        #![trigger grown[i], grown[j]]
        0 <= i < j < grown.len() implies grown[i].timestamp_us >= grown[j].timestamp_us by {
        let oi = if i < p { i } else { i - 1 };
        let oj = if j < p { j } else { j - 1 };
        if i != p {
            assert(grown[i] == refs[oi]);
        }
        if j != p {
            assert(grown[j] == refs[oj]);
        }
        if j == p {
            assert(refs[i].timestamp_us >= refs[p - 1].timestamp_us) by {
                if i < p - 1 {
                    assert(refs[i].timestamp_us >= refs[p - 1].timestamp_us);
                }
            }
        } else if i != p {
            assert(refs[oi].timestamp_us >= refs[oj].timestamp_us);
        }
    }
    to_multiset_insert(refs, p, r);
}

/// Sorting gives a descending list of the same references, each as often as
/// it was there.
pub proof fn lemma_sort_desc(refs: Seq<ReferenceView>)
    ensures
        descending(sort_desc(refs)),
        sort_desc(refs).to_multiset() == refs.to_multiset(),
        sort_desc(refs).len() == refs.len(),
    decreases refs.len(),
{
    if refs.len() > 0 {
        lemma_sort_desc(refs.drop_last());
        lemma_insert_desc(sort_desc(refs.drop_last()), refs.last());
        lemma_insert_position(sort_desc(refs.drop_last()), refs.last());
        vstd::seq_lib::to_multiset_build(refs.drop_last(), refs.last());
        assert(refs.drop_last().push(refs.last()) =~= refs);
    }
}

/// Puts `r` at its place in the descending `list`.
pub fn insert_reference(list: &mut Vec<IndexReference>, r: IndexReference)
    ensures
        reference_views(final(list)@) == insert_desc(reference_views(old(list)@), r@),
{
    let ghost before = reference_views(list@);
    let mut p: usize = list.len();
    while p > 0 && list[p - 1].timestamp_us < r.timestamp_us
        invariant
            p <= list.len(),
            before == reference_views(list@),
            forall|k: int| p <= k < before.len() ==> (#[trigger] before[k]).timestamp_us
                < r.timestamp_us,
        decreases p,
    {
        assert(before[p - 1] == list[p - 1]@);
        p -= 1;
    }
    proof {
        if p > 0 {
            assert(before[p - 1] == list[p - 1]@);
        }
        lemma_insert_position_is(before, r@, p as int);
    }
    let ghost added = r@;
    list.insert(p, r);
    assert(reference_views(list@) =~= before.insert(p as int, added));
}

} // verus!
