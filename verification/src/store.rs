//! The store: the history of committed snapshots, latest first. A snapshot is
//! stored compressed, in a file named by its time and by the digest of the
//! stored bytes, so that what is read back can be held against its name.

use vstd::prelude::*;
use vstd::utf8::encode_utf8;
use crate::checksum::{
    compute, digest_hex, digest_len, digest_takes, is_hex_of_len, is_lower_hex, ChecksumFunction,
    SHA256_MAX_INPUT,
};
use crate::error::Error;
use crate::format::{decode_str, decode_text, text_from_bytes, text_of};
use crate::index::{IndexSnapshot, SnapshotView};
use crate::paths::{join, join_paths};
use crate::reference::{
    descending, file_name, insert_reference, is_lower_alnum, lemma_parse_file_name,
    lemma_sort_desc, parse_file_name, reference_views, sort_desc, IndexReference, ReferenceView,
};
use crate::text::{str_eq, str_to_chars, string_views};

verus! {

/// What `deflate_bytes_zlib` of the crate `deflate` makes of `data`: the
/// bytes compressed, in a zlib frame.
pub uninterp spec fn zlib_deflated(data: Seq<u8>) -> Seq<u8>;

/// What `inflate_bytes_zlib` of the crate `inflate` makes of `data`: the
/// bytes that a zlib frame holds, or nothing where it refuses the frame.
pub uninterp spec fn zlib_inflated(data: Seq<u8>) -> Option<Seq<u8>>;

/// `deflate::deflate_bytes_zlib`: compresses at the default level and hands
/// back the zlib frame. The result is a function of the bytes alone.
#[verifier::external_body]
fn deflate_bytes_zlib(data: &[u8]) -> (frame: Vec<u8>)
    ensures
        frame@ == zlib_deflated(data@),
{
    deflate::deflate_bytes_zlib(data)
}

/// `inflate::inflate_bytes_zlib`: hands back the bytes that the frame holds,
/// or an error message, which is dropped here. The result is a function of
/// the bytes alone.
#[verifier::external_body]
fn inflate_bytes_zlib(frame: &[u8]) -> (data: Option<Vec<u8>>)
    ensures
        zlib_inflated(frame@) == (match data {
            Some(bytes) => Some(bytes@),
            None => None,
        }),
{
    inflate::inflate_bytes_zlib(frame).ok()
}

/// The digest function that made a digest, by the digest's length.
pub open spec fn function_of_digest(checksum: Seq<char>) -> Option<ChecksumFunction> {
    if checksum.len() == digest_len(ChecksumFunction::SHA256) {
        Some(ChecksumFunction::SHA256)
    } else if checksum.len() == digest_len(ChecksumFunction::MD5) {
        Some(ChecksumFunction::MD5)
    } else {
        None
    }
}

/// What loading the stored bytes `frame` under the reference `r` comes to.
/// Before anything is read from them, the bytes are held against the
/// reference: their digest, under the function that makes digests as long as
/// the reference's, must be the reference's, or the load fails with
/// `ChecksumMismatch`. Then the bytes are decompressed and read as the text
/// of a snapshot of the reference's time. That snapshot must name the digest
/// function that its bytes were held against.
pub open spec fn loaded(r: ReferenceView, frame: Seq<u8>) -> Result<SnapshotView, Error> {
    match function_of_digest(r.checksum) {
        None => Err(Error::ChecksumMismatch),
        Some(f) => if digest_hex(f, frame) != r.checksum {
            Err(Error::ChecksumMismatch)
        } else {
            match zlib_inflated(frame) {
                None => Err(Error::Format),
                Some(payload) => match decode_text(text_of(payload), r.timestamp_us) {
                    None => Err(Error::Format),
                    Some(snapshot) => if snapshot.checksum_function != f {
                        Err(Error::ChecksumMismatch)
                    } else {
                        Ok(snapshot)
                    },
                },
            }
        },
    }
}

/// No snapshot is loaded from bytes whose digest, under the snapshot's own
/// digest function, is not the one of the reference: a changed byte comes
/// out as an error, never as a snapshot.
pub proof fn lemma_loaded_verified(r: ReferenceView, frame: Seq<u8>)
    requires
        loaded(r, frame) is Ok,
    ensures
        digest_hex(loaded(r, frame)->Ok_0.checksum_function, frame) == r.checksum,
{
}

/// Stored bytes whose digest is not the one of the reference are refused
/// with `ChecksumMismatch`, whatever they hold.
pub proof fn lemma_loaded_mismatch(r: ReferenceView, frame: Seq<u8>)
    requires
        forall|f: ChecksumFunction| digest_hex(f, frame) != r.checksum,
    ensures
        loaded(r, frame) == Err::<SnapshotView, Error>(Error::ChecksumMismatch),
{
}

/// The file that a committed snapshot is written to is found again when the
/// store is opened: the name of a reference with a digest of the library and
/// a time that is not negative stands for that reference.
pub proof fn lemma_reference_name(r: ReferenceView, f: ChecksumFunction)
    requires
        r.timestamp_us >= 0,
        is_hex_of_len(r.checksum, digest_len(f)),
    ensures
        parse_file_name(file_name(r)) == Some(r),
{
    assert forall|i: int| 0 <= i < r.checksum.len() implies is_lower_alnum(
        #[trigger] r.checksum[i],
    ) by {
        assert(is_lower_hex(r.checksum[i]));
    }
    lemma_parse_file_name(r);
}

/// A snapshot ready to be written: its reference, and the bytes of its file.
#[derive(Debug)]
pub struct SnapshotFile {
    pub reference: IndexReference,
    pub data: Vec<u8>,
}

/// What appending a snapshot of the time `timestamp_us` with the text `text`
/// comes to, the latest reference being `latest`: the reference and the bytes
/// of the new file. A snapshot that is not newer than the latest one is
/// refused with `Causality`, and one whose compressed bytes are more than the
/// digest function takes with `Io`.
pub open spec fn appended(
    latest: Option<ReferenceView>,
    f: ChecksumFunction,
    text: Seq<char>,
    timestamp_us: i64,
) -> Result<(ReferenceView, Seq<u8>), Error> {
    let frame = zlib_deflated(encode_utf8(text));
    if latest is Some && timestamp_us <= latest->0.timestamp_us {
        Err(Error::Causality)
    } else if !digest_takes(f, frame.len()) {
        Err(Error::Io)
    } else {
        Ok((ReferenceView { timestamp_us, checksum: digest_hex(f, frame) }, frame))
    }
}

/// The history of a store: where it lies, and the references of its
/// snapshots, latest first.
#[derive(Debug)]
pub struct IndexDirectory {
    index_path: String,
    index_files: Vec<IndexReference>,
}

impl Clone for IndexDirectory {
    fn clone(&self) -> (copy: Self)
        ensures
            copy.path() == self.path(),
            copy.refs() == self.refs(),
    {
        let mut index_files: Vec<IndexReference> = Vec::new();
        let mut i: usize = 0;
        while i < self.index_files.len()
            invariant
                i <= self.index_files.len(),
                reference_views(index_files@) == reference_views(self.index_files@).take(i as int),
            decreases self.index_files.len() - i,
        {
            let ghost before = reference_views(index_files@);
            let copy = self.index_files[i].clone();
            index_files.push(copy);
            assert(reference_views(index_files@) =~= before.push(self.index_files[i as int]@));
            assert(reference_views(index_files@) =~= reference_views(self.index_files@).take(
                i as int + 1,
            ));
            i += 1;
        }
        assert(reference_views(self.index_files@).take(i as int) =~= reference_views(
            self.index_files@,
        ));
        IndexDirectory { index_path: self.index_path.clone(), index_files }
    }
}

impl IndexDirectory {
    /// The path of the store's directory.
    pub closed spec fn path(&self) -> Seq<char> {
        self.index_path@
    }

    /// The references of the store's snapshots, in the order of the list.
    pub closed spec fn refs(&self) -> Seq<ReferenceView> {
        reference_views(self.index_files@)
    }

    /// The store's invariant: the latest snapshot comes first.
    pub open spec fn wf(&self) -> bool {
        descending(self.refs())
    }

    /// The latest reference, as plain values.
    pub open spec fn latest_view(&self) -> Option<ReferenceView> {
        if self.refs().len() > 0 {
            Some(self.refs()[0])
        } else {
            None
        }
    }

    /// The path of the store's directory.
    pub fn index_path(&self) -> (path: &String)
        ensures
            path@ == self.path(),
    {
        &self.index_path
    }

    /// The store whose directory holds the files named `file_names`. The
    /// directory is `index_path` seen from `data_dir`. Every file must carry
    /// the name of a snapshot. The references come out by descending time,
    /// those of the same time in the order they were listed in.
    pub fn open(data_dir: &str, index_path: &str, file_names: &Vec<String>) -> (r: Result<
        IndexDirectory,
        Error,
    >)
        ensures
            match r {
                Ok(directory) => {
                    &&& directory.wf()
                    &&& directory.path() == join(data_dir@, index_path@)
                    &&& forall|i: int|
                        0 <= i < file_names.len() ==> parse_file_name(
                            #[trigger] string_views(file_names@)[i],
                        ) is Some
                    &&& directory.refs() == sort_desc(
                        string_views(file_names@).map_values(
                            |name: Seq<char>| parse_file_name(name)->0,
                        ),
                    )
                },
                Err(e) => {
                    &&& e == Error::Format
                    &&& exists|i: int|
                        0 <= i < file_names.len() && parse_file_name(
                            #[trigger] string_views(file_names@)[i],
                        ) is None
                },
            },
    {
        let ghost names = string_views(file_names@);
        let ghost parse = |name: Seq<char>| parse_file_name(name)->0;
        let mut index_files: Vec<IndexReference> = Vec::new();
        let mut i: usize = 0;
        assert(names.take(0).map_values(parse) =~= Seq::<ReferenceView>::empty());
        while i < file_names.len()
            invariant
                i <= file_names.len(),
                names == string_views(file_names@),
                parse == |name: Seq<char>| parse_file_name(name)->0,
                forall|k: int| 0 <= k < i ==> parse_file_name(#[trigger] names[k]) is Some,
                reference_views(index_files@) == sort_desc(names.take(i as int).map_values(parse)),
            decreases file_names.len() - i,
        {
            assert(names[i as int] == file_names[i as int]@);
            match IndexReference::from_filename(file_names[i].as_str()) {
                Some(reference) => {
                    proof {
                        let upto = names.take(i as int + 1).map_values(parse);
                        assert(upto.drop_last() =~= names.take(i as int).map_values(parse));
                        assert(upto.last() == reference@);
                    }
                    insert_reference(&mut index_files, reference);
                },
                None => {
                    return Err(Error::Format);
                },
            }
            i += 1;
        }
        assert(names.take(i as int) =~= names);
        proof {
            lemma_sort_desc(names.map_values(parse));
        }
        Ok(IndexDirectory { index_path: join_paths(data_dir, index_path), index_files })
    }

    /// A new store, without snapshots. Its directory is `index_path` seen
    /// from `data_dir`.
    pub fn create(data_dir: &str, index_path: &str) -> (directory: IndexDirectory)
        ensures
            directory.wf(),
            directory.path() == join(data_dir@, index_path@),
            directory.refs() == Seq::<ReferenceView>::empty(),
    {
        let directory = IndexDirectory {
            index_path: join_paths(data_dir, index_path),
            index_files: Vec::new(),
        };
        assert(directory.refs() =~= Seq::<ReferenceView>::empty());
        directory
    }

    /// The reference of the latest snapshot, if there is a snapshot.
    pub fn latest(&self) -> (r: Option<IndexReference>)
        ensures
            match r {
                Some(reference) => self.latest_view() == Some(reference@),
                None => self.latest_view() is None,
            },
    {
        if self.index_files.len() > 0 {
            Some(self.index_files[0].clone())
        } else {
            None
        }
    }

    /// The references of all snapshots, latest first.
    pub fn list(&self) -> (refs: &Vec<IndexReference>)
        ensures
            reference_views(refs@) == self.refs(),
    {
        &self.index_files
    }

    /// The path of the file of the snapshot `reference`.
    pub fn snapshot_path(&self, reference: &IndexReference) -> (path: String)
        ensures
            path@ == join(self.path(), file_name(reference@)),
    {
        let name = reference.filename();
        join_paths(self.index_path.as_str(), name.as_str())
    }

    /// The snapshot that the stored bytes `frame` hold, read from the file of
    /// `reference`. The bytes are first held against the digest of the
    /// reference: bytes with another digest are refused with
    /// `ChecksumMismatch`, and no snapshot is handed out for them.
    pub fn load(&self, reference: &IndexReference, frame: &[u8]) -> (r: Result<IndexSnapshot, Error>)
        requires
            frame@.len() < SHA256_MAX_INPUT,
        ensures
            match r {
                Ok(snapshot) => snapshot.wf() && loaded(reference@, frame@) == Ok::<
                    SnapshotView,
                    Error,
                >(snapshot@),
                Err(e) => loaded(reference@, frame@) == Err::<SnapshotView, Error>(e),
            },
    {
        let length: usize = str_to_chars(reference.checksum.as_str()).len();
        let f = if length == 64 {
            ChecksumFunction::SHA256
        } else if length == 32 {
            ChecksumFunction::MD5
        } else {
            return Err(Error::ChecksumMismatch);
        };
        let digest = compute(f, frame);
        if !str_eq(digest.as_str(), reference.checksum.as_str()) {
            return Err(Error::ChecksumMismatch);
        }
        let payload = match inflate_bytes_zlib(frame) {
            Some(bytes) => bytes,
            None => {
                return Err(Error::Format);
            },
        };
        let text = text_from_bytes(payload.as_slice());
        match decode_str(text.as_str(), reference.timestamp_us) {
            Ok(snapshot) => {
                if snapshot.checksum_function != f {
                    return Err(Error::ChecksumMismatch);
                }
                Ok(snapshot)
            },
            Err(e) => Err(e),
        }
    }

    /// Commits `snapshot` as the snapshot of the time `timestamp_us`: hands
    /// out its reference and the bytes to write to its file, and puts the
    /// reference first in the history. The time must be later than that of
    /// the latest snapshot: a snapshot that is not newer is refused whatever
    /// it holds. One that is newer must have a digest for every file. Where
    /// the snapshot is refused nothing changes and there is nothing to write.
    pub fn append(&mut self, snapshot: &IndexSnapshot, timestamp_us: i64) -> (r: Result<
        SnapshotFile,
        Error,
    >)
        requires
            old(self).wf(),
            (old(self).latest_view() is None || timestamp_us > old(
                self,
            ).latest_view()->0.timestamp_us) ==> forall|i: int|
                0 <= i < snapshot.entries().len() ==> (#[trigger] snapshot.entries()[i]).1.checksum
                    is Some,
        ensures
            final(self).wf(),
            final(self).path() == old(self).path(),
            match r {
                Ok(file) => {
                    &&& appended(
                        old(self).latest_view(),
                        snapshot.checksum_function,
                        snapshot.text(timestamp_us),
                        timestamp_us,
                    ) == Ok::<(ReferenceView, Seq<u8>), Error>((file.reference@, file.data@))
                    &&& final(self).refs() == seq![file.reference@] + old(self).refs()
                    &&& is_hex_of_len(file.reference@.checksum, digest_len(snapshot.checksum_function))
                },
                Err(e) => {
                    &&& appended(
                        old(self).latest_view(),
                        snapshot.checksum_function,
                        snapshot.text(timestamp_us),
                        timestamp_us,
                    ) == Err::<(ReferenceView, Seq<u8>), Error>(e)
                    &&& final(self).refs() == old(self).refs()
                },
            },
    {
        let ghost before = self.refs();
        if self.index_files.len() > 0 {
            assert(before[0] == self.index_files[0]@);
            if timestamp_us <= self.index_files[0].timestamp_us {
                return Err(Error::Causality);
            }
        }
        let text = snapshot.encode(timestamp_us);
        let frame = deflate_bytes_zlib(text.as_slice());
        if snapshot.checksum_function == ChecksumFunction::SHA256 && frame.len() as u64
            >= SHA256_MAX_INPUT {
            return Err(Error::Io);
        }
        let checksum = compute(snapshot.checksum_function, frame.as_slice());
        let reference = IndexReference { timestamp_us, checksum };
        self.index_files.insert(0, reference.clone());
        proof {
            let now = self.refs();
            assert(now =~= seq![reference@] + before);
            assert forall|i: int, j: int|
                #![trigger now[i], now[j]]
                0 <= i < j < now.len() implies now[i].timestamp_us >= now[j].timestamp_us by {
                if i > 0 {
                    assert(now[i] == before[i - 1] && now[j] == before[j - 1]);
                } else {
                    assert(now[j] == before[j - 1]);
                    if j - 1 > 0 {
                        assert(before[0].timestamp_us >= before[j - 1].timestamp_us);
                    }
                }
            }
        }
        Ok(SnapshotFile { reference, data: frame })
    }
}

} // verus!
