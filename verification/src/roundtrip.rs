//! What is written is read back: the laws that tie encoding to decoding.

use vstd::prelude::*;
use vstd::utf8::{encode_utf8, encode_utf8_decode_utf8, encode_utf8_valid_utf8};
use crate::checksum::{function_name, lemma_function_names, ChecksumFunction};
use crate::codec::{escape, lemma_escape_free, lemma_unescape_escape};
use crate::decimal::{
    decimal, digits, lemma_decimal_chars, lemma_parse_i64_decimal, lemma_parse_u64_digits,
};
use crate::format::{
    checksum_tag, decode_line, decode_lines, decode_text, empty_draft, encode_text, entry_fields,
    entry_line, header_lines, join_fields, join_lines, lines_of, message_tag, snapshot_lines,
    text_of, timestamp_tag, Draft,
};
use crate::index::{FileInfoView, IndexSnapshot, SnapshotView};
use crate::table::{lemma_take_all, lemma_take_next, sorted, to_map, Entries};
use crate::text::{free_of, lemma_split_append_piece, lemma_split_free, opt_view, split};

verus! {

/// Whether every digest in `entries` can stand in a line: it holds neither a
/// space nor a line break.
pub open spec fn clean_digests(entries: Entries) -> bool {
    forall|i: int|
        0 <= i < entries.len() ==> match (#[trigger] entries[i]).1.checksum {
            Some(digest) => free_of(digest, ' ') && free_of(digest, '\n'),
            None => true,
        }
}

/// A record as it comes back from the store: an absent digest as the empty
/// digest, and a modification time of 0 as the absent time, which is written
/// as 0.
pub open spec fn stored_record(info: FileInfoView) -> FileInfoView {
    FileInfoView {
        size_bytes: info.size_bytes,
        modified_timestamp_us: if info.modified_timestamp_us == Some(0i64) {
            None
        } else {
            info.modified_timestamp_us
        },
        checksum: Some(
            match info.checksum {
                Some(digest) => digest,
                None => Seq::<char>::empty(),
            },
        ),
    }
}

/// The entries of a snapshot as they come back from the store.
pub open spec fn stored_entries(entries: Entries) -> Entries {
    entries.map_values(|entry: (Seq<char>, FileInfoView)| (entry.0, stored_record(entry.1)))
}

/// Whether every record has a digest, and no modification time of exactly 0.
/// Such records come back from the store as they are.
pub open spec fn complete(entries: Entries) -> bool {
    forall|i: int|
        0 <= i < entries.len() ==> (#[trigger] entries[i]).1.checksum is Some
            && entries[i].1.modified_timestamp_us != Some(0i64)
}

/// Fields without spaces are the pieces of their line.
pub proof fn lemma_split_fields(fields: Seq<Seq<char>>)
    requires
        fields.len() >= 1,
        forall|i: int| 0 <= i < fields.len() ==> free_of(#[trigger] fields[i], ' '),
    ensures
        split(join_fields(fields), ' ') == fields,
    decreases fields.len(),
{
    if fields.len() == 1 {
        lemma_split_free(fields[0], ' ');
        assert(seq![fields[0]] =~= fields);
    } else {
        let head = fields.drop_last();
        assert forall|i: int| 0 <= i < head.len() implies free_of(#[trigger] head[i], ' ') by {
            assert(head[i] == fields[i]);
        }
        lemma_split_fields(head);
        lemma_split_append_piece(join_fields(head), fields.last(), ' ');
        assert(head.push(fields.last()) =~= fields);
    }
}

/// A line holds a character other than the space only where a field does.
pub proof fn lemma_join_fields_free(fields: Seq<Seq<char>>, c: char)
    requires
        c != ' ',
        forall|i: int| 0 <= i < fields.len() ==> free_of(#[trigger] fields[i], c),
    ensures
        free_of(join_fields(fields), c),
    decreases fields.len(),
{
    if fields.len() == 1 {
        assert(free_of(fields[0], c));
    } else if fields.len() > 1 {
        let head = fields.drop_last();
        assert forall|i: int| 0 <= i < head.len() implies free_of(#[trigger] head[i], c) by {
            assert(head[i] == fields[i]);
        }
        lemma_join_fields_free(head, c);
        assert(free_of(fields.last(), c));
    }
}

/// Lines without line breaks are the lines of their text.
pub proof fn lemma_split_lines(lines: Seq<Seq<char>>)
    requires
        forall|i: int| 0 <= i < lines.len() ==> free_of(#[trigger] lines[i], '\n'),
    ensures
        split(join_lines(lines), '\n') == lines.push(Seq::<char>::empty()),
        lines_of(join_lines(lines)) == lines,
    decreases lines.len(),
{
    if lines.len() == 0 {
        assert(split(join_lines(lines), '\n') =~= lines.push(Seq::<char>::empty()));
    } else {
        let head = lines.drop_last();
        let line = lines.last();
        assert forall|i: int| 0 <= i < head.len() implies free_of(#[trigger] head[i], '\n') by {
            assert(head[i] == lines[i]);
        }
        lemma_split_lines(head);
        let before = join_lines(head);
        crate::text::lemma_split_append_free(before, line, '\n');
        let open = before + line;
        assert(split(open, '\n') =~= head.push(line));
        let closed = open.push('\n');
        assert(closed.drop_last() =~= open);
        assert(closed =~= before + line.push('\n'));
        assert(head.push(line) =~= lines);
    }
    assert(lines.push(Seq::<char>::empty()).drop_last() =~= lines);
}

/// Reading one more line.
pub proof fn lemma_decode_push(lines: Seq<Seq<char>>, line: Seq<char>)
    ensures
        decode_lines(lines.push(line)) == (match decode_lines(lines) {
            Some(draft) => decode_line(draft, line),
            None => None,
        }),
{
    assert(lines.push(line).drop_last() =~= lines);
}

/// The header lines hold no line break.
proof fn lemma_header_free(f: ChecksumFunction, timestamp_us: i64, message: Option<Seq<char>>)
    ensures
        forall|i: int|
            0 <= i < header_lines(f, timestamp_us, message).len() ==> free_of(
                #[trigger] header_lines(f, timestamp_us, message)[i],
                '\n',
            ),
{
    let first = seq![checksum_tag(), function_name(f)];
    let second = seq![timestamp_tag(), decimal(timestamp_us as int)];
    lemma_decimal_chars(timestamp_us as int, '\n');
    lemma_join_fields_free(first, '\n');
    lemma_join_fields_free(second, '\n');
    match message {
        Some(text) => {
            let third = seq![message_tag(), escape(text)];
            lemma_escape_free(text);
            lemma_join_fields_free(third, '\n');
        },
        None => {},
    }
}

/// Reading the header lines gives the digest function, the time and the
/// message that they were written for.
proof fn lemma_decode_header(f: ChecksumFunction, timestamp_us: i64, message: Option<Seq<char>>)
    ensures
        decode_lines(header_lines(f, timestamp_us, message)) == Some(
            Draft {
                checksum_function: Some(f),
                timestamp_us,
                message,
                files: Map::<Seq<char>, FileInfoView>::empty(),
            },
        ),
{
    let first = seq![checksum_tag(), function_name(f)];
    let second = seq![timestamp_tag(), decimal(timestamp_us as int)];
    lemma_decimal_chars(timestamp_us as int, ' ');
    lemma_split_fields(first);
    lemma_split_fields(second);
    lemma_function_names(f);
    lemma_parse_i64_decimal(timestamp_us);
    assert(checksum_tag().len() == 9 && timestamp_tag().len() == 10 && message_tag().len() == 8);
    let none = Seq::<Seq<char>>::empty();
    lemma_decode_push(none, join_fields(first));
    lemma_decode_push(none.push(join_fields(first)), join_fields(second));
    let fixed = seq![join_fields(first), join_fields(second)];
    assert(none.push(join_fields(first)).push(join_fields(second)) =~= fixed);
    let after_first = Draft { checksum_function: Some(f), ..empty_draft() };
    assert(decode_line(empty_draft(), join_fields(first)) == Some(after_first));
    let after_second = Draft { timestamp_us, ..after_first };
    assert(decode_line(after_first, join_fields(second)) == Some(after_second));
    match message {
        Some(text) => {
            let third = seq![message_tag(), escape(text)];
            lemma_escape_free(text);
            lemma_split_fields(third);
            lemma_unescape_escape(text);
            lemma_decode_push(fixed, join_fields(third));
            assert(decode_line(after_second, join_fields(third)) == Some(
                Draft { message: Some(text), ..after_second },
            ));
        },
        None => {},
    }
}

/// Reading the line of a file records the file, with the empty digest for an
/// absent one and the absent time for a modification time of 0.
proof fn lemma_decode_entry(draft: Draft, entry: (Seq<char>, FileInfoView))
    requires
        match entry.1.checksum {
            Some(digest) => free_of(digest, ' ') && free_of(digest, '\n'),
            None => true,
        },
    ensures
        decode_line(draft, entry_line(entry)) == Some(
            Draft { files: draft.files.insert(entry.0, stored_record(entry.1)), ..draft },
        ),
        free_of(entry_line(entry), '\n'),
{
    let fields = entry_fields(entry);
    let time: i64 = match entry.1.modified_timestamp_us {
        Some(us) => us,
        None => 0,
    };
    lemma_decimal_chars(entry.1.size_bytes as int, ' ');
    lemma_decimal_chars(entry.1.size_bytes as int, '\n');
    lemma_decimal_chars(time as int, ' ');
    lemma_decimal_chars(time as int, '\n');
    lemma_escape_free(entry.0);
    assert(decimal(entry.1.size_bytes as int) == digits(entry.1.size_bytes as nat));
    lemma_split_fields(fields);
    lemma_join_fields_free(fields, '\n');
    lemma_unescape_escape(entry.0);
    lemma_parse_u64_digits(entry.1.size_bytes);
    lemma_parse_i64_decimal(time);
}

/// Reading the lines of a snapshot's header and of its first `n` files.
proof fn lemma_decode_snapshot_lines(
    f: ChecksumFunction,
    entries: Entries,
    message: Option<Seq<char>>,
    timestamp_us: i64,
    n: int,
)
    requires
        sorted(entries),
        clean_digests(entries),
        0 <= n <= entries.len(),
    ensures
        decode_lines(snapshot_lines(f, entries.take(n), message, timestamp_us)) == Some(
            Draft {
                checksum_function: Some(f),
                timestamp_us,
                message,
                files: to_map(stored_entries(entries).take(n)),
            },
        ),
        forall|i: int|
            0 <= i < snapshot_lines(f, entries.take(n), message, timestamp_us).len() ==> free_of(
                #[trigger] snapshot_lines(f, entries.take(n), message, timestamp_us)[i],
                '\n',
            ),
    decreases n,
{
    let head = header_lines(f, timestamp_us, message);
    let stored = stored_entries(entries);
    if n == 0 {
        lemma_decode_header(f, timestamp_us, message);
        lemma_header_free(f, timestamp_us, message);
        assert(snapshot_lines(f, entries.take(0), message, timestamp_us) =~= head);
        lemma_take_all(stored);
    } else {
        lemma_decode_snapshot_lines(f, entries, message, timestamp_us, n - 1);
        let before = snapshot_lines(f, entries.take(n - 1), message, timestamp_us);
        let now = snapshot_lines(f, entries.take(n), message, timestamp_us);
        let entry = entries[n - 1];
        assert(now =~= before.push(entry_line(entry)));
        lemma_decode_push(before, entry_line(entry));
        let draft = Draft {
            checksum_function: Some(f),
            timestamp_us,
            message,
            files: to_map(stored.take(n - 1)),
        };
        lemma_decode_entry(draft, entry);
        assert(sorted(stored)) by {
            assert forall|a: int, b: int|
                #![trigger stored[a], stored[b]]
                0 <= a < b < stored.len() implies crate::text::seq_lt(stored[a].0, stored[b].0) by {
                assert(stored[a].0 == entries[a].0 && stored[b].0 == entries[b].0);
                assert(crate::text::seq_lt(entries[a].0, entries[b].0));
            }
        }
        lemma_take_next(stored, n - 1);
        assert(stored[n - 1] == (entry.0, stored_record(entry.1)));
        assert forall|i: int| 0 <= i < now.len() implies free_of(#[trigger] now[i], '\n') by {
            if i < before.len() {
                assert(now[i] == before[i]);
            }
        }
    }
}

/// The text of a snapshot is read back as the snapshot, with the same paths,
/// sizes, digests and modification times, the same digest function and the
/// same message. An absent modification time comes back absent. Where a
/// record has no digest the empty digest comes back in its place, and a
/// modification time of exactly 0, which is what an absent time is written
/// as, comes back absent.
pub proof fn lemma_decode_encode(
    f: ChecksumFunction,
    entries: Entries,
    message: Option<Seq<char>>,
    timestamp_us: i64,
)
    requires
        sorted(entries),
        clean_digests(entries),
    ensures
        decode_text(encode_text(f, entries, message, timestamp_us), timestamp_us) == Some(
            SnapshotView { checksum_function: f, files: to_map(stored_entries(entries)), message },
        ),
{
    lemma_decode_snapshot_lines(f, entries, message, timestamp_us, entries.len() as int);
    lemma_take_all(entries);
    lemma_take_all(stored_entries(entries));
    lemma_split_lines(snapshot_lines(f, entries, message, timestamp_us));
}

/// Records with a digest and a modification time other than 0 come back as
/// they are.
pub proof fn lemma_stored_complete(entries: Entries)
    requires
        complete(entries),
    ensures
        stored_entries(entries) == entries,
{
    assert(stored_entries(entries) =~= entries) by {
        assert forall|i: int| 0 <= i < entries.len() implies stored_entries(entries)[i]
            == entries[i] by {
            let info = entries[i].1;
            assert(stored_record(info) == info);
        }
    }
}

/// The bytes of a text hold that text.
pub proof fn lemma_text_of_encoded(text: Seq<char>)
    ensures
        text_of(encode_utf8(text)) == text,
{
    encode_utf8_valid_utf8(text);
    encode_utf8_decode_utf8(text);
}

/// Decoding what was encoded gives the snapshot back. This holds of every
/// snapshot whose records have a digest without spaces and line breaks, as
/// all digests are that the library computes, and a modification time that
/// is absent or not 0.
pub proof fn lemma_round_trip(
    f: ChecksumFunction,
    entries: Entries,
    message: Option<Seq<char>>,
    timestamp_us: i64,
)
    requires
        sorted(entries),
        clean_digests(entries),
        complete(entries),
    ensures
        decode_text(
            text_of(encode_utf8(encode_text(f, entries, message, timestamp_us))),
            timestamp_us,
        ) == Some(SnapshotView { checksum_function: f, files: to_map(entries), message }),
{
    lemma_text_of_encoded(encode_text(f, entries, message, timestamp_us));
    lemma_decode_encode(f, entries, message, timestamp_us);
    lemma_stored_complete(entries);
}

/// Decoding the bytes of an encoded snapshot gives the snapshot back, as of
/// the time it was encoded with.
pub proof fn lemma_snapshot_round_trip(snapshot: IndexSnapshot, timestamp_us: i64)
    requires
        snapshot.wf(),
        clean_digests(snapshot.entries()),
        complete(snapshot.entries()),
    ensures
        decode_text(text_of(encode_utf8(snapshot.text(timestamp_us))), timestamp_us) == Some(
            snapshot@,
        ),
{
    lemma_round_trip(
        snapshot.checksum_function,
        snapshot.entries(),
        opt_view(snapshot.message),
        timestamp_us,
    );
}

} // verus!
