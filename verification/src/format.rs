//! The grammar of a stored snapshot. A snapshot is text in UTF-8, one line
//! for each header and each file, every line ended by a line feed:
//!
//! ```text
//! #checksum <name of the digest function>
//! #timestamp <microseconds>
//! #message <escaped message>
//! <digest> <size> <modification time, or 0> <escaped path>
//! ```

use vstd::prelude::*;
use vstd::string::StrSliceExecFns;
use vstd::utf8::{decode_utf8, encode_utf8, valid_utf8};
use crate::checksum::{
    checksum_function_from_str, checksum_function_to_str, function_name, function_named,
    ChecksumFunction,
};
use crate::codec::{escape, push_escaped, unescape, unescape_chars};
use crate::decimal::{decimal, digits, parse_i64, parse_u64, push_i64, push_u64, read_i64, read_u64};
use crate::error::Error;
use crate::index::{FileInfoView, IndexFileInfo, IndexSnapshot, SnapshotView};
use crate::table::{Entries, FileTable};
use crate::text::{
    chars_eq, chars_to_string, opt_view, push_str_chars, split, split_chars, str_to_chars, views,
};

verus! {

/// What opens the line that names the digest function.
pub open spec fn checksum_tag() -> Seq<char> {
    seq!['#', 'c', 'h', 'e', 'c', 'k', 's', 'u', 'm']
}

/// What opens the line that holds the snapshot's time.
pub open spec fn timestamp_tag() -> Seq<char> {
    seq!['#', 't', 'i', 'm', 'e', 's', 't', 'a', 'm', 'p']
}

/// What opens the line that holds the message.
pub open spec fn message_tag() -> Seq<char> {
    seq!['#', 'm', 'e', 's', 's', 'a', 'g', 'e']
}

/// The fields of a line, a single space between each two.
pub open spec fn join_fields(fields: Seq<Seq<char>>) -> Seq<char>
    decreases fields.len(),
{
    if fields.len() == 0 {
        Seq::<char>::empty()
    } else if fields.len() == 1 {
        fields[0]
    } else {
        join_fields(fields.drop_last()).push(' ') + fields.last()
    }
}

/// The lines of a text, a line feed after each.
pub open spec fn join_lines(lines: Seq<Seq<char>>) -> Seq<char>
    decreases lines.len(),
{
    if lines.len() == 0 {
        Seq::<char>::empty()
    } else {
        join_lines(lines.drop_last()) + lines.last().push('\n')
    }
}

/// The four fields of a file's line: the digest, or nothing where there is
/// none; the size; the modification time, or 0 where there is none; the
/// escaped path.
pub open spec fn entry_fields(entry: (Seq<char>, FileInfoView)) -> Seq<Seq<char>> {
    seq![
        match entry.1.checksum {
            Some(digest) => digest,
            None => Seq::<char>::empty(),
        },
        digits(entry.1.size_bytes as nat),
        decimal(
            match entry.1.modified_timestamp_us {
                Some(us) => us as int,
                None => 0,
            },
        ),
        escape(entry.0),
    ]
}

/// The line of a file.
pub open spec fn entry_line(entry: (Seq<char>, FileInfoView)) -> Seq<char> {
    join_fields(entry_fields(entry))
}

/// The header lines of a snapshot: digest function, time, and the message
/// where there is one.
pub open spec fn header_lines(f: ChecksumFunction, timestamp_us: i64, message: Option<Seq<char>>) -> Seq<
    Seq<char>,
> {
    let fixed = seq![
        join_fields(seq![checksum_tag(), function_name(f)]),
        join_fields(seq![timestamp_tag(), decimal(timestamp_us as int)]),
    ];
    match message {
        Some(text) => fixed.push(join_fields(seq![message_tag(), escape(text)])),
        None => fixed,
    }
}

/// The lines of a snapshot: the headers, then the files by increasing path.
pub open spec fn snapshot_lines(
    f: ChecksumFunction,
    entries: Entries,
    message: Option<Seq<char>>,
    timestamp_us: i64,
) -> Seq<Seq<char>> {
    header_lines(f, timestamp_us, message) + entries.map_values(
        |entry: (Seq<char>, FileInfoView)| entry_line(entry),
    )
}

/// The text of a snapshot taken at `timestamp_us`. Equal snapshots have equal
/// texts.
pub open spec fn encode_text(
    f: ChecksumFunction,
    entries: Entries,
    message: Option<Seq<char>>,
    timestamp_us: i64,
) -> Seq<char> {
    join_lines(snapshot_lines(f, entries, message, timestamp_us))
}

/// What has been read of a snapshot.
pub struct Draft {
    pub checksum_function: Option<ChecksumFunction>,
    pub timestamp_us: i64,
    pub message: Option<Seq<char>>,
    pub files: Map<Seq<char>, FileInfoView>,
}

/// Nothing read yet.
pub open spec fn empty_draft() -> Draft {
    Draft {
        checksum_function: None,
        timestamp_us: 0,
        message: None,
        files: Map::<Seq<char>, FileInfoView>::empty(),
    }
}

/// The modification time that the third field of a file's line stands for.
/// An absent time is written as 0, so 0 is read as the absent time, and so is
/// a field that is no number.
pub open spec fn time_field(field: Seq<char>) -> Option<i64> {
    match parse_i64(field) {
        Some(us) => if us == 0 {
            None
        } else {
            Some(us)
        },
        None => None,
    }
}

/// Reading one line. A line of two fields that opens with one of the three
/// tags is a header; any other line has four fields and is a file. A later
/// header or file takes the place of an earlier one of the same tag or path.
/// There is no result for another number of fields, for an unknown digest
/// function, an unknown escape sequence, or a time or a size that is no
/// number. A file's modification time that is 0 or no number is absent.
pub open spec fn decode_line(draft: Draft, line: Seq<char>) -> Option<Draft> {
    let fields = split(line, ' ');
    if fields.len() == 2 && fields[0] == checksum_tag() {
        match function_named(fields[1]) {
            Some(f) => Some(Draft { checksum_function: Some(f), ..draft }),
            None => None,
        }
    } else if fields.len() == 2 && fields[0] == timestamp_tag() {
        match parse_i64(fields[1]) {
            Some(us) => Some(Draft { timestamp_us: us, ..draft }),
            None => None,
        }
    } else if fields.len() == 2 && fields[0] == message_tag() {
        match unescape(fields[1]) {
            Some(text) => Some(Draft { message: Some(text), ..draft }),
            None => None,
        }
    } else if fields.len() == 4 {
        match (unescape(fields[3]), parse_u64(fields[1])) {
            (Some(path), Some(size)) => Some(
                Draft {
                    files: draft.files.insert(
                        path,
                        FileInfoView {
                            size_bytes: size,
                            modified_timestamp_us: time_field(fields[2]),
                            checksum: Some(fields[0]),
                        },
                    ),
                    ..draft
                },
            ),
            _ => None,
        }
    } else {
        None
    }
}

/// Reading lines one after the other.
pub open spec fn decode_lines(lines: Seq<Seq<char>>) -> Option<Draft>
    decreases lines.len(),
{
    if lines.len() == 0 {
        Some(empty_draft())
    } else {
        match decode_lines(lines.drop_last()) {
            None => None,
            Some(draft) => decode_line(draft, lines.last()),
        }
    }
}

/// The lines of a text: what stands before each line feed, and what follows
/// the last one unless that is nothing.
pub open spec fn lines_of(text: Seq<char>) -> Seq<Seq<char>> {
    let pieces = split(text, '\n');
    if pieces.last().len() == 0 {
        pieces.drop_last()
    } else {
        pieces
    }
}

/// The snapshot that `text` holds, expected to be of the time `expected_us`.
/// There is none where a line cannot be read, where no line names the digest
/// function, or where the time in the text, 0 without a line for it, is
/// another.
pub open spec fn decode_text(text: Seq<char>, expected_us: i64) -> Option<SnapshotView> {
    match decode_lines(lines_of(text)) {
        Some(draft) => match draft.checksum_function {
            Some(f) => if draft.timestamp_us == expected_us {
                Some(SnapshotView { checksum_function: f, files: draft.files, message: draft.message })
            } else {
                None
            },
            None => None,
        },
        None => None,
    }
}

/// The text that a run of bytes holds: what they encode where they are
/// UTF-8, else `lossy_text` of them.
pub open spec fn text_of(bytes: Seq<u8>) -> Seq<char> {
    if valid_utf8(bytes) {
        decode_utf8(bytes)
    } else {
        lossy_text(bytes)
    }
}

/// What `String::from_utf8_lossy` of std makes of bytes that are not UTF-8:
/// the text with U+FFFD in place of each ill-formed run.
pub uninterp spec fn lossy_text(bytes: Seq<u8>) -> Seq<char>;

/// `String::from_utf8_lossy` of std, as an owned string. It hands back the
/// text itself where the bytes are UTF-8, and puts U+FFFD for what is not.
#[verifier::external_body]
fn string_from_utf8_lossy(data: &[u8]) -> (text: String)
    ensures
        text@ == (if valid_utf8(data@) {
            decode_utf8(data@)
        } else {
            lossy_text(data@)
        }),
{
    String::from_utf8_lossy(data).into_owned()
}

/// The text that the bytes `data` hold.
pub fn text_from_bytes(data: &[u8]) -> (text: String)
    ensures
        text@ == text_of(data@),
{
    string_from_utf8_lossy(data)
}

/// What the three tags are as string literals.
proof fn lemma_tags()
    ensures
        "#checksum"@ == checksum_tag(),
        "#timestamp"@ == timestamp_tag(),
        "#message"@ == message_tag(),
{
    reveal_strlit("#checksum");
    reveal_strlit("#timestamp");
    reveal_strlit("#message");
    assert("#checksum"@ =~= checksum_tag());
    assert("#timestamp"@ =~= timestamp_tag());
    assert("#message"@ =~= message_tag());
}

/// A line appended to a text is appended to its lines.
pub proof fn lemma_join_lines_push(lines: Seq<Seq<char>>, line: Seq<char>)
    ensures
        join_lines(lines.push(line)) == join_lines(lines) + line.push('\n'),
{
    assert(lines.push(line).drop_last() =~= lines);
}

/// A field appended to a line follows a space.
pub proof fn lemma_join_fields_push(fields: Seq<Seq<char>>, field: Seq<char>)
    requires
        fields.len() >= 1,
    ensures
        join_fields(fields.push(field)) == join_fields(fields).push(' ') + field,
{
    assert(fields.push(field).drop_last() =~= fields);
}

/// A line of two fields.
pub proof fn lemma_join_two(a: Seq<char>, b: Seq<char>)
    ensures
        join_fields(seq![a, b]) == a.push(' ') + b,
{
    lemma_join_fields_push(seq![a], b);
    assert(seq![a].push(b) =~= seq![a, b]);
}

/// A line of four fields.
pub proof fn lemma_join_four(a: Seq<char>, b: Seq<char>, c: Seq<char>, d: Seq<char>)
    ensures
        join_fields(seq![a, b, c, d]) == ((a.push(' ') + b).push(' ') + c).push(' ') + d,
{
    lemma_join_two(a, b);
    lemma_join_fields_push(seq![a, b], c);
    assert(seq![a, b].push(c) =~= seq![a, b, c]);
    lemma_join_fields_push(seq![a, b, c], d);
    assert(seq![a, b, c].push(d) =~= seq![a, b, c, d]);
}

/// Appends a header line to `out`: the tag, a space, and the value that
/// `out` is then given by the caller.
fn push_tag(out: &mut Vec<char>, tag: &str)
    ensures
        final(out)@ == old(out)@ + tag@.push(' '),
{
    push_str_chars(out, tag);
    out.push(' ');
    assert(out@ =~= old(out)@ + tag@.push(' '));
}

/// Appends the header lines of a snapshot to `out`.
fn push_header(
    out: &mut Vec<char>,
    f: ChecksumFunction,
    timestamp_us: i64,
    message: &Option<String>,
)
    ensures
        final(out)@ == old(out)@ + join_lines(header_lines(f, timestamp_us, opt_view(*message))),
{
    proof {
        lemma_tags();
    }
    let name = checksum_function_to_str(&f);
    push_tag(out, "#checksum");
    push_str_chars(out, name.as_str());
    out.push('\n');
    let ghost first = join_fields(seq![checksum_tag(), function_name(f)]);
    proof {
        lemma_join_two(checksum_tag(), function_name(f));
        assert(out@ =~= old(out)@ + first.push('\n'));
    }
    push_tag(out, "#timestamp");
    push_i64(out, timestamp_us);
    out.push('\n');
    let ghost second = join_fields(seq![timestamp_tag(), decimal(timestamp_us as int)]);
    proof {
        lemma_join_two(timestamp_tag(), decimal(timestamp_us as int));
        assert(out@ =~= old(out)@ + first.push('\n') + second.push('\n'));
        lemma_join_lines_push(Seq::<Seq<char>>::empty(), first);
        assert(Seq::<Seq<char>>::empty().push(first) =~= seq![first]);
        lemma_join_lines_push(seq![first], second);
        assert(seq![first].push(second) =~= seq![first, second]);
        assert(join_lines(seq![first, second]) =~= first.push('\n') + second.push('\n'));
    }
    match message {
        Some(text) => {
            let ghost before = out@;
            push_tag(out, "#message");
            push_escaped(out, text.as_str());
            out.push('\n');
            proof {
                let third = join_fields(seq![message_tag(), escape(text@)]);
                lemma_join_two(message_tag(), escape(text@));
                assert(out@ =~= before + third.push('\n'));
                lemma_join_lines_push(seq![first, second], third);
                assert(out@ =~= old(out)@ + join_lines(seq![first, second].push(third)));
            }
        },
        None => {},
    }
}

/// Appends the line of a file to `out`.
fn push_entry(out: &mut Vec<char>, path: &String, info: &IndexFileInfo)
    ensures
        final(out)@ == old(out)@ + entry_line((path@, info@)).push('\n'),
{
    let ghost fields = entry_fields((path@, info@));
    match &info.checksum {
        Some(digest) => {
            push_str_chars(out, digest.as_str());
        },
        None => {},
    }
    out.push(' ');
    assert(out@ =~= old(out)@ + fields[0].push(' '));
    push_u64(out, info.size_bytes);
    out.push(' ');
    assert(out@ =~= old(out)@ + (fields[0].push(' ') + fields[1]).push(' '));
    let time: i64 = match info.modified_timestamp_us {
        Some(us) => us,
        None => 0,
    };
    push_i64(out, time);
    out.push(' ');
    assert(out@ =~= old(out)@ + ((fields[0].push(' ') + fields[1]).push(' ') + fields[2]).push(' '));
    push_escaped(out, path.as_str());
    out.push('\n');
    proof {
        lemma_join_four(fields[0], fields[1], fields[2], fields[3]);
        assert(fields =~= seq![fields[0], fields[1], fields[2], fields[3]]);
        assert(out@ =~= old(out)@ + entry_line((path@, info@)).push('\n'));
    }
}

impl IndexSnapshot {
    /// The text of the snapshot, as of `timestamp_us`.
    pub open spec fn text(&self, timestamp_us: i64) -> Seq<char> {
        encode_text(self.checksum_function, self.entries(), opt_view(self.message), timestamp_us)
    }

    /// The snapshot as text in UTF-8, with `timestamp_us` as its time: the
    /// headers, then a line for each file by increasing path.
    pub fn encode(&self, timestamp_us: i64) -> (data: Vec<u8>)
        ensures
            data@ == encode_utf8(self.text(timestamp_us)),
    {
        let ghost es = self.entries();
        let ghost to_line = |entry: (Seq<char>, FileInfoView)| entry_line(entry);
        let ghost head = header_lines(self.checksum_function, timestamp_us, opt_view(self.message));
        let mut out: Vec<char> = Vec::new();
        push_header(&mut out, self.checksum_function, timestamp_us, &self.message);
        assert(out@ =~= join_lines(head));
        let mut i: usize = 0;
        assert(head + es.take(0).map_values(to_line) =~= head);
        while i < self.files.len()
            invariant
                es == self.entries(),
                i <= es.len(),
                to_line == |entry: (Seq<char>, FileInfoView)| entry_line(entry),
                out@ == join_lines(head + es.take(i as int).map_values(to_line)),
            decreases es.len() - i,
        {
            push_entry(&mut out, self.files.path_at(i), self.files.info_at(i));
            proof {
                let line = entry_line(es[i as int]);
                let sofar = head + es.take(i as int).map_values(to_line);
                lemma_join_lines_push(sofar, line);
                assert(sofar.push(line) =~= head + es.take(i as int + 1).map_values(to_line));
            }
            i += 1;
        }
        assert(es.take(i as int) =~= es);
        let text = chars_to_string(&out);
        text.as_str().as_bytes_vec()
    }
}

/// What has been read of a snapshot, as it is held while reading.
struct Reading {
    checksum_function: Option<ChecksumFunction>,
    timestamp_us: i64,
    message: Option<String>,
    files: FileTable,
}

impl Reading {
    spec fn draft(self) -> Draft {
        Draft {
            checksum_function: self.checksum_function,
            timestamp_us: self.timestamp_us,
            message: opt_view(self.message),
            files: self.files@,
        }
    }
}

/// Whether `field` is the tag `tag`.
fn is_tag(field: &Vec<char>, tag: &str) -> (r: bool)
    ensures
        r == (field@ == tag@),
{
    let chars = str_to_chars(tag);
    chars_eq(field, &chars)
}

/// Reads a header line of the two fields `tag` and `value`, if `tag` is one
/// of the three tags.
fn read_header(reading: Reading, tag: &Vec<char>, value: &Vec<char>) -> (r: Option<Option<Reading>>)
    requires
        reading.files.wf(),
    ensures
        match r {
            None => tag@ != checksum_tag() && tag@ != timestamp_tag() && tag@ != message_tag(),
            Some(None) => {
                ||| tag@ == checksum_tag() && function_named(value@) is None
                ||| tag@ == timestamp_tag() && parse_i64(value@) is None
                ||| tag@ == message_tag() && unescape(value@) is None
            },
            Some(Some(next)) => {
                &&& next.files.wf()
                &&& next.files@ == reading.files@
                &&& tag@ == checksum_tag() ==> function_named(value@) is Some && next.draft() == (Draft {
                    checksum_function: function_named(value@),
                    ..reading.draft()
                })
                &&& tag@ == timestamp_tag() ==> parse_i64(value@) is Some && next.draft() == (Draft {
                    timestamp_us: parse_i64(value@)->0,
                    ..reading.draft()
                })
                &&& tag@ == message_tag() ==> unescape(value@) is Some && next.draft() == (Draft {
                    message: unescape(value@),
                    ..reading.draft()
                })
                &&& tag@ == checksum_tag() || tag@ == timestamp_tag() || tag@ == message_tag()
            },
        },
{
    proof {
        lemma_tags();
        assert(checksum_tag().len() == 9 && timestamp_tag().len() == 10 && message_tag().len() == 8);
    }
    if is_tag(tag, "#checksum") {
        let name = chars_to_string(value);
        match checksum_function_from_str(name.as_str()) {
            Ok(f) => Some(Some(Reading { checksum_function: Some(f), ..reading })),
            Err(_) => Some(None),
        }
    } else if is_tag(tag, "#timestamp") {
        match read_i64(value) {
            Some(us) => Some(Some(Reading { timestamp_us: us, ..reading })),
            None => Some(None),
        }
    } else if is_tag(tag, "#message") {
        match unescape_chars(value) {
            Some(text) => Some(Some(Reading { message: Some(text), ..reading })),
            None => Some(None),
        }
    } else {
        None
    }
}

/// The modification time that the field `time` stands for.
fn read_time(time: &Vec<char>) -> (r: Option<i64>)
    ensures
        r == time_field(time@),
{
    match read_i64(time) {
        Some(us) => if us == 0 {
            None
        } else {
            Some(us)
        },
        None => None,
    }
}

/// Reads the line of a file from its four fields.
fn read_entry(
    reading: Reading,
    digest: &Vec<char>,
    size: &Vec<char>,
    time: &Vec<char>,
    path: &Vec<char>,
) -> (r: Option<Reading>)
    requires
        reading.files.wf(),
    ensures
        match r {
            Some(next) => {
                &&& next.files.wf()
                &&& unescape(path@) is Some
                &&& parse_u64(size@) is Some
                &&& next.draft() == (Draft {
                    files: reading.files@.insert(
                        unescape(path@)->0,
                        FileInfoView {
                            size_bytes: parse_u64(size@)->0,
                            modified_timestamp_us: time_field(time@),
                            checksum: Some(digest@),
                        },
                    ),
                    ..reading.draft()
                })
            },
            None => unescape(path@) is None || parse_u64(size@) is None,
        },
{
    let name = match unescape_chars(path) {
        Some(name) => name,
        None => {
            return None;
        },
    };
    let size_bytes = match read_u64(size) {
        Some(n) => n,
        None => {
            return None;
        },
    };
    let checksum = chars_to_string(digest);
    let info = IndexFileInfo {
        size_bytes,
        modified_timestamp_us: read_time(time),
        checksum: Some(checksum),
    };
    let mut next = reading;
    next.files.insert(name, info);
    Some(next)
}

/// Reads one line.
fn read_line(reading: Reading, line: &Vec<char>) -> (r: Option<Reading>)
    requires
        reading.files.wf(),
    ensures
        match r {
            Some(next) => next.files.wf() && decode_line(reading.draft(), line@) == Some(next.draft()),
            None => decode_line(reading.draft(), line@) is None,
        },
{
    let fields = split_chars(line, ' ');
    let ghost parts = split(line@, ' ');
    assert(views(fields@) == parts);
    assert(fields.len() == parts.len());
    if fields.len() == 2 {
        assert(parts[0] == fields[0]@ && parts[1] == fields[1]@);
        match read_header(reading, &fields[0], &fields[1]) {
            Some(outcome) => outcome,
            None => None,
        }
    } else if fields.len() == 4 {
        assert(parts[0] == fields[0]@ && parts[1] == fields[1]@ && parts[2] == fields[2]@ && parts[3]
            == fields[3]@);
        read_entry(reading, &fields[0], &fields[1], &fields[2], &fields[3])
    } else {
        None
    }
}

/// Lines that cannot be read up to some point cannot be read as a whole.
proof fn lemma_decode_fails(lines: Seq<Seq<char>>, n: int)
    requires
        0 <= n <= lines.len(),
        decode_lines(lines.take(n)) is None,
    ensures
        decode_lines(lines) is None,
    decreases lines.len() - n,
{
    if n < lines.len() {
        assert(lines.take(n + 1).drop_last() =~= lines.take(n));
        lemma_decode_fails(lines, n + 1);
    } else {
        assert(lines.take(n) =~= lines);
    }
}

/// The snapshot that `text` holds, expected to be of the time
/// `timestamp_expected_us`.
pub fn decode_str(text: &str, timestamp_expected_us: i64) -> (r: Result<IndexSnapshot, Error>)
    ensures
        match r {
            Ok(snapshot) => snapshot.wf() && decode_text(text@, timestamp_expected_us) == Some(
                snapshot@,
            ),
            Err(e) => e == Error::Format && decode_text(text@, timestamp_expected_us) is None,
        },
{
    let chars = str_to_chars(text);
    let pieces = split_chars(&chars, '\n');
    proof {
        crate::text::lemma_split_nonempty(text@, '\n');
    }
    let ghost lines = lines_of(text@);
    let last: usize = pieces.len() - 1;
    assert(views(pieces@)[last as int] == pieces[last as int]@);
    let count: usize = if pieces[last].len() == 0 { last } else { pieces.len() };
    assert(lines =~= views(pieces@).take(count as int));
    let mut reading = Reading {
        checksum_function: None,
        timestamp_us: 0,
        message: None,
        files: FileTable::new(),
    };
    let mut i: usize = 0;
    assert(lines.take(0) =~= Seq::<Seq<char>>::empty());
    while i < count
        invariant
            i <= count <= pieces.len(),
            lines == views(pieces@).take(count as int),
            lines == lines_of(text@),
            reading.files.wf(),
            decode_lines(lines.take(i as int)) == Some(reading.draft()),
        decreases count - i,
    {
        proof {
            let upto = lines.take(i as int + 1);
            assert(upto.drop_last() =~= lines.take(i as int));
            assert(upto.last() == pieces[i as int]@);
        }
        match read_line(reading, &pieces[i]) {
            Some(next) => {
                reading = next;
            },
            None => {
                proof {
                    lemma_decode_fails(lines, i as int + 1);
                }
                return Err(Error::Format);
            },
        }
        i += 1;
    }
    assert(lines.take(i as int) =~= lines);
    match reading.checksum_function {
        Some(f) => {
            if reading.timestamp_us != timestamp_expected_us {
                return Err(Error::Format);
            }
            Ok(IndexSnapshot { checksum_function: f, files: reading.files, message: reading.message })
        },
        None => Err(Error::Format),
    }
}

impl IndexSnapshot {
    /// The snapshot that the bytes `data` hold as text, expected to be of
    /// the time `timestamp_expected_us`.
    pub fn decode(data: &[u8], timestamp_expected_us: i64) -> (r: Result<IndexSnapshot, Error>)
        ensures
            match r {
                Ok(snapshot) => snapshot.wf() && decode_text(
                    text_of(data@),
                    timestamp_expected_us,
                ) == Some(snapshot@),
                Err(e) => e == Error::Format && decode_text(
                    text_of(data@),
                    timestamp_expected_us,
                ) is None,
            },
    {
        let text = text_from_bytes(data);
        decode_str(text.as_str(), timestamp_expected_us)
    }
}

} // verus!
