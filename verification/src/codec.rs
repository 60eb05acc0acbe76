//! The text form of a snapshot: one line for each header and each file,
//! fields parted by single spaces, paths and messages escaped.

use vstd::prelude::*;
use crate::error::Error;
use crate::text::{chars_to_string, free_of, opt_view, str_to_chars};

verus! {

/// What is written for one character of a path or a message: a backslash and
/// `n` for a line break, two backslashes for one, a backslash and `_` for a
/// space, and any other character as it is.
pub open spec fn escape_char(c: char) -> Seq<char> {
    if c == '\n' {
        seq!['\\', 'n']
    } else if c == '\\' {
        seq!['\\', '\\']
    } else if c == ' ' {
        seq!['\\', '_']
    } else {
        seq![c]
    }
}

/// A path or a message as it is written: without spaces and line breaks.
pub open spec fn escape(s: Seq<char>) -> Seq<char>
    decreases s.len(),
{
    if s.len() == 0 {
        Seq::<char>::empty()
    } else {
        escape(s.drop_last()) + escape_char(s.last())
    }
}

/// Reading escaped text from the left: what was read so far, and whether a
/// backslash waits for its second character. There is no result after a
/// backslash with anything but `\`, `n` or `_` behind it.
pub open spec fn unescape_state(s: Seq<char>) -> Option<(Seq<char>, bool)>
    decreases s.len(),
{
    if s.len() == 0 {
        Some((Seq::<char>::empty(), false))
    } else {
        match unescape_state(s.drop_last()) {
            None => None,
            Some((text, pending)) => {
                let c = s.last();
                if pending {
                    if c == '\\' {
                        Some((text.push('\\'), false))
                    } else if c == 'n' {
                        Some((text.push('\n'), false))
                    } else if c == '_' {
                        Some((text.push(' '), false))
                    } else {
                        None
                    }
                } else if c == '\\' {
                    Some((text, true))
                } else {
                    Some((text.push(c), false))
                }
            },
        }
    }
}

/// The text that `s` is the escaped form of. There is none where a backslash
/// has anything but `\`, `n` or `_` behind it, or nothing at all.
pub open spec fn unescape(s: Seq<char>) -> Option<Seq<char>> {
    match unescape_state(s) {
        Some((text, pending)) => if pending {
            None
        } else {
            Some(text)
        },
        None => None,
    }
}

/// Escaped text is read back as what was escaped.
pub proof fn lemma_unescape_escape(s: Seq<char>)
    ensures
        unescape_state(escape(s)) == Some((s, false)),
        unescape(escape(s)) == Some(s),
    decreases s.len(),
{
    if s.len() > 0 {
        let head = s.drop_last();
        let c = s.last();
        lemma_unescape_escape(head);
        let written = escape(s);
        if c == '\n' || c == '\\' || c == ' ' {
            let second = escape_char(c)[1];
            assert(written.drop_last() =~= escape(head).push('\\'));
            assert(written.drop_last().drop_last() =~= escape(head));
            assert(written.last() == second);
            assert(unescape_state(written.drop_last()) == Some((head, true)));
        } else {
            assert(written.drop_last() =~= escape(head));
            assert(written.last() == c);
        }
        assert(head.push(c) =~= s);
    }
}

/// Escaped text holds neither a space nor a line break.
pub proof fn lemma_escape_free(s: Seq<char>)
    ensures
        free_of(escape(s), ' '),
        free_of(escape(s), '\n'),
    decreases s.len(),
{
    if s.len() > 0 {
        lemma_escape_free(s.drop_last());
    }
}

/// Appends the escaped form of `src` to `out`.
pub fn push_escaped(out: &mut Vec<char>, src: &str)
    ensures
        final(out)@ == old(out)@ + escape(src@),
{
    for c in it: src.chars()
        invariant
            it.seq() == src@,
            out@ == old(out)@ + escape(src@.take(it.index() as int)),
    {
        proof {
            let upto = src@.take(it.index() as int + 1);
            assert(upto.drop_last() =~= src@.take(it.index() as int));
            assert(upto.last() == c);
        }
        let ghost before = out@;
        if c == '\n' {
            out.push('\\');
            out.push('n');
        } else if c == '\\' {
            out.push('\\');
            out.push('\\');
        } else if c == ' ' {
            out.push('\\');
            out.push('_');
        } else {
            out.push(c);
        }
        assert(out@ =~= before + escape_char(c));
    }
    assert(src@.take(src@.len() as int) =~= src@);
}

/// The escaped form of `src`.
pub fn encode_string(src: &str) -> (dst: String)
    ensures
        dst@ == escape(src@),
{
    let mut out: Vec<char> = Vec::new();
    push_escaped(&mut out, src);
    chars_to_string(&out)
}

/// The text that `src` is the escaped form of, where it is one.
pub fn unescape_chars(src: &Vec<char>) -> (dst: Option<String>)
    ensures
        opt_view(dst) == unescape(src@),
{
    let mut dst = String::new();
    let mut pending = false;
    let mut i: usize = 0;
    assert(src@.take(0) =~= Seq::<char>::empty());
    while i < src.len()
        invariant
            i <= src.len(),
            unescape_state(src@.take(i as int)) == Some((dst@, pending)),
        decreases src.len() - i,
    {
        let c = src[i];
        proof {
            let upto = src@.take(i as int + 1);
            assert(upto.drop_last() =~= src@.take(i as int));
            assert(upto.last() == c);
        }
        if pending {
            if c == '\\' {
                dst.push('\\');
            } else if c == 'n' {
                dst.push('\n');
            } else if c == '_' {
                dst.push(' ');
            } else {
                proof {
                    lemma_unescape_fails(src@, i as int + 1);
                }
                return None;
            }
            pending = false;
        } else if c == '\\' {
            pending = true;
        } else {
            dst.push(c);
        }
        i += 1;
    }
    assert(src@.take(i as int) =~= src@);
    if pending {
        return None;
    }
    Some(dst)
}

/// The text that `src` is the escaped form of. An unknown escape sequence is
/// refused, and so is a backslash at the very end.
pub fn decode_string(src: &str) -> (dst: Result<String, Error>)
    ensures
        match dst {
            Ok(text) => unescape(src@) == Some(text@),
            Err(e) => e == Error::Format && unescape(src@) is None,
        },
{
    let chars = str_to_chars(src);
    match unescape_chars(&chars) {
        Some(text) => Ok(text),
        None => Err(Error::Format),
    }
}

/// Text that cannot be read up to some point cannot be read as a whole.
proof fn lemma_unescape_fails(s: Seq<char>, n: int)
    requires
        0 <= n <= s.len(),
        unescape_state(s.take(n)) is None,
    ensures
        unescape_state(s) is None,
    decreases s.len() - n,
{
    if n < s.len() {
        assert(s.take(n + 1).drop_last() =~= s.take(n));
        lemma_unescape_fails(s, n + 1);
    } else {
        assert(s.take(n) =~= s);
    }
}

} // verus!
