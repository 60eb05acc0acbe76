//! Integers in decimal notation, as snapshots and file names write them.

use vstd::prelude::*;
use crate::text::free_of;

verus! {

/// A decimal digit.
pub open spec fn is_digit(c: char) -> bool {
    '0' <= c && c <= '9'
}

/// The digit that stands for `d`, from 0 to 9.
pub open spec fn digit_char(d: int) -> char {
    (d + 48) as u8 as char
}

/// What a digit stands for.
pub open spec fn digit_value(c: char) -> int {
    c as u32 as int - 48
}

/// Whether `s` is made of digits.
pub open spec fn all_digits(s: Seq<char>) -> bool {
    forall|i: int| 0 <= i < s.len() ==> is_digit(#[trigger] s[i])
}

/// The digits of `n`, without leading zeros; `0` for zero.
pub open spec fn digits(n: nat) -> Seq<char>
    decreases n,
{
    if n < 10 {
        seq![digit_char(n as int)]
    } else {
        digits(n / 10).push(digit_char((n % 10) as int))
    }
}

/// An integer in decimal: a minus sign where it is negative, then the digits
/// of its magnitude.
pub open spec fn decimal(i: int) -> Seq<char> {
    if i < 0 {
        seq!['-'] + digits((-i) as nat)
    } else {
        digits(i as nat)
    }
}

/// The number that a string of digits stands for.
pub open spec fn value_of(s: Seq<char>) -> int
    decreases s.len(),
{
    if s.len() == 0 {
        0
    } else {
        value_of(s.drop_last()) * 10 + digit_value(s.last())
    }
}

/// The number that `s` stands for where `s` is one digit or more and the
/// number is not above `max`.
pub open spec fn parse_digits(s: Seq<char>, max: int) -> Option<int> {
    if s.len() > 0 && all_digits(s) && value_of(s) <= max {
        Some(value_of(s))
    } else {
        None
    }
}

/// The unsigned 64-bit number that `s` stands for: digits, after a plus sign
/// or none.
pub open spec fn parse_u64(s: Seq<char>) -> Option<u64> {
    let body = if s.len() > 0 && s[0] == '+' { s.drop_first() } else { s };
    match parse_digits(body, u64::MAX as int) {
        Some(v) => Some(v as u64),
        None => None,
    }
}

/// The signed 64-bit number that `s` stands for: digits, after a plus sign, a
/// minus sign or none.
pub open spec fn parse_i64(s: Seq<char>) -> Option<i64> {
    if s.len() > 0 && s[0] == '-' {
        match parse_digits(s.drop_first(), 0x8000_0000_0000_0000) {
            Some(v) => Some((-v) as i64),
            None => None,
        }
    } else {
        let body = if s.len() > 0 && s[0] == '+' { s.drop_first() } else { s };
        match parse_digits(body, i64::MAX as int) {
            Some(v) => Some(v as i64),
            None => None,
        }
    }
}

/// The digits of a number are digits, at least one, and stand for it.
pub proof fn lemma_digits(n: nat)
    ensures
        digits(n).len() > 0,
        all_digits(digits(n)),
        value_of(digits(n)) == n,
    decreases n,
{
    if n < 10 {
        let s = digits(n);
        assert(s.drop_last() =~= Seq::<char>::empty());
        assert(value_of(s.drop_last()) == 0);
    } else {
        lemma_digits(n / 10);
        let s = digits(n);
        assert(s.drop_last() =~= digits(n / 10));
    }
}

/// Where the digits of a string stand for less, the longer string stands for
/// no less.
pub proof fn lemma_value_grows(s: Seq<char>, n: int)
    requires
        all_digits(s),
        0 <= n <= s.len(),
    ensures
        0 <= value_of(s.take(n)) <= value_of(s),
    decreases s.len() - n,
{
    if n < s.len() {
        lemma_value_grows(s, n + 1);
        assert(s.take(n + 1).drop_last() =~= s.take(n));
        assert(s.take(n + 1).last() == s[n]);
        lemma_value_nonnegative(s.take(n));
    } else {
        assert(s.take(n) =~= s);
        lemma_value_nonnegative(s);
    }
}

proof fn lemma_value_nonnegative(s: Seq<char>)
    requires
        all_digits(s),
    ensures
        0 <= value_of(s),
    decreases s.len(),
{
    if s.len() > 0 {
        lemma_value_nonnegative(s.drop_last());
    }
}

/// What is written for an unsigned number is read as that number.
pub proof fn lemma_parse_u64_digits(n: u64)
    ensures
        parse_u64(digits(n as nat)) == Some(n),
{
    lemma_digits(n as nat);
}

/// What is written for a signed number is read as that number.
pub proof fn lemma_parse_i64_decimal(i: i64)
    ensures
        parse_i64(decimal(i as int)) == Some(i),
{
    if i < 0 {
        lemma_digits((-i) as nat);
        assert(decimal(i as int).drop_first() =~= digits((-i) as nat));
    } else {
        lemma_digits(i as nat);
    }
}

/// A number in decimal holds digits and at most a minus sign: no space, no
/// line break, no slash.
pub proof fn lemma_decimal_chars(i: int, c: char)
    requires
        !is_digit(c),
        c != '-',
    ensures
        free_of(decimal(i), c),
        decimal(i).len() > 0,
{
    if i < 0 {
        lemma_digits((-i) as nat);
    } else {
        lemma_digits(i as nat);
    }
}

/// Appends the digits of `n` to `out`.
pub fn push_u64(out: &mut Vec<char>, n: u64)
    ensures
        final(out)@ == old(out)@ + digits(n as nat),
    decreases n,
{
    if n >= 10 {
        push_u64(out, n / 10);
    }
    let d: u8 = (n % 10) as u8;
    let c = (d + 48) as char;
    assert(c == digit_char((n % 10) as int));
    out.push(c);
    proof {
        if n < 10 {
            assert(out@ =~= old(out)@ + digits(n as nat));
        } else {
            assert(out@ =~= old(out)@ + digits(n as nat));
        }
    }
}

/// Appends `i` in decimal to `out`.
pub fn push_i64(out: &mut Vec<char>, i: i64)
    ensures
        final(out)@ == old(out)@ + decimal(i as int),
{
    if i < 0 {
        out.push('-');
        let magnitude: u64 = ((-(i + 1)) as u64) + 1;
        push_u64(out, magnitude);
        assert(out@ =~= old(out)@ + decimal(i as int));
    } else {
        push_u64(out, i as u64);
    }
}

/// The number that `s[from..]` stands for where that is one digit or more
/// and the number is not above `max`.
pub fn read_digits(s: &Vec<char>, from: usize, max: u64) -> (r: Option<u64>)
    requires
        from <= s.len(),
    ensures
        r.is_some() == parse_digits(s@.subrange(from as int, s.len() as int), max as int).is_some(),
        r.is_some() ==> parse_digits(s@.subrange(from as int, s.len() as int), max as int)
            == Some(r.unwrap() as int),
{
    let ghost body = s@.subrange(from as int, s.len() as int);
    if from == s.len() {
        return None;
    }
    let mut value: u64 = 0;
    let mut i: usize = from;
    assert(body.take(0) =~= Seq::<char>::empty());
    while i < s.len()
        invariant
            from <= i <= s.len(),
            body == s@.subrange(from as int, s.len() as int),
            all_digits(body.take(i - from)),
            value == value_of(body.take(i - from)),
            value <= max,
        decreases s.len() - i,
    {
        let c = s[i];
        assert(c == body[i - from]);
        if !('0' <= c && c <= '9') {
            return None;
        }
        let d: u64 = (c as u32 - 48) as u64;
        proof {
            let upto = body.take(i - from + 1);
            assert(upto.drop_last() =~= body.take(i - from));
            assert(upto.last() == c);
            assert(all_digits(upto));
        }
        if d > max || value > (max - d) / 10 {
            proof {
                if all_digits(body) {
                    lemma_value_grows(body, i - from + 1);
                }
            }
            return None;
        }
        value = value * 10 + d;
        i += 1;
    }
    assert(body.take(i - from) =~= body);
    Some(value)
}

/// The unsigned number that `s` stands for.
pub fn read_u64(s: &Vec<char>) -> (r: Option<u64>)
    ensures
        r == parse_u64(s@),
{
    let from: usize = if s.len() > 0 && s[0] == '+' { 1 } else { 0 };
    assert(s@.subrange(0, s.len() as int) =~= s@);
    assert(s@.subrange(1, s.len() as int) =~= s@.drop_first());
    read_digits(s, from, u64::MAX)
}

/// The signed number that `s` stands for.
pub fn read_i64(s: &Vec<char>) -> (r: Option<i64>)
    ensures
        r == parse_i64(s@),
{
    assert(s@.subrange(0, s.len() as int) =~= s@);
    assert(s@.subrange(1, s.len() as int) =~= s@.drop_first());
    if s.len() > 0 && s[0] == '-' {
        match read_digits(s, 1, 0x8000_0000_0000_0000) {
            Some(v) => {
                if v == 0x8000_0000_0000_0000 {
                    Some(i64::MIN)
                } else {
                    Some(-(v as i64))
                }
            },
            None => None,
        }
    } else {
        let from: usize = if s.len() > 0 && s[0] == '+' { 1 } else { 0 };
        match read_digits(s, from, 0x7fff_ffff_ffff_ffff) {
            Some(v) => Some(v as i64),
            None => None,
        }
    }
}

} // verus!
