//! Parsing of integer literals: an optional sign and a run of decimal
//! digits, read from the lexer's position.
use vstd::prelude::*;

use crate::strand::Lexer;

verus! {

/// Why an integer could not be read.
#[derive(Clone, Copy, Debug, PartialEq, Eq, Structural)]
pub enum NumberError {
    /// A `-` where only positive integers are allowed.
    Negative,
    /// Something other than a sign or a digit, or a sign without digits.
    Unexpected,
    /// The value does not fit the integer type.
    Overflow,
}

pub open spec fn is_digit(c: char) -> bool {
    '0' <= c && c <= '9'
}

/// The value of a run of decimal digits.
pub open spec fn digits_value(s: Seq<char>) -> nat
    decreases s.len(),
{
    if s.len() == 0 {
        0
    } else {
        digits_value(s.drop_last()) * 10 + ((s.last() as u32 - '0' as u32) as nat)
    }
}

/// The end of the digit run that starts at `i`.
pub open spec fn digits_end(src: Seq<char>, i: int) -> int
    decreases src.len() - i,
{
    if i < 0 || i >= src.len() || !is_digit(src[i]) {
        i
    } else {
        digits_end(src, i + 1)
    }
}

/// The magnitude from `start`: its digits and the position after them.
pub open spec fn magnitude(src: Seq<char>, start: int) -> (nat, int) {
    (digits_value(src.subrange(start, digits_end(src, start))), digits_end(src, start))
}

pub open spec fn parse_unsigned_spec(src: Seq<char>, pos: int) -> Result<(u64, int), NumberError> {
    if pos >= src.len() {
        Err(NumberError::Unexpected)
    } else if src[pos] == '-' {
        Err(NumberError::Negative)
    } else if src[pos] != '+' && !is_digit(src[pos]) {
        Err(NumberError::Unexpected)
    } else {
        let start = if src[pos] == '+' { pos + 1 } else { pos };
        let (v, end) = magnitude(src, start);
        if end == start {
            Err(NumberError::Unexpected)
        } else if v > u64::MAX {
            Err(NumberError::Overflow)
        } else {
            Ok((v as u64, end))
        }
    }
}

pub open spec fn parse_signed_spec(src: Seq<char>, pos: int) -> Result<(i64, int), NumberError> {
    if pos >= src.len() || (src[pos] != '+' && src[pos] != '-' && !is_digit(src[pos])) {
        Err(NumberError::Unexpected)
    } else {
        let negative = src[pos] == '-';
        let start = if is_digit(src[pos]) { pos } else { pos + 1 };
        let (v, end) = magnitude(src, start);
        let value: int = if negative { -v } else { v as int };
        if end == start {
            Err(NumberError::Unexpected)
        } else if value < i64::MIN || value > i64::MAX {
            Err(NumberError::Overflow)
        } else {
            Ok((value as i64, end))
        }
    }
}

proof fn lemma_digits_value_grows(s: Seq<char>, k: int)
    requires
        0 <= k <= s.len(),
        forall|i: int| 0 <= i < s.len() ==> is_digit(#[trigger] s[i]),
    ensures
        digits_value(s.subrange(0, k)) <= digits_value(s),
    decreases s.len() - k,
{
    if k < s.len() {
        lemma_digits_value_grows(s, k + 1);
        assert(s.subrange(0, k + 1).drop_last() =~= s.subrange(0, k));
    } else {
        assert(s.subrange(0, k) =~= s);
    }
}

/// Reads the digits from `start`: their value while it stays at or below
/// `limit`, else `None`; and the end of the run.
fn read_digits(src: &Vec<char>, start: usize, limit: u64) -> (r: (Option<u64>, usize))
    requires
        start <= src@.len(),
    ensures
        r.1 == digits_end(src@, start as int),
        start <= r.1 <= src@.len(),
        match r.0 {
            Some(v) => v == magnitude(src@, start as int).0 && v <= limit,
            None => magnitude(src@, start as int).0 > limit,
        },
{
    let mut i = start;
    while i < src.len() && '0' <= src[i] && src[i] <= '9'
        invariant
            start <= i <= src@.len(),
            digits_end(src@, start as int) == digits_end(src@, i as int),
            forall|j: int| start <= j < i ==> is_digit(#[trigger] src@[j]),
        decreases src@.len() - i,
    {
        i = i + 1;
    }
    let end = i;
    assert(digits_end(src@, end as int) == end as int);
    let ghost run = src@.subrange(start as int, end as int);
    let mut acc: u64 = 0;
    let mut k = start;
    while k < end
        invariant
            start <= k <= end,
            end <= src@.len(),
            end == digits_end(src@, start as int),
            run == src@.subrange(start as int, end as int),
            forall|j: int| start <= j < end ==> is_digit(#[trigger] src@[j]),
            acc == digits_value(src@.subrange(start as int, k as int)),
            acc <= limit,
        decreases end - k,
    {
        let d = (src[k] as u32 - '0' as u32) as u64;
        assert(src@.subrange(start as int, k + 1).drop_last() =~= src@.subrange(start as int, k as int));
        if d > limit || acc > (limit - d) / 10 {
            proof {
                if d <= limit {
                    assert(acc * 10 + d > limit) by (nonlinear_arith)
                        requires
                            acc > (limit - d) / 10,
                            d <= 9,
                            d <= limit;
                }
                assert forall|j: int| 0 <= j < run.len() implies is_digit(#[trigger] run[j]) by {
                    assert(run[j] == src@[start + j]);
                }
                lemma_digits_value_grows(run, k + 1 - start);
                assert(run.subrange(0, k + 1 - start) =~= src@.subrange(start as int, k + 1));
            }
            return (None, end);
        }
        proof {
            assert(acc * 10 + d <= limit) by (nonlinear_arith)
                requires
                    acc <= (limit - d) / 10,
                    d <= 9,
                    d <= limit;
        }
        acc = acc * 10 + d;
        k = k + 1;
    }
    (Some(acc), end)
}

/// Reads an unsigned integer at the lexer's position: an optional `+` and
/// digits. A `-` is refused, as is anything else.
pub fn parse_integer(lexer: &mut Lexer) -> (r: Result<u64, NumberError>)
    ensures
        final(lexer).source@ == old(lexer).source@,
        match parse_unsigned_spec(old(lexer).source@, old(lexer).pos as int) {
            Ok((v, end)) => r == Ok::<u64, NumberError>(v) && final(lexer).pos == end,
            Err(e) => r == Err::<u64, NumberError>(e) && final(lexer).pos == old(lexer).pos,
        },
{
    let pos = lexer.pos;
    if pos >= lexer.source.len() {
        return Err(NumberError::Unexpected);
    }
    let c = lexer.source[pos];
    if c == '-' {
        return Err(NumberError::Negative);
    }
    if c != '+' && !('0' <= c && c <= '9') {
        return Err(NumberError::Unexpected);
    }
    let start = if c == '+' { pos + 1 } else { pos };
    let (v, end) = read_digits(&lexer.source, start, u64::MAX);
    if end == start {
        return Err(NumberError::Unexpected);
    }
    match v {
        Some(v) => {
            lexer.pos = end;
            Ok(v)
        },
        None => Err(NumberError::Overflow),
    }
}

/// Reads a signed integer at the lexer's position: an optional `+` or `-`
/// and digits.
pub fn parse_signed_integer(lexer: &mut Lexer) -> (r: Result<i64, NumberError>)
    ensures
        final(lexer).source@ == old(lexer).source@,
        match parse_signed_spec(old(lexer).source@, old(lexer).pos as int) {
            Ok((v, end)) => r == Ok::<i64, NumberError>(v) && final(lexer).pos == end,
            Err(e) => r == Err::<i64, NumberError>(e) && final(lexer).pos == old(lexer).pos,
        },
{
    let pos = lexer.pos;
    if pos >= lexer.source.len() {
        return Err(NumberError::Unexpected);
    }
    let c = lexer.source[pos];
    let is_digit = '0' <= c && c <= '9';
    if c != '+' && c != '-' && !is_digit {
        return Err(NumberError::Unexpected);
    }
    let negative = c == '-';
    let start = if is_digit { pos } else { pos + 1 };
    let limit: u64 = if negative { 0x8000_0000_0000_0000u64 } else { 0x7fff_ffff_ffff_ffffu64 };
    let (v, end) = read_digits(&lexer.source, start, limit);
    if end == start {
        return Err(NumberError::Unexpected);
    }
    match v {
        Some(v) => {
            lexer.pos = end;
            if negative {
                if v == 0x8000_0000_0000_0000u64 {
                    Ok(i64::MIN)
                } else {
                    Ok(-(v as i64))
                }
            } else {
                Ok(v as i64)
            }
        },
        None => Err(NumberError::Overflow),
    }
}

} // verus!
