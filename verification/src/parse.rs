//! The text form of a puzzle: numbers separated by white space, first the
//! height and the width, then for each row, and after the rows for each
//! column, the number of its hints followed by the hints.

use vstd::prelude::*;
use crate::common::{Hint, Input, Puzzle, hint_table};

verus! {

/// The byte, read as a character, is white space.
pub open spec fn is_space(b: u8) -> bool {
    (9 <= b <= 13) || b == 32 || b == 0x85 || b == 0xa0
}

/// The byte is a decimal digit.
pub open spec fn is_digit(b: u8) -> bool {
    48 <= b <= 57
}

/// The first place at or after `pos` that holds no white space.
pub open spec fn skip_spaces(text: Seq<u8>, pos: int) -> int
    decreases text.len() - pos,
{
    if 0 <= pos < text.len() && is_space(text[pos]) {
        skip_spaces(text, pos + 1)
    } else {
        pos
    }
}

/// The first place at or after `pos` that holds white space, or the end of
/// the text.
pub open spec fn token_end(text: Seq<u8>, pos: int) -> int
    decreases text.len() - pos,
{
    if 0 <= pos < text.len() && !is_space(text[pos]) {
        token_end(text, pos + 1)
    } else {
        pos
    }
}

/// The number that the digits write in base ten, if all of them are digits.
pub open spec fn digits_value(digits: Seq<u8>) -> Option<nat>
    decreases digits.len(),
{
    if digits.len() == 0 {
        Some(0)
    } else {
        match digits_value(digits.drop_last()) {
            Some(v) => if is_digit(digits.last()) {
                Some(10 * v + (digits.last() - 48) as nat)
            } else {
                None
            },
            None => None,
        }
    }
}

/// The digits of a token: the token without a plus sign in front.
pub open spec fn token_digits(token: Seq<u8>) -> Seq<u8> {
    if token.len() > 0 && token[0] == 43 {
        token.drop_first()
    } else {
        token
    }
}

/// The number that a token stands for: an optional plus sign and at least
/// one digit, where the number fits the machine word.
pub open spec fn token_value(token: Seq<u8>) -> Option<usize> {
    let digits = token_digits(token);
    if digits.len() == 0 {
        None
    } else {
        match digits_value(digits) {
            Some(v) => if v <= usize::MAX {
                Some(v as usize)
            } else {
                None
            },
            None => None,
        }
    }
}

/// The number that the next token at or after `pos` stands for, and the
/// place behind the token and the one byte of white space that ends it.
pub open spec fn number_at(text: Seq<u8>, pos: int) -> Option<(usize, int)> {
    let start = skip_spaces(text, pos);
    let end = token_end(text, start);
    match token_value(text.subrange(start, end)) {
        Some(v) => Some(
            (
                v,
                if end < text.len() {
                    end + 1
                } else {
                    end
                },
            ),
        ),
        None => None,
    }
}

/// The next `n` numbers from `pos` on, and the place behind them.
pub open spec fn numbers_at(text: Seq<u8>, pos: int, n: nat) -> Option<(Seq<Hint>, int)>
    decreases n,
{
    if n == 0 {
        Some((Seq::empty(), pos))
    } else {
        match number_at(text, pos) {
            Some((v, next)) => match numbers_at(text, next, (n - 1) as nat) {
                Some((rest, end)) => Some((seq![v] + rest, end)),
                None => None,
            },
            None => None,
        }
    }
}

/// The hints of one line from `pos` on: their number, then the hints.
pub open spec fn hints_at(text: Seq<u8>, pos: int) -> Option<(Seq<Hint>, int)> {
    match number_at(text, pos) {
        Some((n, next)) => numbers_at(text, next, n as nat),
        None => None,
    }
}

/// The hints of the next `lines` lines from `pos` on.
pub open spec fn table_at(text: Seq<u8>, pos: int, lines: nat) -> Option<(Seq<Seq<Hint>>, int)>
    decreases lines,
{
    if lines == 0 {
        Some((Seq::empty(), pos))
    } else {
        match hints_at(text, pos) {
            Some((hints, next)) => match table_at(text, next, (lines - 1) as nat) {
                Some((rest, end)) => Some((seq![hints] + rest, end)),
                None => None,
            },
            None => None,
        }
    }
}

/// The puzzle that the text describes: the height, the width, the hints of
/// the rows and the hints of the columns. What follows them is not read.
pub open spec fn puzzle_of(text: Seq<u8>) -> Option<Puzzle> {
    match number_at(text, 0) {
        Some((height, p1)) => match number_at(text, p1) {
            Some((width, p2)) => match table_at(text, p2, height as nat) {
                Some((row_hints, p3)) => match table_at(text, p3, width as nat) {
                    Some((column_hints, p4)) => Some(
                        Puzzle {
                            width: width as int,
                            height: height as int,
                            row_hints,
                            column_hints,
                        },
                    ),
                    None => None,
                },
                None => None,
            },
            None => None,
        },
        None => None,
    }
}

/// Whether the byte, read as a character, is white space.
fn space(b: u8) -> (r: bool)
    ensures
        r == is_space(b),
{
    (9 <= b && b <= 13) || b == 32 || b == 0x85 || b == 0xa0
}

/// Where a token begins and ends.
proof fn lemma_token_bounds(text: Seq<u8>, pos: int)
    requires
        0 <= pos <= text.len(),
    ensures
        pos <= skip_spaces(text, pos) <= text.len(),
        pos <= token_end(text, pos) <= text.len(),
    decreases text.len() - pos,
{
    if pos < text.len() {
        lemma_token_bounds(text, pos + 1);
    }
}

/// A longer row of digits writes no smaller number.
proof fn lemma_digits_grow(digits: Seq<u8>, n: int)
    requires
        0 <= n <= digits.len(),
        digits_value(digits) is Some,
    ensures
        digits_value(digits.take(n)) is Some,
        digits_value(digits.take(n))->0 <= digits_value(digits)->0,
    decreases digits.len() - n,
{
    if n == digits.len() {
        assert(digits.take(n) =~= digits);
    } else {
        lemma_digits_prefix(digits, n + 1);
        lemma_digits_grow(digits, n + 1);
        assert(digits.take(n + 1).drop_last() =~= digits.take(n));
    }
}

/// Every prefix of a row of digits is a row of digits.
proof fn lemma_digits_prefix(digits: Seq<u8>, n: int)
    requires
        0 <= n <= digits.len(),
        digits_value(digits) is Some,
    ensures
        digits_value(digits.take(n)) is Some,
    decreases digits.len(),
{
    if n == digits.len() {
        assert(digits.take(n) =~= digits);
    } else {
        lemma_digits_prefix(digits.drop_last(), n);
        assert(digits.drop_last().take(n) =~= digits.take(n));
    }
}

/// The number of the token `text[start..end]`.
fn read_token(text: &[u8], start: usize, end: usize) -> (r: Option<usize>)
    requires
        start <= end <= text.len(),
    ensures
        r == token_value(text@.subrange(start as int, end as int)),
{
    let ghost token = text@.subrange(start as int, end as int);
    let mut i: usize = start;
    if i < end && text[i] == 43 {
        i += 1;
    }
    let ghost digits = token_digits(token);
    assert(digits =~= text@.subrange(i as int, end as int));
    if i == end {
        return None;
    }
    let first: usize = i;
    let mut value: usize = 0;
    while i < end
        invariant
            start <= first <= i <= end <= text.len(),
            first < end,
            token == text@.subrange(start as int, end as int),
            digits == token_digits(token),
            digits == text@.subrange(first as int, end as int),
            digits_value(digits.take(i - first)) == Some(value as nat),
        decreases end - i,
    {
        let b: u8 = text[i];
        proof {
            assert(digits.take(i - first + 1).drop_last() =~= digits.take(i - first));
            assert(digits.take(i - first + 1).last() == b);
            if digits_value(digits) is Some {
                lemma_digits_grow(digits, i - first + 1);
            }
        }
        if !(48 <= b && b <= 57) {
            return None;
        }
        let digit: usize = (b - 48) as usize;
        value = match value.checked_mul(10) {
            Some(tens) => match tens.checked_add(digit) {
                Some(sum) => sum,
                None => {
                    return None;
                },
            },
            None => {
                return None;
            },
        };
        i += 1;
    }
    assert(digits.take(i - first) =~= digits);
    Some(value)
}

/// Reads the next number at or after `*pos` and moves `*pos` behind it.
fn read_number(text: &[u8], pos: &mut usize) -> (r: Option<usize>)
    requires
        *old(pos) <= text.len(),
    ensures
        *final(pos) <= text.len(),
        match r {
            Some(v) => number_at(text@, *old(pos) as int) == Some((v, *final(pos) as int)),
            None => number_at(text@, *old(pos) as int) is None,
        },
{
    let mut start: usize = *pos;
    while start < text.len() && space(text[start])
        invariant
            *pos <= start <= text.len(),
            skip_spaces(text@, *pos as int) == skip_spaces(text@, start as int),
        decreases text.len() - start,
    {
        start += 1;
    }
    let mut end: usize = start;
    while end < text.len() && !space(text[end])
        invariant
            start <= end <= text.len(),
            token_end(text@, start as int) == token_end(text@, end as int),
        decreases text.len() - end,
    {
        end += 1;
    }
    match read_token(text, start, end) {
        Some(v) => {
            *pos = if end < text.len() {
                end + 1
            } else {
                end
            };
            Some(v)
        },
        None => None,
    }
}

/// Reads the hints of one line.
fn read_hints(text: &[u8], pos: &mut usize) -> (r: Option<Vec<Hint>>)
    requires
        *old(pos) <= text.len(),
    ensures
        *final(pos) <= text.len(),
        match r {
            Some(hints) => hints_at(text@, *old(pos) as int) == Some((hints@, *final(pos) as int)),
            None => hints_at(text@, *old(pos) as int) is None,
        },
{
    let n = match read_number(text, pos) {
        Some(n) => n,
        None => {
            return None;
        },
    };
    let ghost from = *pos as int;
    let mut hints: Vec<Hint> = Vec::new();
    let mut k: usize = 0;
    assert(hints@ + Seq::<Hint>::empty() =~= hints@);
    while k < n
        invariant
            k <= n,
            *pos <= text.len(),
            hints.len() == k,
            hints_at(text@, *old(pos) as int) == numbers_at(text@, from, n as nat),
            numbers_at(text@, from, n as nat) == match numbers_at(
                text@,
                *pos as int,
                (n - k) as nat,
            ) {
                Some((rest, end)) => Some((hints@ + rest, end)),
                None => None,
            },
        decreases n - k,
    {
        let ghost before = hints@;
        let ghost at = *pos as int;
        match read_number(text, pos) {
            Some(v) => {
                hints.push(v);
                proof {
                    match numbers_at(text@, *pos as int, (n - k - 1) as nat) {
                        Some((rest, end)) => {
                            assert(before + (seq![v] + rest) =~= hints@ + rest);
                        },
                        None => {},
                    }
                }
            },
            None => {
                return None;
            },
        }
        k += 1;
    }
    assert(hints@ + Seq::<Hint>::empty() =~= hints@);
    Some(hints)
}

/// Reads the hints of `lines` lines.
fn read_table(text: &[u8], pos: &mut usize, lines: usize) -> (r: Option<Vec<Vec<Hint>>>)
    requires
        *old(pos) <= text.len(),
    ensures
        *final(pos) <= text.len(),
        match r {
            Some(table) => table.len() == lines && table_at(
                text@,
                *old(pos) as int,
                lines as nat,
            ) == Some((hint_table(table@), *final(pos) as int)),
            None => table_at(text@, *old(pos) as int, lines as nat) is None,
        },
{
    let ghost from = *pos as int;
    let mut table: Vec<Vec<Hint>> = Vec::new();
    let mut k: usize = 0;
    assert(hint_table(table@) + Seq::<Seq<Hint>>::empty() =~= hint_table(table@));
    while k < lines
        invariant
            k <= lines,
            *pos <= text.len(),
            table.len() == k,
            from == *old(pos),
            table_at(text@, from, lines as nat) == match table_at(
                text@,
                *pos as int,
                (lines - k) as nat,
            ) {
                Some((rest, end)) => Some((hint_table(table@) + rest, end)),
                None => None,
            },
        decreases lines - k,
    {
        let ghost before = hint_table(table@);
        match read_hints(text, pos) {
            Some(hints) => {
                let ghost line = hints@;
                table.push(hints);
                proof {
                    assert(hint_table(table@) =~= before.push(line));
                    match table_at(text@, *pos as int, (lines - k - 1) as nat) {
                        Some((rest, end)) => {
                            assert(before + (seq![line] + rest) =~= hint_table(table@) + rest);
                        },
                        None => {},
                    }
                }
            },
            None => {
                return None;
            },
        }
        k += 1;
    }
    assert(hint_table(table@) + Seq::<Seq<Hint>>::empty() =~= hint_table(table@));
    Some(table)
}

impl Input {
    /// The puzzle that the text describes, or `None` where the text ends too
    /// early or holds a token that is no number.
    pub fn from_bytes(text: &[u8]) -> (r: Option<Input>)
        ensures
            match r {
                Some(input) => puzzle_of(text@) == Some(input@) && input.row_hints.len()
                    == input.height && input.column_hints.len() == input.width,
                None => puzzle_of(text@) is None,
            },
    {
        let mut pos: usize = 0;
        let height = match read_number(text, &mut pos) {
            Some(v) => v,
            None => {
                return None;
            },
        };
        let width = match read_number(text, &mut pos) {
            Some(v) => v,
            None => {
                return None;
            },
        };
        let row_hints = match read_table(text, &mut pos, height) {
            Some(table) => table,
            None => {
                return None;
            },
        };
        let column_hints = match read_table(text, &mut pos, width) {
            Some(table) => table,
            None => {
                return None;
            },
        };
        Some(Input { width, height, row_hints, column_hints })
    }
}

} // verus!
