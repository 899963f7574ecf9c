//! The parts of an expression that are read as a whole: classes, comments, counts and flags.

use vstd::prelude::*;

use crate::sizes::{capped, MAX_SIZE};
use crate::text::{find_char, first_at, from_chars, is_digit, number, parse_number, to_chars};

verus! {

/// Whether a piece of text stands at a place.
pub open spec fn stands_at(s: Seq<char>, at: int, piece: Seq<char>) -> bool {
    at + piece.len() <= s.len() && s.subrange(at, at + piece.len()) == piece
}

/// The place behind the digits that start at `at`.
pub open spec fn behind_digits(s: Seq<char>, at: int) -> int
    decreases s.len() - at,
{
    if at < s.len() && is_digit(s[at]) {
        behind_digits(s, at + 1)
    } else {
        at
    }
}

/// The place behind a character class, from inside of it. `depth` is the number of brackets to be
/// closed.
pub open spec fn behind_brackets(s: Seq<char>, at: int, depth: nat) -> int
    decreases s.len() - at,
{
    if at >= s.len() || depth == 0 {
        at
    } else if s[at] == '\\' {
        if at + 1 < s.len() {
            behind_brackets(s, at + 2, depth)
        } else {
            at + 1
        }
    } else if s[at] == '[' {
        behind_brackets(s, at + 1, depth + 1)
    } else if s[at] == ']' {
        behind_brackets(s, at + 1, (depth - 1) as nat)
    } else {
        behind_brackets(s, at + 1, depth)
    }
}

/// The place behind the character class that starts at `at`. A closing bracket that comes first in
/// a class, or first behind the `^`, belongs to it.
pub open spec fn behind_class(s: Seq<char>, at: int) -> int {
    let first = if at + 1 < s.len() && s[at + 1] == '^' {
        at + 2
    } else {
        at + 1
    };
    let start = if first < s.len() && s[first] == ']' {
        first + 1
    } else {
        first
    };
    behind_brackets(s, start, 1)
}

/// The place behind a comment in parentheses, from inside of it.
pub open spec fn behind_comment(s: Seq<char>, at: int) -> int
    decreases s.len() - at,
{
    if at >= s.len() {
        at
    } else if s[at] == ')' {
        at + 1
    } else if s[at] == '\\' && at + 1 < s.len() {
        behind_comment(s, at + 2)
    } else {
        behind_comment(s, at + 1)
    }
}

/// The place behind a line.
pub open spec fn behind_line(s: Seq<char>, at: int) -> int {
    let end = first_at(s, '\n', at);
    if end < s.len() {
        end + 1
    } else {
        end
    }
}

/// White space that is skipped in extended expressions.
pub open spec fn is_skipped(c: char) -> bool {
    c == ' ' || c == '\r' || c == '\n' || c == '\t'
}

/// The place behind comments. In an extended expression white space is skipped too, and a hash
/// starts a comment that reaches to the end of the line.
pub open spec fn behind_blanks(s: Seq<char>, at: int, extended: bool) -> int
    decreases s.len() - at,
{
    if at < 0 || at >= s.len() {
        at
    } else if stands_at(s, at, "(?#"@) {
        proof {
            reveal_strlit("(?#");
            lemma_behind_comment(s, at + 3);
        }
        behind_blanks(s, behind_comment(s, at + 3), extended)
    } else if extended && s[at] == '#' {
        proof {
            lemma_behind_line(s, at);
        }
        behind_blanks(s, behind_line(s, at), extended)
    } else if extended && is_skipped(s[at]) {
        behind_blanks(s, at + 1, extended)
    } else {
        at
    }
}

/// A comment is skipped forward, and not beyond the end.
pub proof fn lemma_behind_comment(s: Seq<char>, at: int)
    requires
        0 <= at <= s.len(),
    ensures
        at <= behind_comment(s, at) <= s.len(),
    decreases s.len() - at,
{
    if at < s.len() && s[at] != ')' {
        if s[at] == '\\' && at + 1 < s.len() {
            lemma_behind_comment(s, at + 2);
        } else {
            lemma_behind_comment(s, at + 1);
        }
    }
}

proof fn lemma_first_at(s: Seq<char>, c: char, from: int)
    requires
        0 <= from <= s.len(),
    ensures
        from <= first_at(s, c, from) <= s.len(),
        first_at(s, c, from) < s.len() ==> s[first_at(s, c, from)] == c,
    decreases s.len() - from,
{
    if from < s.len() && s[from] != c {
        lemma_first_at(s, c, from + 1);
    }
}

/// A line is skipped forward, and not beyond the end.
pub proof fn lemma_behind_line(s: Seq<char>, at: int)
    requires
        0 <= at < s.len(),
    ensures
        at < behind_line(s, at) <= s.len(),
{
    lemma_first_at(s, '\n', at);
}

/// Comments are skipped forward, and not beyond the end.
pub proof fn lemma_behind_blanks(s: Seq<char>, at: int, extended: bool)
    requires
        0 <= at <= s.len(),
    ensures
        at <= behind_blanks(s, at, extended) <= s.len(),
    decreases s.len() - at,
{
    if at < s.len() {
        if stands_at(s, at, "(?#"@) {
            reveal_strlit("(?#");
            lemma_behind_comment(s, at + 3);
            lemma_behind_blanks(s, behind_comment(s, at + 3), extended);
        } else if extended && s[at] == '#' {
            lemma_behind_line(s, at);
            lemma_behind_blanks(s, behind_line(s, at), extended);
        } else if extended && is_skipped(s[at]) {
            lemma_behind_blanks(s, at + 1, extended);
        }
    }
}

/// A count of a repetition.
pub struct Count {
    /// The least number of times.
    pub least: u64,
    /// Whether more than one time is allowed.
    pub more: bool,
    /// The place behind the count.
    pub end: int,
}

/// What a number in a count says, counted no further than [`capped`] does. No number says 0.
pub open spec fn count_value(digits: Seq<char>) -> u64 {
    match number(digits) {
        Some(n) => capped(n as nat),
        None => if digits.len() == 0 {
            0
        } else {
            capped((MAX_SIZE + 1) as nat)
        },
    }
}

/// The count that starts with the brace at `at`. A brace that starts none is plain text.
pub open spec fn count_at(s: Seq<char>, at: int, extended: bool) -> Option<Count> {
    let from = behind_blanks(s, at + 1, extended);
    let to = behind_digits(s, from);
    let mark = behind_blanks(s, to, extended);
    let least = count_value(s.subrange(from, to));
    if mark >= s.len() {
        None
    } else if s[mark] == '}' && to > from {
        Some(Count { least, more: least > 1, end: mark + 1 })
    } else if s[mark] == ',' && (to > from || mark == from) {
        let most = behind_blanks(s, mark + 1, extended);
        let end = behind_digits(s, most);
        let close = behind_blanks(s, end, extended);
        if close < s.len() && s[close] == '}' {
            Some(
                Count {
                    least,
                    more: end == most || count_value(s.subrange(most, end)) > 1,
                    end: close + 1,
                },
            )
        } else {
            None
        }
    } else {
        None
    }
}

/// The flags of an expression, other than the one that makes it extended.
pub open spec fn is_flag(c: char) -> bool {
    c == 'i' || c == 'm' || c == 's' || c == 'U' || c == 'u'
}

/// Flags from `at` on: the place behind them, whether the expression is extended there, and whether
/// they belong to a parenthesis that is still open. `off` tells that flags are switched off.
pub open spec fn flags_read(s: Seq<char>, at: int, off: bool, extended: bool) -> (int, bool, bool)
    decreases s.len() - at,
{
    if at < 0 || at > s.len() {
        (at, extended, false)
    } else {
        proof {
            lemma_behind_blanks(s, at, extended);
        }
        let next = behind_blanks(s, at, extended);
        if next >= s.len() {
            (next, extended, false)
        } else if s[next] == ')' {
            (next + 1, extended, false)
        } else if s[next] == '-' {
            flags_read(s, next + 1, true, extended)
        } else if s[next] == 'x' {
            flags_read(s, next + 1, off, !off)
        } else if is_flag(s[next]) {
            flags_read(s, next + 1, off, extended)
        } else {
            (next + 1, extended, true)
        }
    }
}

// ---------------------------------------------------------------------------------------------
// Skipping them
// ---------------------------------------------------------------------------------------------

pub(crate) fn digit(c: char) -> (r: bool)
    ensures
        r == is_digit(c),
{
    '0' <= c && c <= '9'
}

pub(crate) fn stands(chars: &Vec<char>, at: usize, piece: &str) -> (r: bool)
    requires
        at <= chars@.len(),
    ensures
        r == stands_at(chars@, at as int, piece@),
        r ==> at + piece@.len() <= chars@.len(),
{
    let wanted = to_chars(piece);
    let len = chars.len();
    if wanted.len() > len - at {
        return false;
    }
    let mut i: usize = 0;
    while i < wanted.len()
        invariant
            i <= wanted@.len(),
            wanted@ == piece@,
            at + wanted@.len() <= chars@.len() == len,
            forall|j: int| 0 <= j < i ==> chars@[at + j] == #[trigger] wanted@[j],
        decreases wanted@.len() - i,
    {
        if chars[at + i] != wanted[i] {
            assert(chars@.subrange(at as int, at + wanted@.len())[i as int] != wanted@[i as int]);
            return false;
        }
        i = i + 1;
    }
    assert(chars@.subrange(at as int, at + wanted@.len()) == wanted@);
    true
}

pub(crate) fn skip_digits(chars: &Vec<char>, at: usize) -> (r: usize)
    requires
        at <= chars@.len(),
    ensures
        r == behind_digits(chars@, at as int),
        at <= r <= chars@.len(),
{
    let mut i: usize = at;
    while i < chars.len() && digit(chars[i])
        invariant
            at <= i <= chars@.len(),
            behind_digits(chars@, i as int) == behind_digits(chars@, at as int),
        decreases chars@.len() - i,
    {
        i = i + 1;
    }
    i
}

pub(crate) fn skip_class(chars: &Vec<char>, at: usize) -> (r: usize)
    requires
        at < chars@.len(),
    ensures
        r == behind_class(chars@, at as int),
        at < r <= chars@.len(),
{
    let len = chars.len();
    let mut i: usize = at + 1;
    if i < len && chars[i] == '^' {
        i = i + 1;
    }
    if i < len && chars[i] == ']' {
        i = i + 1;
    }
    let mut depth: usize = 1;
    while i < len && depth > 0
        invariant
            len == chars@.len(),
            at < i <= len,
            depth <= i,
            behind_brackets(chars@, i as int, depth as nat) == behind_class(chars@, at as int),
        decreases len - i,
    {
        if chars[i] == '\\' {
            if i + 1 < len {
                i = i + 2;
            } else {
                i = i + 1;
            }
        } else if chars[i] == '[' {
            depth = depth + 1;
            i = i + 1;
        } else if chars[i] == ']' {
            depth = depth - 1;
            i = i + 1;
        } else {
            i = i + 1;
        }
    }
    i
}

fn skip_comment(chars: &Vec<char>, at: usize) -> (r: usize)
    requires
        at <= chars@.len(),
    ensures
        r == behind_comment(chars@, at as int),
        at <= r <= chars@.len(),
{
    let len = chars.len();
    let mut i: usize = at;
    while i < len
        invariant
            len == chars@.len(),
            at <= i <= len,
            behind_comment(chars@, i as int) == behind_comment(chars@, at as int),
        decreases len - i,
    {
        if chars[i] == ')' {
            return i + 1;
        }
        if chars[i] == '\\' && i + 1 < len {
            i = i + 2;
        } else {
            i = i + 1;
        }
    }
    i
}

pub(crate) fn skip_blanks(chars: &Vec<char>, at: usize, extended: bool) -> (r: usize)
    requires
        at <= chars@.len(),
    ensures
        r == behind_blanks(chars@, at as int, extended),
        at <= r <= chars@.len(),
{
    let len = chars.len();
    let mut i: usize = at;
    while i < len
        invariant
            len == chars@.len(),
            at <= i <= len,
            behind_blanks(chars@, i as int, extended) == behind_blanks(
                chars@,
                at as int,
                extended,
            ),
        decreases len - i,
    {
        proof {
            reveal_strlit("(?#");
            lemma_behind_line(chars@, i as int);
        }
        if stands(chars, i, "(?#") {
            i = skip_comment(chars, i + 3);
        } else if extended && chars[i] == '#' {
            let end = find_char(chars, '\n', i);
            i = if end < len {
                end + 1
            } else {
                end
            };
        } else if extended && (chars[i] == ' ' || chars[i] == '\r' || chars[i] == '\n' || chars[i]
            == '\t') {
            i = i + 1;
        } else {
            return i;
        }
    }
    i
}

fn value_of(chars: &Vec<char>, from: usize, to: usize) -> (r: u64)
    requires
        from <= to <= chars@.len(),
    ensures
        r == count_value(chars@.subrange(from as int, to as int)),
        r <= MAX_SIZE + 1,
{
    let text = from_chars(chars, from, to);
    match parse_number(text.as_str()) {
        Some(n) => if n <= MAX_SIZE {
            n as u64
        } else {
            MAX_SIZE as u64 + 1
        },
        None => if from == to {
            0
        } else {
            MAX_SIZE as u64 + 1
        },
    }
}

/// The count that starts with the brace at `at`: the least number of times, whether more than one
/// time is allowed, and the place behind it.
pub(crate) fn read_count(chars: &Vec<char>, at: usize, extended: bool) -> (r: Option<
    (u64, bool, usize),
>)
    requires
        at < chars@.len(),
    ensures
        match (r, count_at(chars@, at as int, extended)) {
            (Some((least, more, end)), Some(count)) => {
                &&& least == count.least
                &&& more == count.more
                &&& end == count.end
                &&& least <= MAX_SIZE + 1
                &&& at < end <= chars@.len()
            },
            (None, None) => true,
            _ => false,
        },
{
    let len = chars.len();
    let from = skip_blanks(chars, at + 1, extended);
    let to = skip_digits(chars, from);
    let mark = skip_blanks(chars, to, extended);
    let least = value_of(chars, from, to);
    if mark >= len {
        None
    } else if chars[mark] == '}' && to > from {
        Some((least, least > 1, mark + 1))
    } else if chars[mark] == ',' && (to > from || mark == from) {
        let most = skip_blanks(chars, mark + 1, extended);
        let end = skip_digits(chars, most);
        let close = skip_blanks(chars, end, extended);
        if close < len && chars[close] == '}' {
            Some((least, end == most || value_of(chars, most, end) > 1, close + 1))
        } else {
            None
        }
    } else {
        None
    }
}

pub(crate) fn read_flags(chars: &Vec<char>, at: usize, extended: bool) -> (r: (usize, bool, bool))
    requires
        at <= chars@.len(),
    ensures
        (r.0 as int, r.1, r.2) == flags_read(chars@, at as int, false, extended),
        at <= r.0 <= chars@.len(),
{
    let len = chars.len();
    let mut i: usize = at;
    let mut off = false;
    let mut now = extended;
    loop
        invariant
            len == chars@.len(),
            at <= i <= len,
            flags_read(chars@, i as int, off, now) == flags_read(
                chars@,
                at as int,
                false,
                extended,
            ),
        decreases len - i,
    {
        let next = skip_blanks(chars, i, now);
        if next >= len {
            return (next, now, false);
        }
        let c = chars[next];
        if c == ')' {
            return (next + 1, now, false);
        } else if c == '-' {
            off = true;
        } else if c == 'x' {
            now = !off;
        } else if !(c == 'i' || c == 'm' || c == 's' || c == 'U' || c == 'u') {
            return (next + 1, now, true);
        }
        i = next + 1;
    }
}

} // verus!
