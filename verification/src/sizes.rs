//! How large an expression can become.
//!
//! A repetition with a count, such as `a{1000}`, makes an expression longer than its source, and
//! nested ones multiply. The engine of `fancy_regex` sums up and multiplies these lengths without a
//! check, and walks through counted repetitions one by one even where they are empty. So they have
//! to stay small.

use vstd::prelude::*;

use crate::expressions::{
    law_without_counts, law_without_references, least_size, measure, reads_far, refers_to_itself,
};
use crate::skips::stands_at;
use crate::text::{digits_value, find_char, first_at, is_digit, law_first_at, to_chars};

verus! {

/// The greatest length to which an expression may unfold, and the largest number in it. Up to it all
/// machines read numbers alike.
pub const MAX_SIZE: u32 = 0x7fff_ffff;

/// A number, but beyond [`MAX_SIZE`] always the same.
pub open spec fn capped(n: nat) -> u64 {
    if n <= MAX_SIZE {
        n as u64
    } else {
        (MAX_SIZE + 1) as u64
    }
}

/// The largest number in a text, and the number at its end, which may go on.
pub open spec fn largest(s: Seq<char>) -> (nat, nat)
    decreases s.len(),
{
    if s.len() == 0 {
        (0, 0)
    } else {
        let (most, last) = largest(s.drop_last());
        if is_digit(s.last()) {
            let next = last * 10 + (s.last() as nat - '0' as nat) as nat;
            (
                if next > most {
                    next
                } else {
                    most
                },
                next,
            )
        } else {
            (most, 0)
        }
    }
}

/// Whether an expression stays small: the least length to which it unfolds, the numbers from its
/// first brace on, and the numbers of the groups to which it refers.
pub open spec fn is_small(source: Seq<char>) -> bool {
    &&& least_size(source) <= MAX_SIZE
    &&& largest(source.skip(first_at(source, '{', 0))).0 <= MAX_SIZE
    &&& !reads_far(source)
}

proof fn lemma_largest_grows(s: Seq<char>, n: int)
    requires
        0 <= n <= s.len(),
    ensures
        largest(s.take(n)).0 <= largest(s).0,
    decreases s.len() - n,
{
    if n < s.len() {
        assert(s.take(n + 1).drop_last() == s.take(n));
        lemma_largest_grows(s, n + 1);
    } else {
        assert(s.take(n) == s);
    }
}

/// Tells whether all numbers from the first brace on are small.
fn has_small_numbers(source: &str) -> (r: bool)
    ensures
        r == (largest(source@.skip(first_at(source@, '{', 0))).0 <= MAX_SIZE),
{
    let chars = to_chars(source);
    let len = chars.len();
    let start = find_char(&chars, '{', 0);
    let ghost rest = chars@.skip(start as int);
    let mut last: u64 = 0;
    let mut i: usize = start;
    assert(rest.take(0).len() == 0);
    while i < len
        invariant
            len == chars@.len(),
            chars@ == source@,
            start <= i <= len,
            start == first_at(chars@, '{', 0),
            rest == chars@.skip(start as int),
            last == largest(rest.take(i - start)).1,
            last <= MAX_SIZE,
            largest(rest.take(i - start)).0 <= MAX_SIZE,
        decreases len - i,
    {
        proof {
            assert(rest.take(i - start + 1).drop_last() == rest.take(i - start));
            assert(rest.take(i - start + 1).last() == chars@[i as int]);
            lemma_largest_grows(rest, i - start + 1);
        }
        let c = chars[i];
        last = if '0' <= c && c <= '9' {
            last * 10 + (c as u32 - '0' as u32) as u64
        } else {
            0
        };
        if last > MAX_SIZE as u64 {
            return false;
        }
        i = i + 1;
    }
    assert(rest.take(rest.len() as int) == rest);
    true
}

/// Tells whether an expression stays small.
pub fn stays_small(source: &str) -> (r: bool)
    ensures
        r == is_small(source@),
{
    if !has_small_numbers(source) {
        return false;
    }
    let (size, far) = measure(source);
    size <= MAX_SIZE as u64 && !far
}

/// An expression without braces and back-references stays small, however it is built, as long as its
/// source is.
pub proof fn law_plain_expression_is_small(source: Seq<char>)
    requires
        source.len() <= MAX_SIZE,
        !source.contains('{'),
        forall|i: int|
            0 <= i < source.len() - 1 && #[trigger] source[i] == '\\' ==> !('0' <= source[i + 1]
                <= '9') && source[i + 1] != 'k',
        forall|i: int| 0 <= i < source.len() ==> !#[trigger] stands_at(source, i, "?P="@),
    ensures
        is_small(source),
        !refers_to_itself(source),
{
    law_without_counts(source);
    law_without_references(source);
    law_first_at(source, '{', 0);
    let at = first_at(source, '{', 0);
    if at < source.len() {
        assert(source.contains(source[at]));
    }
    assert(source.skip(at).len() == 0);
}

/// The largest number of a text is at least every run of digits in it, read as a number.
pub proof fn law_largest(a: Seq<char>, digits: Seq<char>, b: Seq<char>)
    requires
        forall|i: int| 0 <= i < digits.len() ==> '0' <= #[trigger] digits[i] <= '9',
    ensures
        largest(a + digits + b).0 >= digits_value(digits),
{
    let whole = a + digits + b;
    let part = a + digits;
    lemma_digits_count(a, digits);
    lemma_largest_grows(whole, part.len() as int);
    assert(whole.take(part.len() as int) == part);
}

proof fn lemma_digits_count(a: Seq<char>, digits: Seq<char>)
    requires
        forall|i: int| 0 <= i < digits.len() ==> '0' <= #[trigger] digits[i] <= '9',
    ensures
        largest(a + digits).0 >= largest(a + digits).1,
        largest(a + digits).1 >= digits_value(digits),
    decreases a.len() + digits.len(),
{
    if digits.len() > 0 {
        let less = digits.drop_last();
        assert forall|i: int| 0 <= i < less.len() implies '0' <= #[trigger] less[i] <= '9' by {
            assert('0' <= digits[i] <= '9');
        }
        lemma_digits_count(a, less);
        assert((a + digits).drop_last() == a + less);
        assert((a + digits).last() == digits.last());
        assert('0' <= digits[digits.len() - 1] <= '9');
    } else if a.len() > 0 {
        assert(a + digits == a);
        assert(a.drop_last() + Seq::<char>::empty() == a.drop_last());
        lemma_digits_count(a.drop_last(), Seq::<char>::empty());
    } else {
        assert((a + digits).len() == 0);
    }
}

} // verus!
