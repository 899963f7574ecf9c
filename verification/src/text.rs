//! Text in the shapes that addon files need: white space, ASCII case, separators, decimal numbers.

use vstd::prelude::*;

verus! {

/// `String::push` puts one character behind the text and changes nothing else.
pub assume_specification[ String::push ](s: &mut String, c: char)
    ensures
        final(s)@ == old(s)@.push(c),
;

/// The texts of a list of strings.
pub open spec fn texts(list: Seq<String>) -> Seq<Seq<char>> {
    list.map_values(|s: String| s@)
}

/// A copy of a list of strings.
pub(crate) fn copy_texts(list: &Vec<String>) -> (r: Vec<String>)
    ensures
        texts(r@) == texts(list@),
{
    let mut r: Vec<String> = Vec::new();
    let mut i: usize = 0;
    while i < list.len()
        invariant
            i <= list@.len(),
            r@ == list@.take(i as int),
        decreases list@.len() - i,
    {
        r.push(list[i].clone());
        i = i + 1;
    }
    assert(list@.take(list@.len() as int) == list@);
    r
}

/// The Unicode property `White_Space`.
pub open spec fn is_white_space(c: char) -> bool {
    ||| '\t' <= c <= '\r'
    ||| c == ' '
    ||| c == '\u{85}'
    ||| c == '\u{a0}'
    ||| c == '\u{1680}'
    ||| '\u{2000}' <= c <= '\u{200a}'
    ||| c == '\u{2028}'
    ||| c == '\u{2029}'
    ||| c == '\u{202f}'
    ||| c == '\u{205f}'
    ||| c == '\u{3000}'
}

/// Tells whether a character is white space.
pub fn white_space(c: char) -> (r: bool)
    ensures
        r == is_white_space(c),
{
    ('\t' <= c && c <= '\r') || c == ' ' || c == '\u{85}' || c == '\u{a0}' || c == '\u{1680}' || (
    '\u{2000}' <= c && c <= '\u{200a}') || c == '\u{2028}' || c == '\u{2029}' || c == '\u{202f}'
        || c == '\u{205f}' || c == '\u{3000}'
}

/// A text without the white space at its two ends.
pub open spec fn trimmed(s: Seq<char>) -> Seq<char>
    decreases s.len(),
{
    if s.len() > 0 && is_white_space(s.first()) {
        trimmed(s.drop_first())
    } else if s.len() > 0 && is_white_space(s.last()) {
        trimmed(s.drop_last())
    } else {
        s
    }
}

/// The characters of a text, one by one.
pub(crate) fn to_chars(s: &str) -> (r: Vec<char>)
    ensures
        r@ == s@,
{
    let mut r: Vec<char> = Vec::new();
    for c in it: s.chars()
        invariant
            it.seq() == s@,
            r@ == s@.take(it.index()),
    {
        r.push(c);
    }
    r
}

/// The text made of the characters from `from` up to `to`.
pub(crate) fn from_chars(chars: &Vec<char>, from: usize, to: usize) -> (r: String)
    requires
        from <= to <= chars@.len(),
    ensures
        r@ == chars@.subrange(from as int, to as int),
{
    let mut r = String::new();
    let mut i: usize = from;
    while i < to
        invariant
            from <= i <= to <= chars@.len(),
            r@ == chars@.subrange(from as int, i as int),
        decreases to - i,
    {
        r.push(chars[i]);
        i = i + 1;
    }
    r
}

/// Where, from `from` on, a character first occurs; the length of the text if it does not.
pub open spec fn first_at(s: Seq<char>, c: char, from: int) -> int
    decreases s.len() - from,
{
    if from >= s.len() || s[from] == c {
        from
    } else {
        first_at(s, c, from + 1)
    }
}

/// Finds a character from `from` on.
pub(crate) fn find_char(chars: &Vec<char>, c: char, from: usize) -> (r: usize)
    requires
        from <= chars@.len(),
    ensures
        r == first_at(chars@, c, from as int),
        from <= r <= chars@.len(),
{
    let mut i: usize = from;
    while i < chars.len() && chars[i] != c
        invariant
            from <= i <= chars@.len(),
            first_at(chars@, c, i as int) == first_at(chars@, c, from as int),
        decreases chars@.len() - i,
    {
        i = i + 1;
    }
    i
}

/// Removes the white space at both ends.
pub fn trim(s: &str) -> (r: String)
    ensures
        r@ == trimmed(s@),
{
    let chars = to_chars(s);
    let mut from: usize = 0;
    let mut to: usize = chars.len();
    assert(chars@.subrange(0, chars@.len() as int) == chars@);
    while from < to && white_space(chars[from])
        invariant
            from <= to == chars@.len(),
            trimmed(chars@.subrange(from as int, to as int)) == trimmed(s@),
        decreases to - from,
    {
        proof {
            let rest = chars@.subrange(from as int, to as int);
            assert(rest.drop_first() == chars@.subrange(from + 1, to as int));
        }
        from = from + 1;
    }
    while from < to && white_space(chars[to - 1])
        invariant
            from <= to <= chars@.len(),
            from < to ==> !is_white_space(chars@[from as int]),
            trimmed(chars@.subrange(from as int, to as int)) == trimmed(s@),
        decreases to - from,
    {
        proof {
            let rest = chars@.subrange(from as int, to as int);
            assert(rest.drop_last() == chars@.subrange(from as int, to - 1));
        }
        to = to - 1;
    }
    from_chars(&chars, from, to)
}

/// Cuts a text at every separator. Each separator ends a piece, any other character extends the
/// last one; there is always one piece more than there are separators.
pub open spec fn pieces(s: Seq<char>, separators: Seq<char>) -> Seq<Seq<char>>
    decreases s.len(),
{
    if s.len() == 0 {
        seq![Seq::<char>::empty()]
    } else {
        let before = pieces(s.drop_last(), separators);
        if separators.contains(s.last()) {
            before.push(Seq::<char>::empty())
        } else {
            before.drop_last().push(before.last().push(s.last()))
        }
    }
}

fn is_one_of(c: char, list: &[char]) -> (r: bool)
    ensures
        r == list@.contains(c),
{
    let mut i: usize = 0;
    while i < list.len()
        invariant
            i <= list@.len(),
            forall|j: int| 0 <= j < i ==> list@[j] != c,
        decreases list@.len() - i,
    {
        if list[i] == c {
            return true;
        }
        i = i + 1;
    }
    false
}

/// Cuts a text at every character of `separators`.
pub fn split(s: &str, separators: &[char]) -> (r: Vec<String>)
    ensures
        texts(r@) == pieces(s@, separators@),
{
    let mut done: Vec<String> = Vec::new();
    let mut piece = String::new();
    for c in it: s.chars()
        invariant
            it.seq() == s@,
            texts(done@).push(piece@) == pieces(s@.take(it.index()), separators@),
    {
        proof {
            assert(s@.take(it.index() + 1).drop_last() == s@.take(it.index()));
            assert(texts(done@).push(piece@).drop_last() == texts(done@));
        }
        if is_one_of(c, separators) {
            let ghost before = done@;
            done.push(piece);
            piece = String::new();
            assert(texts(done@) == texts(before).push(done@.last()@));
        } else {
            piece.push(c);
        }
    }
    proof {
        assert(s@.take(s@.len() as int) == s@);
        assert(texts(done@.push(piece)) == texts(done@).push(piece@));
    }
    done.push(piece);
    done
}

/// A character with ASCII capitals made small.
pub open spec fn lower(c: char) -> char {
    if 'A' <= c <= 'Z' {
        (c as u8 + 32) as char
    } else {
        c
    }
}

/// A text with ASCII capitals made small.
pub open spec fn lowered(s: Seq<char>) -> Seq<char> {
    s.map_values(|c: char| lower(c))
}

fn lower_char(c: char) -> (r: char)
    ensures
        r == lower(c),
{
    if 'A' <= c && c <= 'Z' {
        (c as u8 + 32) as char
    } else {
        c
    }
}

/// Makes ASCII capitals small.
pub fn to_lower(s: &str) -> (r: String)
    ensures
        r@ == lowered(s@),
{
    let mut r = String::new();
    for c in it: s.chars()
        invariant
            it.seq() == s@,
            r@ == lowered(s@.take(it.index())),
    {
        r.push(lower_char(c));
    }
    assert(s@.take(s@.len() as int) == s@);
    r
}

/// A text with every `from` turned into `to`.
pub open spec fn replaced(s: Seq<char>, from: char, to: char) -> Seq<char> {
    s.map_values(
        |c: char|
            if c == from {
                to
            } else {
                c
            },
    )
}

/// Turns every `from` into `to`.
pub fn replace(s: &str, from: char, to: char) -> (r: String)
    ensures
        r@ == replaced(s@, from, to),
{
    let mut r = String::new();
    for c in it: s.chars()
        invariant
            it.seq() == s@,
            r@ == replaced(s@.take(it.index()), from, to),
    {
        if c == from {
            r.push(to);
        } else {
            r.push(c);
        }
    }
    assert(s@.take(s@.len() as int) == s@);
    r
}

/// Tells whether two texts are the same.
pub(crate) fn same(a: &str, b: &str) -> (r: bool)
    ensures
        r == (a@ == b@),
{
    a.to_owned() == b.to_owned()
}

/// The decimal digits of a number, as ASCII bytes.
pub open spec fn decimal(n: nat) -> Seq<u8>
    decreases n,
{
    if n < 10 {
        seq![(48 + n) as u8]
    } else {
        decimal(n / 10).push((48 + n % 10) as u8)
    }
}

/// Puts the decimal digits of `n` behind `out`.
pub fn push_decimal(out: &mut Vec<u8>, n: u32)
    ensures
        final(out)@ == old(out)@ + decimal(n as nat),
    decreases n,
{
    if n >= 10 {
        push_decimal(out, n / 10);
    }
    out.push(48 + (n % 10) as u8);
}

/// A decimal digit.
pub open spec fn is_digit(c: char) -> bool {
    '0' <= c <= '9'
}

/// The number that a run of ASCII digits stands for.
pub open spec fn digits_value(s: Seq<char>) -> nat
    decreases s.len(),
{
    if s.len() == 0 {
        0
    } else {
        digits_value(s.drop_last()) * 10 + (s.last() as nat - '0' as nat) as nat
    }
}

/// Only ASCII digits, and at least one.
pub open spec fn is_number(s: Seq<char>) -> bool {
    s.len() > 0 && forall|i: int| 0 <= i < s.len() ==> '0' <= #[trigger] s[i] <= '9'
}

/// The 32-bit number that a text stands for: an optional plus sign and then digits only.
pub open spec fn number(s: Seq<char>) -> Option<u32> {
    let digits = if s.len() > 0 && s[0] == '+' {
        s.drop_first()
    } else {
        s
    };
    if is_number(digits) && digits_value(digits) <= u32::MAX {
        Some(digits_value(digits) as u32)
    } else {
        None
    }
}

proof fn lemma_digits_value_grows(s: Seq<char>, n: int)
    requires
        0 <= n <= s.len(),
    ensures
        digits_value(s.take(n)) <= digits_value(s),
    decreases s.len() - n,
{
    if n < s.len() {
        assert(s.take(n + 1).drop_last() == s.take(n));
        lemma_digits_value_grows(s, n + 1);
    } else {
        assert(s.take(n) == s);
    }
}

/// Reads a 32-bit number.
pub fn parse_number(s: &str) -> (r: Option<u32>)
    ensures
        r == number(s@),
{
    let chars = to_chars(s);
    let start: usize = if chars.len() > 0 && chars[0] == '+' {
        1
    } else {
        0
    };
    let ghost digits = s@.skip(start as int);
    assert(start == 0 ==> digits == s@);
    assert(start == 1 ==> digits == s@.drop_first());
    if start == chars.len() {
        return None;
    }
    let mut value: u32 = 0;
    let mut i: usize = start;
    assert(digits.take(0).len() == 0);
    while i < chars.len()
        invariant
            start <= i <= chars@.len(),
            chars@ == s@,
            digits == s@.skip(start as int),
            digits.len() > 0,
            number(s@) == (if is_number(digits) && digits_value(digits) <= u32::MAX {
                Some(digits_value(digits) as u32)
            } else {
                None
            }),
            forall|j: int| 0 <= j < i - start ==> '0' <= #[trigger] digits[j] <= '9',
            value == digits_value(digits.take(i - start)),
        decreases chars@.len() - i,
    {
        let c = chars[i];
        assert(c == digits[i - start]);
        if c < '0' || '9' < c {
            return None;
        }
        proof {
            assert(digits.take(i - start + 1).drop_last() == digits.take(i - start));
            lemma_digits_value_grows(digits, i - start + 1);
        }
        let digit: u32 = c as u32 - '0' as u32;
        match value.checked_mul(10) {
            None => {
                return None;
            },
            Some(tens) => match tens.checked_add(digit) {
                None => {
                    return None;
                },
                Some(next) => {
                    value = next;
                },
            },
        }
        i = i + 1;
    }
    assert(digits.take(digits.len() as int) == digits);
    Some(value)
}

// ---------------------------------------------------------------------------------------------
// Laws
// ---------------------------------------------------------------------------------------------

/// White space is made of the 25 characters with these numbers.
pub proof fn law_white_space(c: char)
    ensures
        is_white_space(c) <==> {
            let n = c as int;
            ||| 9 <= n <= 13
            ||| n == 32
            ||| n == 133
            ||| n == 160
            ||| n == 5760
            ||| 8192 <= n <= 8202
            ||| n == 8232
            ||| n == 8233
            ||| n == 8239
            ||| n == 8287
            ||| n == 12288
        },
{
}

/// Trimming takes white space away at both ends, all of it, and nothing else: what is left stands in
/// the text, only white space stands before and behind it, and it neither begins nor ends with one.
pub proof fn law_trim(s: Seq<char>) -> (r: (int, int))
    ensures
        0 <= r.0 <= r.1 <= s.len(),
        trimmed(s) == s.subrange(r.0, r.1),
        forall|i: int| 0 <= i < r.0 ==> is_white_space(#[trigger] s[i]),
        forall|i: int| r.1 <= i < s.len() ==> is_white_space(#[trigger] s[i]),
        r.0 < r.1 ==> !is_white_space(s[r.0]) && !is_white_space(s[r.1 - 1]),
    decreases s.len(),
{
    if s.len() > 0 && is_white_space(s.first()) {
        let rest = s.drop_first();
        let (from, to) = law_trim(rest);
        assert(s.subrange(from + 1, to + 1) == rest.subrange(from, to));
        assert forall|i: int| 0 <= i < from + 1 implies is_white_space(#[trigger] s[i]) by {
            if i > 0 {
                assert(is_white_space(rest[i - 1]));
            }
        }
        assert forall|i: int| to + 1 <= i < s.len() implies is_white_space(#[trigger] s[i]) by {
            assert(is_white_space(rest[i - 1]));
        }
        (from + 1, to + 1)
    } else if s.len() > 0 && is_white_space(s.last()) {
        let rest = s.drop_last();
        let (from, to) = law_trim(rest);
        assert(s.subrange(from, to) == rest.subrange(from, to));
        assert forall|i: int| 0 <= i < from implies is_white_space(#[trigger] s[i]) by {
            assert(is_white_space(rest[i]));
        }
        assert forall|i: int| to <= i < s.len() implies is_white_space(#[trigger] s[i]) by {
            if i < rest.len() {
                assert(is_white_space(rest[i]));
            }
        }
        (from, to)
    } else {
        assert(s.subrange(0, s.len() as int) == s);
        (0, s.len() as int)
    }
}

/// White space around a text does not change what trimming leaves of it.
pub proof fn law_trim_ignores_margins(before: Seq<char>, s: Seq<char>, behind: Seq<char>)
    requires
        forall|i: int| 0 <= i < before.len() ==> is_white_space(#[trigger] before[i]),
        forall|i: int| 0 <= i < behind.len() ==> is_white_space(#[trigger] behind[i]),
    ensures
        trimmed(before + s + behind) == trimmed(s),
    decreases before.len() + behind.len(),
{
    let all = before + s + behind;
    if before.len() > 0 {
        let less = before.drop_first();
        assert(is_white_space(before[0]));
        assert forall|i: int| 0 <= i < less.len() implies is_white_space(#[trigger] less[i]) by {
            assert(is_white_space(before[i + 1]));
        }
        law_trim_ignores_margins(less, s, behind);
        assert(all.drop_first() == less + s + behind);
    } else if behind.len() > 0 {
        let less = behind.drop_last();
        assert(is_white_space(behind[behind.len() - 1]));
        assert forall|i: int| 0 <= i < less.len() implies is_white_space(#[trigger] less[i]) by {
            assert(is_white_space(behind[i]));
        }
        law_trim_ignores_margins(before, s, less);
        assert(all.drop_last() == before + s + less);
        lemma_trim_from_behind(all);
    } else {
        assert(all == s);
    }
}

/// White space at the end can be taken away first.
proof fn lemma_trim_from_behind(s: Seq<char>)
    requires
        s.len() > 0,
        is_white_space(s.last()),
    ensures
        trimmed(s) == trimmed(s.drop_last()),
    decreases s.len(),
{
    if is_white_space(s.first()) && s.len() > 1 {
        let rest = s.drop_first();
        lemma_trim_from_behind(rest);
        assert(rest.drop_last() == s.drop_last().drop_first());
    } else if s.len() == 1 {
        assert(s.drop_first() == s.drop_last());
    }
}

/// The place of a character is the first one from `from` on that holds it; where none holds it, it is
/// the end.
pub proof fn law_first_at(s: Seq<char>, c: char, from: int)
    requires
        0 <= from <= s.len(),
    ensures
        from <= first_at(s, c, from) <= s.len(),
        first_at(s, c, from) < s.len() ==> s[first_at(s, c, from)] == c,
        forall|i: int| from <= i < first_at(s, c, from) ==> #[trigger] s[i] != c,
    decreases s.len() - from,
{
    if from < s.len() && s[from] != c {
        law_first_at(s, c, from + 1);
    }
}

/// A separator parts a text: the pieces before it and the pieces behind it are those of the two
/// texts. A text without a separator is one piece.
pub proof fn law_separator_parts(
    a: Seq<char>,
    separator: char,
    b: Seq<char>,
    separators: Seq<char>,
)
    ensures
        separators.contains(separator) ==> pieces(a.push(separator) + b, separators) == pieces(
            a,
            separators,
        ) + pieces(b, separators),
        (forall|i: int| 0 <= i < a.len() ==> !separators.contains(#[trigger] a[i])) ==> pieces(
            a,
            separators,
        ) == seq![a],
        pieces(a, separators).len() > 0,
    decreases a.len() + b.len(),
{
    lemma_pieces_exist(a, separators);
    if forall|i: int| 0 <= i < a.len() ==> !separators.contains(#[trigger] a[i]) {
        lemma_one_piece(a, separators);
    }
    if separators.contains(separator) {
        lemma_parts(a, separator, b, separators);
    }
}

proof fn lemma_pieces_exist(s: Seq<char>, separators: Seq<char>)
    ensures
        pieces(s, separators).len() > 0,
    decreases s.len(),
{
    if s.len() > 0 {
        lemma_pieces_exist(s.drop_last(), separators);
    }
}

proof fn lemma_one_piece(s: Seq<char>, separators: Seq<char>)
    requires
        forall|i: int| 0 <= i < s.len() ==> !separators.contains(#[trigger] s[i]),
    ensures
        pieces(s, separators) == seq![s],
    decreases s.len(),
{
    if s.len() > 0 {
        let less = s.drop_last();
        assert forall|i: int| 0 <= i < less.len() implies !separators.contains(
            #[trigger] less[i],
        ) by {
            assert(!separators.contains(s[i]));
        }
        lemma_one_piece(less, separators);
        assert(!separators.contains(s[s.len() - 1]));
        assert(less.push(s.last()) == s);
        assert(seq![less].drop_last().push(s) == seq![s]);
    } else {
        assert(s == Seq::<char>::empty());
    }
}

proof fn lemma_parts(a: Seq<char>, separator: char, b: Seq<char>, separators: Seq<char>)
    requires
        separators.contains(separator),
    ensures
        pieces(a.push(separator) + b, separators) == pieces(a, separators) + pieces(b, separators),
    decreases b.len(),
{
    let whole = a.push(separator) + b;
    let left = pieces(a, separators);
    if b.len() == 0 {
        assert(whole == a.push(separator));
        assert(whole.drop_last() == a);
        assert(pieces(whole, separators) == left.push(Seq::<char>::empty()));
    } else {
        let less = b.drop_last();
        lemma_parts(a, separator, less, separators);
        lemma_pieces_exist(less, separators);
        assert(whole.drop_last() == a.push(separator) + less);
        assert(whole.last() == b.last());
        let right = pieces(less, separators);
        assert((left + right).last() == right.last());
        assert((left + right).drop_last() == left + right.drop_last());
    }
}

/// Making letters small keeps the length of a text. Each of the 26 capitals, the characters from 65 to
/// 90, becomes the character 32 places on; every other character stays.
pub proof fn law_lower(s: Seq<char>)
    ensures
        lowered(s).len() == s.len(),
        forall|i: int|
            0 <= i < s.len() ==> (#[trigger] lowered(s)[i]) as int == (if 65 <= s[i] as int <= 90 {
                s[i] as int + 32
            } else {
                s[i] as int
            }),
        forall|k: int| #![trigger lower((65 + k) as char)]
            0 <= k < 26 ==> lower((65 + k) as char) == (97 + k) as char,
{
    assert forall|i: int| 0 <= i < s.len() implies (#[trigger] lowered(s)[i]) as int == (if 65
        <= s[i] as int <= 90 {
        s[i] as int + 32
    } else {
        s[i] as int
    }) by {
        assert(lowered(s)[i] == lower(s[i]));
    }
}

/// Replacing keeps the length of a text. At every place that holds `from` there is `to`, and every
/// other place is as before.
pub proof fn law_replace(s: Seq<char>, from: char, to: char)
    ensures
        replaced(s, from, to).len() == s.len(),
        forall|i: int| 0 <= i < s.len() && s[i] == from ==> #[trigger] replaced(s, from, to)[i] == to,
        forall|i: int|
            0 <= i < s.len() && s[i] != from ==> #[trigger] replaced(s, from, to)[i] == s[i],
{
}

/// A number is written without leading zeros, in digits only, and a digit behind a number makes ten
/// times the number and the digit.
pub proof fn law_decimal(n: nat, digit: nat)
    requires
        digit < 10,
    ensures
        forall|i: int| 0 <= i < decimal(n).len() ==> 48 <= #[trigger] decimal(n)[i] <= 57,
        decimal(n).len() > 0,
        n > 0 ==> decimal(n)[0] != 48,
        decimal(digit) == seq![(48 + digit) as u8],
        n > 0 ==> decimal(n * 10 + digit) == decimal(n).push((48 + digit) as u8),
    decreases n,
{
    if n >= 10 {
        law_decimal(n / 10, digit);
        assert forall|i: int| 0 <= i < decimal(n).len() implies 48 <= #[trigger] decimal(n)[i]
            <= 57 by {
            if i < decimal(n).len() - 1 {
                assert(decimal(n)[i] == decimal(n / 10)[i]);
            }
        }
    }
    if n > 0 {
        assert((n * 10 + digit) / 10 == n && (n * 10 + digit) % 10 == digit);
    }
}

/// The characters of a written number.
pub open spec fn decimal_text(n: nat) -> Seq<char> {
    decimal(n).map_values(|b: u8| b as char)
}

/// What is written as a number is read back as that number, with a plus sign before it or without.
pub proof fn law_written_number_is_read(n: u32)
    ensures
        number(decimal_text(n as nat)) == Some(n),
        number(seq!['+'] + decimal_text(n as nat)) == Some(n),
{
    let text = decimal_text(n as nat);
    lemma_digits_of_decimal(n as nat);
    law_decimal(n as nat, 0);
    assert(text[0] == decimal(n as nat)[0] as char);
    assert((seq!['+'] + text).drop_first() == text);
}

proof fn lemma_digits_of_decimal(n: nat)
    ensures
        is_number(decimal_text(n)),
        digits_value(decimal_text(n)) == n,
    decreases n,
{
    law_decimal(n, 0);
    let text = decimal_text(n);
    assert forall|i: int| 0 <= i < text.len() implies '0' <= #[trigger] text[i] <= '9' by {
        assert(text[i] == decimal(n)[i] as char);
    }
    if n < 10 {
        assert(text.drop_last().len() == 0);
        assert(text.last() == (48 + n) as u8 as char);
        assert(digits_value(text.drop_last()) == 0);
    } else {
        lemma_digits_of_decimal(n / 10);
        assert(text.drop_last() == decimal_text(n / 10));
        assert(text.last() == (48 + n % 10) as u8 as char);
    }
}

/// A text is read as a number exactly where it holds digits and nothing else, but for one plus sign
/// before them, and the number fits.
pub proof fn law_number(s: Seq<char>)
    ensures
        number(s) is Some ==> s.len() > 0 && (forall|i: int|
            1 <= i < s.len() ==> 48 <= (#[trigger] s[i]) as int <= 57) && (48 <= s[0] as int <= 57 || (
        s[0] as int == 43 && s.len() > 1)),
        forall|digit: nat| #![trigger s.push((48 + digit) as char)]
            digit < 10 && s.len() > 0 && (forall|i: int|
                0 <= i < s.len() ==> 48 <= (#[trigger] s[i]) as int <= 57) ==> match number(s) {
                Some(n) => number(s.push((48 + digit) as char)) == (if n * 10 + digit <= u32::MAX {
                    Some((n * 10 + digit) as u32)
                } else {
                    None
                }),
                None => number(s.push((48 + digit) as char)) is None,
            },
        forall|digit: nat| #![trigger seq![(48 + digit) as char]]
            digit < 10 ==> number(seq![(48 + digit) as char]) == Some(digit as u32),
        s.len() > 0 && s[0] as int != 43 ==> number(seq!['+'] + s) == number(s),
{
    if number(s) is Some {
        let digits = if s.len() > 0 && s[0] == '+' {
            s.drop_first()
        } else {
            s
        };
        assert forall|i: int| 1 <= i < s.len() implies 48 <= (#[trigger] s[i]) as int <= 57 by {
            if s[0] == '+' {
                assert(digits[i - 1] == s[i]);
            }
        }
        if s[0] != '+' {
            assert('0' <= digits[0] <= '9');
        }
    }
    assert forall|digit: nat| #![trigger s.push((48 + digit) as char)] digit < 10 && s.len()
        > 0 && (forall|i: int| 0 <= i < s.len() ==> 48 <= (#[trigger] s[i]) as int <= 57) implies match number(
        s,
    ) {
        Some(n) => number(s.push((48 + digit) as char)) == (if n * 10 + digit <= u32::MAX {
            Some((n * 10 + digit) as u32)
        } else {
            None
        }),
        None => number(s.push((48 + digit) as char)) is None,
    } by {
        let longer = s.push((48 + digit) as char);
        assert(48 <= s[0] as int <= 57);
        assert(longer[0] == s[0]);
        assert(is_number(s)) by {
            assert forall|i: int| 0 <= i < s.len() implies '0' <= #[trigger] s[i] <= '9' by {
                assert(48 <= s[i] as int <= 57);
            }
        }
        assert(is_number(longer)) by {
            assert forall|i: int| 0 <= i < longer.len() implies '0' <= #[trigger] longer[i]
                <= '9' by {
                if i < s.len() {
                    assert(longer[i] == s[i]);
                }
            }
        }
        assert(longer.drop_last() == s);
        assert(digits_value(longer) == digits_value(s) * 10 + digit);
    }
    assert forall|digit: nat| #![trigger seq![(48 + digit) as char]] digit < 10 implies number(
        seq![(48 + digit) as char],
    ) == Some(digit as u32) by {
        let one = seq![(48 + digit) as char];
        assert(one.drop_last().len() == 0);
        assert(digits_value(one.drop_last()) == 0);
        assert(is_number(one));
    }
    if s.len() > 0 && s[0] as int != 43 {
        assert((seq!['+'] + s).drop_first() == s);
    }
}

} // verus!
