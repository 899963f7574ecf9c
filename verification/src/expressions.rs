//! What the source of an expression for `fancy_regex` says about its groups and counts.
//!
//! The source is read from left to right, and every open parenthesis is followed on a level of its
//! own. Two things come of it.
//!
//! - The least length to which the expression unfolds: what stands side by side adds up, and a count
//!   multiplies only what it repeats.
//! - Whether a group that refers back to itself can be matched a second time further on. Its start
//!   is then new while its end is still the old one. Where the new start lies behind the old end,
//!   the engine panics on the text between them. That takes something around the group that is
//!   repeated and holds more than the group: a group that is repeated by itself starts again exactly
//!   where it ended.

use vstd::prelude::*;

use crate::sizes::{capped, MAX_SIZE};
use crate::skips::{
    behind_blanks, behind_class, behind_digits, count_at, digit, flags_read, lemma_behind_blanks,
    read_count, read_flags, skip_blanks, skip_class, skip_digits, stands, stands_at, Count,
};
use crate::text::{
    decimal, decimal_text, find_char, first_at, from_chars, is_digit, is_number, law_decimal,
    law_number, law_written_number_is_read, number, parse_number, same, to_chars,
};

verus! {

// ---------------------------------------------------------------------------------------------
// Levels
// ---------------------------------------------------------------------------------------------

/// An open parenthesis, or the expression as a whole. Lengths are counted no further than [`capped`]
/// does.
#[derive(Clone, Copy)]
pub struct Level {
    /// The number of the group, where it is one.
    pub group: Option<usize>,
    /// Whether the expression is extended again behind it; `None` where it leaves that alone.
    pub restores: Option<bool>,
    /// Whether it is a look-around, which consumes nothing.
    pub looks: bool,
    /// Whether it is a group that refers back to itself.
    pub refers: bool,
    /// Whether a group that refers back to itself stands in it.
    pub holds: bool,
    /// Whether, where it holds such a group, a parenthesis in it can consume something else too.
    pub apart: bool,
    /// Whether, besides a parenthesis with such a group, something in it can consume.
    pub others: bool,
    /// The length of what was read, up to the last piece.
    pub before: u64,
    /// The length of the last piece.
    pub last: u64,
    /// Whether a count here is one of the last piece.
    pub countable: bool,
}

/// Two lengths side by side.
pub open spec fn added(a: u64, b: u64) -> u64 {
    capped((a + b) as nat)
}

/// A length that is repeated. Even where it may be left out it is looked at once.
pub open spec fn multiplied(a: u64, times: u64) -> u64 {
    if times == 0 {
        a
    } else {
        capped((a * times) as nat)
    }
}

/// A level at its start.
pub open spec fn new_level(group: Option<usize>, restores: Option<bool>, looks: bool) -> Level {
    Level {
        group,
        restores,
        looks,
        refers: false,
        holds: false,
        apart: false,
        others: false,
        before: 0,
        last: 0,
        countable: false,
    }
}

/// A level on which one more piece stands, of the least length.
pub open spec fn with_piece(o: Level, consumes: bool) -> Level {
    Level {
        others: o.others || consumes,
        before: added(o.before, o.last),
        last: 1,
        countable: true,
        ..o
    }
}

/// A level on which no count can follow.
pub open spec fn without_count(o: Level) -> Level {
    Level { countable: false, ..o }
}

/// A level whose last piece is counted.
pub open spec fn with_count(o: Level, least: u64) -> Level {
    Level { last: multiplied(o.last, least), countable: false, ..o }
}

/// Whether, once a level is repeated, a group in it that refers back to itself can be matched further
/// on.
pub open spec fn moves_on(o: Level) -> bool {
    o.holds && (o.apart || o.others)
}

/// A level on which a parenthesis was closed. Where two of them hold groups that refer back to
/// themselves, each is something else to the other.
pub open spec fn with_closed(o: Level, gone: Level) -> Level {
    let holds = gone.holds || gone.refers;
    Level {
        holds: o.holds || holds,
        apart: o.apart || moves_on(gone),
        others: o.others || (if holds {
            o.holds
        } else {
            !gone.looks
        }),
        before: added(o.before, o.last),
        last: added(added(gone.before, gone.last), 1),
        countable: true,
        ..o
    }
}

/// A level after a back-reference to a group was read. A group that is open refers back to itself.
pub open spec fn with_reference(o: Level, group: Option<usize>) -> Level {
    Level { refers: o.refers || (group is Some && o.group == group), ..o }
}

/// The length of all levels together.
pub open spec fn total(open: Seq<Level>) -> u64
    decreases open.len(),
{
    if open.len() == 0 {
        0
    } else {
        added(total(open.drop_last()), added(open.last().before, open.last().last))
    }
}

// ---------------------------------------------------------------------------------------------
// What is read
// ---------------------------------------------------------------------------------------------

/// How far an expression is read.
#[verifier::ext_equal]
pub struct Place {
    pub at: int,
    /// Whether white space is skipped here.
    pub extended: bool,
    /// The number of groups that were opened.
    pub groups: usize,
    /// The names of groups and their numbers.
    pub names: Seq<(Seq<char>, usize)>,
    /// The expression as a whole, and behind it the parentheses that are open.
    pub open: Seq<Level>,
    /// Whether a group that refers back to itself can be matched again, further on.
    pub fails: bool,
    /// Whether a back-reference by number means a group beyond all that there can be.
    pub far: bool,
}

/// The number of a group with a name. Of several groups with that name the last one counts.
pub open spec fn named(names: Seq<(Seq<char>, usize)>, name: Seq<char>) -> Option<usize>
    decreases names.len(),
{
    if names.len() == 0 {
        None
    } else if names.last().0 == name {
        Some(names.last().1)
    } else {
        named(names.drop_last(), name)
    }
}

/// The group that a number means.
pub open spec fn numbered(digits: Seq<char>) -> Option<usize> {
    match number(digits) {
        Some(k) => Some(k as usize),
        None => None,
    }
}

/// The group that a back-reference by name means. In the place of a name there may be the number of
/// the group, or a negative number that counts back from the group opened last.
pub open spec fn meant(p: Place, name: Seq<char>) -> Option<usize> {
    match named(p.names, name) {
        Some(n) => Some(n),
        None => if name.len() > 0 && name[0] == '-' {
            match number(name.drop_first()) {
                Some(k) if k == 0 => Some(0),
                Some(k) if k <= p.groups + 1 => Some((p.groups + 1 - k) as usize),
                _ => None,
            }
        } else {
            numbered(name)
        },
    }
}

/// Whether a back-reference by name is a number that is larger than the source is long.
pub open spec fn is_far(s: Seq<char>, p: Place, name: Seq<char>) -> bool {
    named(p.names, name) is None && is_number(name) && (match number(name) {
        Some(k) => k > s.len(),
        None => true,
    })
}

/// The name behind `at`, up to a closing character.
pub open spec fn name_at(s: Seq<char>, at: int, close: char) -> Seq<char> {
    if at <= s.len() {
        s.subrange(at, first_at(s, close, at))
    } else {
        Seq::<char>::empty()
    }
}

/// The place behind a closing character.
pub open spec fn behind(s: Seq<char>, at: int, close: char) -> int {
    let end = first_at(s, close, at);
    if end < s.len() {
        end + 1
    } else {
        end
    }
}

/// The character that closes a name which is opened at `at`.
pub open spec fn closing(s: Seq<char>, at: int) -> char {
    if at < s.len() && s[at] == '\'' {
        '\''
    } else {
        '>'
    }
}

/// The last level was changed.
pub open spec fn on_top(p: Place, o: Level, at: int) -> Place {
    Place { at, open: p.open.drop_last().push(o), ..p }
}

/// A piece was read.
pub open spec fn piece(p: Place, consumes: bool, at: int) -> Place {
    on_top(p, with_piece(p.open.last(), consumes), at)
}

/// A back-reference to a group was read.
pub open spec fn referred(p: Place, group: Option<usize>, at: int) -> Place {
    piece(
        Place { open: p.open.map_values(|o: Level| with_reference(o, group)), ..p },
        true,
        at,
    )
}

/// A parenthesis was opened that is no group.
pub open spec fn plain_opened(p: Place, restores: Option<bool>, looks: bool, at: int) -> Place {
    Place { at, open: p.open.push(new_level(None, restores, looks)), ..p }
}

/// A group was opened.
pub open spec fn group_opened(p: Place, at: int) -> Place {
    let number = (p.groups + 1) as usize;
    Place {
        at,
        groups: number,
        open: p.open.push(new_level(Some(number), None, false)),
        ..p
    }
}

/// A group with a name was opened. The name stands behind `at`.
pub open spec fn named_opened(s: Seq<char>, p: Place, at: int) -> Place {
    let opened = group_opened(p, behind(s, at, '>'));
    Place { names: p.names.push((name_at(s, at, '>'), opened.groups)), ..opened }
}

/// Whether what ends before `at` is repeated. A question mark repeats nothing.
pub open spec fn is_repeated(s: Seq<char>, at: int, extended: bool) -> bool {
    let next = behind_blanks(s, at, extended);
    next < s.len() && (s[next] == '*' || s[next] == '+' || (s[next] == '{' && (count_at(
        s,
        next,
        extended,
    ) matches Some(count) && count.more)))
}

/// A parenthesis was closed.
pub open spec fn closed(s: Seq<char>, p: Place) -> Place {
    if p.open.len() < 2 {
        Place { at: p.at + 1, ..p }
    } else {
        let gone = p.open.last();
        let rest = p.open.drop_last();
        let extended = match gone.restores {
            Some(before) => before,
            None => p.extended,
        };
        Place {
            at: p.at + 1,
            extended,
            open: rest.drop_last().push(with_closed(rest.last(), gone)),
            fails: p.fails || (moves_on(gone) && is_repeated(s, p.at + 1, extended)),
            ..p
        }
    }
}

/// A parenthesis with a question mark at `q` was opened.
pub open spec fn special_opened(s: Seq<char>, p: Place, q: int) -> Place {
    if stands_at(s, q, "?<="@) || stands_at(s, q, "?<!"@) {
        plain_opened(p, None, true, q + 3)
    } else if stands_at(s, q, "?<"@) {
        named_opened(s, p, q + 2)
    } else if stands_at(s, q, "?P<"@) {
        named_opened(s, p, q + 3)
    } else if stands_at(s, q, "?P="@) {
        referred(p, meant(p, name_at(s, q + 3, ')')), behind(s, q + 3, ')'))
    } else if stands_at(s, q, "?="@) || stands_at(s, q, "?!"@) {
        plain_opened(p, None, true, q + 2)
    } else if stands_at(s, q, "?>"@) {
        plain_opened(p, None, false, q + 2)
    } else if stands_at(s, q, "?("@) {
        plain_opened(plain_opened(p, None, false, q + 2), None, false, q + 2)
    } else {
        let (at, extended, still_open) = flags_read(s, q + 1, false, p.extended);
        if still_open {
            Place { extended, ..plain_opened(p, Some(p.extended), false, at) }
        } else {
            Place { extended, ..on_top(p, without_count(p.open.last()), at) }
        }
    }
}

/// The letters of escapes that consume nothing.
pub open spec fn is_assertion(c: char) -> bool {
    c == 'A' || c == 'z' || c == 'b' || c == 'B' || c == 'G' || c == 'K' || c == '<' || c == '>'
}

/// The letters of escapes that name a character by its number.
pub open spec fn names_character(c: char) -> bool {
    c == 'x' || c == 'u' || c == 'U'
}

/// An escape was read.
pub open spec fn escape_read(s: Seq<char>, p: Place) -> Place {
    let next = p.at + 1;
    if next >= s.len() {
        piece(p, true, next)
    } else if is_digit(s[next]) {
        let end = behind_digits(s, next);
        referred(p, numbered(s.subrange(next, end)), end)
    } else if s[next] == 'k' && next + 1 < s.len() {
        let close = closing(s, next + 1);
        let name = name_at(s, next + 2, close);
        Place {
            far: p.far || is_far(s, p, name),
            ..referred(p, meant(p, name), behind(s, next + 2, close))
        }
    } else if names_character(s[next]) && next + 1 < s.len() && s[next + 1] == '{' {
        piece(p, true, behind(s, next + 2, '}'))
    } else {
        piece(p, !is_assertion(s[next]), next + 1)
    }
}

/// What follows a piece and consumes nothing.
pub open spec fn is_mark(c: char) -> bool {
    c == '*' || c == '+' || c == '?' || c == '|'
}

/// The next piece of an expression was read.
pub open spec fn piece_read(s: Seq<char>, p: Place) -> Place {
    let next = behind_blanks(s, p.at, p.extended);
    if next > p.at {
        Place { at: next, ..p }
    } else if s[p.at] == '\\' {
        escape_read(s, p)
    } else if s[p.at] == '[' {
        piece(p, true, behind_class(s, p.at))
    } else if s[p.at] == '(' {
        let q = behind_blanks(s, p.at + 1, p.extended);
        if q < s.len() && s[q] == '?' {
            special_opened(s, p, q)
        } else {
            group_opened(p, q)
        }
    } else if s[p.at] == ')' {
        closed(s, p)
    } else if is_mark(s[p.at]) {
        on_top(p, without_count(p.open.last()), p.at + 1)
    } else if s[p.at] == '^' || s[p.at] == '$' {
        piece(p, false, p.at + 1)
    } else if s[p.at] == '{' && p.open.last().countable {
        match count_at(s, p.at, p.extended) {
            Some(count) => on_top(p, with_count(p.open.last(), count.least), count.end),
            None => piece(p, true, p.at + 1),
        }
    } else {
        piece(p, true, p.at + 1)
    }
}

/// The end of an expression. Every piece leads on, and not beyond the end.
pub open spec fn read_from(s: Seq<char>, p: Place) -> Place
    decreases s.len() - p.at,
{
    if p.at < 0 || p.at >= s.len() {
        p
    } else {
        let next = piece_read(s, p);
        if next.at <= p.at || next.at > s.len() {
            next
        } else {
            read_from(s, next)
        }
    }
}

/// The start of an expression.
pub open spec fn start() -> Place {
    Place {
        at: 0,
        extended: false,
        groups: 0,
        names: Seq::<(Seq<char>, usize)>::empty(),
        open: seq![new_level(None, None, false)],
        fails: false,
        far: false,
    }
}

/// Whether an expression can match a group that refers back to itself a second time, further on.
pub open spec fn refers_to_itself(source: Seq<char>) -> bool {
    read_from(source, start()).fails
}

/// The least length to which an expression unfolds, from above: what stands side by side adds up, and
/// a count multiplies only what it repeats. Alternatives and what consumes nothing are added too,
/// because the engine may walk through any of them. Lengths are counted no further than [`capped`]
/// does.
pub open spec fn least_size(source: Seq<char>) -> u64 {
    total(read_from(source, start()).open)
}

/// Whether an expression refers by number to a group beyond all that there can be.
pub open spec fn reads_far(source: Seq<char>) -> bool {
    read_from(source, start()).far
}

// ---------------------------------------------------------------------------------------------
// The reader
// ---------------------------------------------------------------------------------------------

fn add_sizes(a: u64, b: u64) -> (r: u64)
    requires
        a <= MAX_SIZE + 1,
        b <= MAX_SIZE + 1,
    ensures
        r == added(a, b),
        r <= MAX_SIZE + 1,
{
    let sum: u64 = a + b;
    if sum <= MAX_SIZE as u64 {
        sum
    } else {
        MAX_SIZE as u64 + 1
    }
}

fn multiply_size(a: u64, times: u64) -> (r: u64)
    requires
        a <= MAX_SIZE + 1,
        times <= MAX_SIZE + 1,
    ensures
        r == multiplied(a, times),
        r <= MAX_SIZE + 1,
{
    if times == 0 {
        return a;
    }
    assert(a * times <= 0x8000_0000 * 0x8000_0000) by (nonlinear_arith)
        requires
            a <= 0x8000_0000,
            times <= 0x8000_0000,
    ;
    let product: u64 = a * times;
    if product <= MAX_SIZE as u64 {
        product
    } else {
        MAX_SIZE as u64 + 1
    }
}

/// Whether the lengths on a level are counted no further than they should.
spec fn is_capped(o: Level) -> bool {
    o.before <= MAX_SIZE + 1 && o.last <= MAX_SIZE + 1
}

fn level(group: Option<usize>, restores: Option<bool>, looks: bool) -> (r: Level)
    ensures
        r == new_level(group, restores, looks),
        is_capped(r),
{
    Level {
        group,
        restores,
        looks,
        refers: false,
        holds: false,
        apart: false,
        others: false,
        before: 0,
        last: 0,
        countable: false,
    }
}

fn behind_char(chars: &Vec<char>, at: usize, close: char) -> (r: usize)
    requires
        at <= chars@.len(),
    ensures
        r == behind(chars@, at as int, close),
        at <= r <= chars@.len(),
{
    let end = find_char(chars, close, at);
    if end < chars.len() {
        end + 1
    } else {
        end
    }
}

fn read_name(chars: &Vec<char>, at: usize, close: char) -> (r: String)
    requires
        at <= chars@.len(),
    ensures
        r@ == name_at(chars@, at as int, close),
{
    let end = find_char(chars, close, at);
    from_chars(chars, at, end)
}

fn read_number(digits: &str) -> (r: Option<usize>)
    ensures
        r == numbered(digits@),
{
    match parse_number(digits) {
        Some(k) => Some(k as usize),
        None => None,
    }
}

fn only_digits(chars: &Vec<char>) -> (r: bool)
    ensures
        r == is_number(chars@),
{
    let mut i: usize = 0;
    while i < chars.len()
        invariant
            i <= chars@.len(),
            forall|j: int| 0 <= j < i ==> '0' <= #[trigger] chars@[j] <= '9',
        decreases chars@.len() - i,
    {
        if !digit(chars[i]) {
            return false;
        }
        i = i + 1;
    }
    chars.len() > 0
}

/// How far an expression is read.
struct Reader {
    at: usize,
    extended: bool,
    groups: usize,
    names: Vec<(String, usize)>,
    open: Vec<Level>,
    fails: bool,
    far: bool,
}

spec fn name_views(names: Seq<(String, usize)>) -> Seq<(Seq<char>, usize)> {
    names.map_values(|n: (String, usize)| (n.0@, n.1))
}

impl View for Reader {
    type V = Place;

    closed spec fn view(&self) -> Place {
        Place {
            at: self.at as int,
            extended: self.extended,
            groups: self.groups,
            names: name_views(self.names@),
            open: self.open@,
            fails: self.fails,
            far: self.far,
        }
    }
}

impl Reader {
    /// A reader stays within the source, opens no more groups than it has read characters, and has a
    /// level for the expression as a whole.
    spec fn is_sound(&self, chars: Seq<char>) -> bool {
        &&& self.groups <= self.at <= chars.len()
        &&& self.open@.len() > 0
        &&& forall|i: int| 0 <= i < self.open@.len() ==> is_capped(#[trigger] self.open@[i])
    }

    fn number_of(&self, name: &str) -> (r: Option<usize>)
        ensures
            r == named(self@.names, name@),
    {
        let ghost all = name_views(self.names@);
        let mut i: usize = self.names.len();
        assert(all.take(i as int) == all);
        while i > 0
            invariant
                i <= self.names@.len(),
                all == name_views(self.names@),
                named(all.take(i as int), name@) == named(all, name@),
            decreases i,
        {
            assert(all.take(i as int).drop_last() == all.take(i - 1));
            assert(all.take(i as int).last() == (self.names@[i - 1].0@, self.names@[i - 1].1));
            i = i - 1;
            if same(self.names[i].0.as_str(), name) {
                return Some(self.names[i].1);
            }
        }
        None
    }

    fn meaning(&self, name: &String) -> (r: Option<usize>)
        requires
            self.groups < usize::MAX,
        ensures
            r == meant(self@, name@),
    {
        match self.number_of(name.as_str()) {
            Some(n) => Some(n),
            None => {
                let chars = to_chars(name.as_str());
                if chars.len() > 0 && chars[0] == '-' {
                    let digits = from_chars(&chars, 1, chars.len());
                    assert(digits@ == name@.drop_first());
                    match parse_number(digits.as_str()) {
                        None => None,
                        Some(k) => if k == 0 {
                            Some(0)
                        } else if k as usize <= self.groups + 1 {
                            Some(self.groups + 1 - k as usize)
                        } else {
                            None
                        },
                    }
                } else {
                    read_number(name.as_str())
                }
            },
        }
    }

    fn means_far(&self, chars: &Vec<char>, name: &String) -> (r: bool)
        ensures
            r == is_far(chars@, self@, name@),
    {
        if self.number_of(name.as_str()).is_some() || !only_digits(&to_chars(name.as_str())) {
            return false;
        }
        match parse_number(name.as_str()) {
            Some(k) => k as usize > chars.len(),
            None => true,
        }
    }

    fn set_top(&mut self, o: Level, at: usize, Ghost(chars): Ghost<Seq<char>>)
        requires
            old(self).is_sound(chars),
            is_capped(o),
            old(self).at <= at <= chars.len(),
        ensures
            final(self)@ == on_top(old(self)@, o, at as int),
            final(self).is_sound(chars),
            final(self).groups == old(self).groups,
            final(self).at == at,
    {
        let ghost before = self.open@;
        let _ = self.open.pop();
        self.open.push(o);
        self.at = at;
        assert(self.open@ == before.drop_last().push(o));
    }

    fn top(&self) -> (r: Level)
        requires
            self.open@.len() > 0,
        ensures
            r == self@.open.last(),
    {
        self.open[self.open.len() - 1]
    }

    fn add_piece(&mut self, consumes: bool, at: usize, Ghost(chars): Ghost<Seq<char>>)
        requires
            old(self).is_sound(chars),
            old(self).at <= at <= chars.len(),
        ensures
            final(self)@ == piece(old(self)@, consumes, at as int),
            final(self).is_sound(chars),
            final(self).groups == old(self).groups,
            final(self).at == at,
    {
        let top = self.top();
        assert(is_capped(self.open@[self.open@.len() - 1]));
        let changed = Level {
            group: top.group,
            restores: top.restores,
            looks: top.looks,
            refers: top.refers,
            holds: top.holds,
            apart: top.apart,
            others: top.others || consumes,
            before: add_sizes(top.before, top.last),
            last: 1,
            countable: true,
        };
        self.set_top(changed, at, Ghost(chars));
    }

    fn refer(&mut self, group: Option<usize>, at: usize, Ghost(chars): Ghost<Seq<char>>)
        requires
            old(self).is_sound(chars),
            old(self).at <= at <= chars.len(),
        ensures
            final(self)@ == referred(old(self)@, group, at as int),
            final(self).is_sound(chars),
            final(self).groups == old(self).groups,
            final(self).at == at,
    {
        let ghost before = self.open@;
        let ghost marked = before.map_values(|o: Level| with_reference(o, group));
        let mut i: usize = 0;
        while i < self.open.len()
            invariant
                i <= self.open@.len() == before.len(),
                marked == before.map_values(|o: Level| with_reference(o, group)),
                self.at == old(self).at,
                self.extended == old(self).extended,
                self.groups == old(self).groups,
                self.names == old(self).names,
                self.fails == old(self).fails,
                self.far == old(self).far,
                forall|j: int| 0 <= j < before.len() ==> is_capped(#[trigger] before[j]),
                forall|j: int| 0 <= j < i ==> #[trigger] self.open@[j] == marked[j],
                forall|j: int| i <= j < before.len() ==> #[trigger] self.open@[j] == before[j],
            decreases self.open@.len() - i,
        {
            let mut changed = self.open[i];
            let is_meant = match (changed.group, group) {
                (Some(own), Some(n)) => own == n,
                _ => false,
            };
            if is_meant {
                changed.refers = true;
                self.open.set(i, changed);
            }
            i = i + 1;
        }
        assert(self.open@ == marked);
        self.add_piece(true, at, Ghost(chars));
    }

    fn open_plain(
        &mut self,
        restores: Option<bool>,
        looks: bool,
        at: usize,
        Ghost(chars): Ghost<Seq<char>>,
    )
        requires
            old(self).is_sound(chars),
            old(self).at <= at <= chars.len(),
        ensures
            final(self)@ == plain_opened(old(self)@, restores, looks, at as int),
            final(self).is_sound(chars),
            final(self).groups == old(self).groups,
            final(self).at == at,
    {
        self.open.push(level(None, restores, looks));
        self.at = at;
    }

    fn open_group(&mut self, at: usize, Ghost(chars): Ghost<Seq<char>>)
        requires
            old(self).is_sound(chars),
            old(self).at < at <= chars.len(),
        ensures
            final(self)@ == group_opened(old(self)@, at as int),
            final(self).is_sound(chars),
            final(self).at == at,
    {
        self.groups = self.groups + 1;
        self.open.push(level(Some(self.groups), None, false));
        self.at = at;
    }

    fn open_named(&mut self, chars: &Vec<char>, at: usize)
        requires
            old(self).is_sound(chars@),
            old(self).at < at <= chars@.len(),
        ensures
            final(self)@ == named_opened(chars@, old(self)@, at as int),
            final(self).is_sound(chars@),
            at <= final(self).at,
    {
        let name = read_name(chars, at, '>');
        self.open_group(behind_char(chars, at, '>'), Ghost(chars@));
        let ghost before = self.names@;
        self.names.push((name, self.groups));
        assert(name_views(self.names@) == name_views(before).push((name@, self.groups)));
    }

    fn close(&mut self, chars: &Vec<char>)
        requires
            old(self).is_sound(chars@),
            old(self).at < chars@.len(),
        ensures
            final(self)@ == closed(chars@, old(self)@),
            final(self).is_sound(chars@),
            final(self).at == old(self).at + 1,
    {
        let len = chars.len();
        let ghost before = self.open@;
        if self.open.len() < 2 {
            self.at = self.at + 1;
            return;
        }
        let gone = self.top();
        let _ = self.open.pop();
        let ghost rest = self.open@;
        assert(rest == before.drop_last());
        assert(is_capped(before[before.len() - 1]) && is_capped(rest[rest.len() - 1]));
        if let Some(extended) = gone.restores {
            self.extended = extended;
        }
        let moving = gone.holds && (gone.apart || gone.others);
        if moving {
            let next = skip_blanks(chars, self.at + 1, self.extended);
            let repeated = next < len && (chars[next] == '*' || chars[next] == '+' || (chars[next]
                == '{' && (match read_count(chars, next, self.extended) {
                Some((_, more, _)) => more,
                None => false,
            })));
            self.fails = self.fails || repeated;
        }
        let mut o = self.top();
        let holds = gone.holds || gone.refers;
        o.others = o.others || (if holds {
            o.holds
        } else {
            !gone.looks
        });
        o.holds = o.holds || holds;
        o.apart = o.apart || moving;
        o.before = add_sizes(o.before, o.last);
        o.last = add_sizes(add_sizes(gone.before, gone.last), 1);
        o.countable = true;
        self.set_top(o, self.at + 1, Ghost(chars@));
    }

    fn end_counts(&mut self, at: usize, Ghost(chars): Ghost<Seq<char>>)
        requires
            old(self).is_sound(chars),
            old(self).at <= at <= chars.len(),
        ensures
            final(self)@ == on_top(old(self)@, without_count(old(self)@.open.last()), at as int),
            final(self).is_sound(chars),
            final(self).at == at,
    {
        let mut o = self.top();
        assert(is_capped(self.open@[self.open@.len() - 1]));
        o.countable = false;
        self.set_top(o, at, Ghost(chars));
    }

    fn open_special(&mut self, chars: &Vec<char>, q: usize)
        requires
            old(self).is_sound(chars@),
            old(self).at < q < chars@.len(),
        ensures
            final(self)@ == special_opened(chars@, old(self)@, q as int),
            final(self).is_sound(chars@),
            q < final(self).at,
    {
        proof {
            reveal_strlit("?<=");
            reveal_strlit("?<!");
            reveal_strlit("?<");
            reveal_strlit("?P<");
            reveal_strlit("?P=");
            reveal_strlit("?=");
            reveal_strlit("?!");
            reveal_strlit("?>");
            reveal_strlit("?(");
            assert(chars@.len() == chars.len());
        }
        if stands(chars, q, "?<=") || stands(chars, q, "?<!") {
            self.open_plain(None, true, q + 3, Ghost(chars@));
        } else if stands(chars, q, "?<") {
            self.open_named(chars, q + 2);
        } else if stands(chars, q, "?P<") {
            self.open_named(chars, q + 3);
        } else if stands(chars, q, "?P=") {
            let group = self.meaning(&read_name(chars, q + 3, ')'));
            self.refer(group, behind_char(chars, q + 3, ')'), Ghost(chars@));
        } else if stands(chars, q, "?=") || stands(chars, q, "?!") {
            self.open_plain(None, true, q + 2, Ghost(chars@));
        } else if stands(chars, q, "?>") {
            self.open_plain(None, false, q + 2, Ghost(chars@));
        } else if stands(chars, q, "?(") {
            self.open_plain(None, false, q + 2, Ghost(chars@));
            self.open_plain(None, false, q + 2, Ghost(chars@));
        } else {
            let (at, extended, still_open) = read_flags(chars, q + 1, self.extended);
            if still_open {
                let before = self.extended;
                self.open_plain(Some(before), false, at, Ghost(chars@));
            } else {
                self.end_counts(at, Ghost(chars@));
            }
            self.extended = extended;
        }
    }

    fn read_escape(&mut self, chars: &Vec<char>)
        requires
            old(self).is_sound(chars@),
            old(self).at < chars@.len(),
        ensures
            final(self)@ == escape_read(chars@, old(self)@),
            final(self).is_sound(chars@),
            old(self).at < final(self).at,
    {
        let len = chars.len();
        let next = self.at + 1;
        if next >= len {
            self.add_piece(true, next, Ghost(chars@));
            return;
        }
        let c = chars[next];
        if digit(c) {
            let end = skip_digits(chars, next);
            let digits = from_chars(chars, next, end);
            self.refer(read_number(digits.as_str()), end, Ghost(chars@));
        } else if c == 'k' && next + 1 < len {
            let close = if chars[next + 1] == '\'' {
                '\''
            } else {
                '>'
            };
            let name = read_name(chars, next + 2, close);
            let far = self.means_far(chars, &name);
            let group = self.meaning(&name);
            self.refer(group, behind_char(chars, next + 2, close), Ghost(chars@));
            self.far = self.far || far;
        } else if (c == 'x' || c == 'u' || c == 'U') && next + 1 < len && chars[next + 1] == '{' {
            self.add_piece(true, behind_char(chars, next + 2, '}'), Ghost(chars@));
        } else {
            let consumes = !(c == 'A' || c == 'z' || c == 'b' || c == 'B' || c == 'G' || c == 'K' || c
                == '<' || c == '>');
            self.add_piece(consumes, next + 1, Ghost(chars@));
        }
    }

    fn read_piece(&mut self, chars: &Vec<char>)
        requires
            old(self).is_sound(chars@),
            old(self).at < chars@.len(),
        ensures
            final(self)@ == piece_read(chars@, old(self)@),
            final(self).is_sound(chars@),
            old(self).at < final(self).at,
    {
        let len = chars.len();
        let next = skip_blanks(chars, self.at, self.extended);
        if next > self.at {
            self.at = next;
            return;
        }
        let c = chars[self.at];
        if c == '\\' {
            self.read_escape(chars);
        } else if c == '[' {
            let at = skip_class(chars, self.at);
            self.add_piece(true, at, Ghost(chars@));
        } else if c == '(' {
            let q = skip_blanks(chars, self.at + 1, self.extended);
            if q < len && chars[q] == '?' {
                self.open_special(chars, q);
            } else {
                self.open_group(q, Ghost(chars@));
            }
        } else if c == ')' {
            self.close(chars);
        } else if c == '*' || c == '+' || c == '?' || c == '|' {
            self.end_counts(self.at + 1, Ghost(chars@));
        } else if c == '^' || c == '$' {
            self.add_piece(false, self.at + 1, Ghost(chars@));
        } else if c == '{' && self.top().countable {
            match read_count(chars, self.at, self.extended) {
                Some((least, _, end)) => {
                    let mut o = self.top();
                    assert(is_capped(self.open@[self.open@.len() - 1]));
                    o.last = multiply_size(o.last, least);
                    o.countable = false;
                    self.set_top(o, end, Ghost(chars@));
                },
                None => {
                    self.add_piece(true, self.at + 1, Ghost(chars@));
                },
            }
        } else {
            self.add_piece(true, self.at + 1, Ghost(chars@));
        }
    }

    fn read(chars: &Vec<char>) -> (r: Reader)
        ensures
            r@ == read_from(chars@, start()),
            r.is_sound(chars@),
    {
        let mut open: Vec<Level> = Vec::new();
        open.push(level(None, None, false));
        let mut reader = Reader {
            at: 0,
            extended: false,
            groups: 0,
            names: Vec::new(),
            open,
            fails: false,
            far: false,
        };
        assert(reader@ == start());
        while reader.at < chars.len()
            invariant
                reader.is_sound(chars@),
                read_from(chars@, reader@) == read_from(chars@, start()),
            decreases chars@.len() - reader.at,
        {
            reader.read_piece(chars);
        }
        reader
    }

    fn size(&self, Ghost(chars): Ghost<Seq<char>>) -> (r: u64)
        requires
            self.is_sound(chars),
        ensures
            r == total(self@.open),
    {
        let mut i: usize = 0;
        let mut sum: u64 = 0;
        while i < self.open.len()
            invariant
                i <= self.open@.len(),
                self.is_sound(chars),
                sum == total(self.open@.take(i as int)),
                sum <= MAX_SIZE + 1,
            decreases self.open@.len() - i,
        {
            assert(self.open@.take(i + 1).drop_last() == self.open@.take(i as int));
            assert(is_capped(self.open@[i as int]));
            sum = add_sizes(sum, add_sizes(self.open[i].before, self.open[i].last));
            i = i + 1;
        }
        assert(self.open@.take(i as int) == self.open@);
        sum
    }
}

/// Tells whether an expression can match a group that refers back to itself a second time, further
/// on.
pub fn has_self_reference(source: &str) -> (r: bool)
    ensures
        r == refers_to_itself(source@),
{
    Reader::read(&to_chars(source)).fails
}

/// The least length to which an expression unfolds, and whether it refers by number to a group
/// beyond all that there can be.
pub fn measure(source: &str) -> (r: (u64, bool))
    ensures
        r.0 == least_size(source@),
        r.1 == reads_far(source@),
{
    let chars = to_chars(source);
    let reader = Reader::read(&chars);
    (reader.size(Ghost(chars@)), reader.far)
}

// ---------------------------------------------------------------------------------------------
// Laws
// ---------------------------------------------------------------------------------------------

/// Whether nothing that was read refers back to a group.
spec fn is_free(p: Place) -> bool {
    &&& p.open.len() > 0
    &&& forall|i: int|
        0 <= i < p.open.len() ==> !(#[trigger] p.open[i]).refers && !p.open[i].holds
            && !p.open[i].apart
    &&& !p.fails
    &&& !p.far
}

/// The length of all levels together, without a limit.
spec fn weight(open: Seq<Level>) -> nat
    decreases open.len(),
{
    if open.len() == 0 {
        0
    } else {
        (weight(open.drop_last()) + open.last().before + open.last().last) as nat
    }
}

proof fn lemma_total_is_no_more(open: Seq<Level>)
    ensures
        total(open) <= weight(open),
    decreases open.len(),
{
    if open.len() > 0 {
        lemma_total_is_no_more(open.drop_last());
    }
}

/// An expression without a back-reference, whether by number, by `\\k` or by name, has no group that
/// refers back to itself, and no reference to a group beyond all others.
pub proof fn law_without_references(source: Seq<char>)
    requires
        forall|i: int|
            0 <= i < source.len() - 1 && #[trigger] source[i] == '\\' ==> !('0' <= source[i + 1]
                <= '9') && source[i + 1] != 'k',
        forall|i: int| 0 <= i < source.len() ==> !#[trigger] stands_at(source, i, "?P="@),
    ensures
        !refers_to_itself(source),
        !reads_far(source),
{
    lemma_stays_free(source, start());
}

proof fn lemma_stays_free(s: Seq<char>, p: Place)
    requires
        is_free(p),
        p.at >= 0,
        forall|i: int|
            0 <= i < s.len() - 1 && #[trigger] s[i] == '\\' ==> !('0' <= s[i + 1] <= '9') && s[i + 1]
                != 'k',
        forall|i: int| 0 <= i < s.len() ==> !#[trigger] stands_at(s, i, "?P="@),
    ensures
        is_free(read_from(s, p)),
    decreases s.len() - p.at,
{
    if p.at < s.len() {
        let next = piece_read(s, p);
        lemma_piece_stays_free(s, p);
        if next.at > p.at && next.at <= s.len() {
            lemma_stays_free(s, next);
        }
    }
}

proof fn lemma_piece_stays_free(s: Seq<char>, p: Place)
    requires
        is_free(p),
        0 <= p.at < s.len(),
        forall|i: int|
            0 <= i < s.len() - 1 && #[trigger] s[i] == '\\' ==> !('0' <= s[i + 1] <= '9') && s[i + 1]
                != 'k',
        forall|i: int| 0 <= i < s.len() ==> !#[trigger] stands_at(s, i, "?P="@),
    ensures
        is_free(piece_read(s, p)),
{
    let top = p.open.last();
    assert(top == p.open[p.open.len() - 1]);
    if s[p.at] == ')' && p.open.len() >= 2 {
        let rest = p.open.drop_last();
        assert(rest.last() == p.open[p.open.len() - 2]);
    }
    let q = behind_blanks(s, p.at + 1, p.extended);
    lemma_behind_blanks(s, p.at + 1, p.extended);
    if q < s.len() {
        assert(!stands_at(s, q, "?P="@));
    }
    let piece = piece_read(s, p);
    assert forall|i: int| 0 <= i < piece.open.len() implies !(#[trigger] piece.open[i]).refers
        && !piece.open[i].holds && !piece.open[i].apart by {
        if i < p.open.len() {
            assert(!p.open[i].refers && !p.open[i].holds && !p.open[i].apart);
        }
    }
}

/// An expression without braces is no longer than its source.
pub proof fn law_without_counts(source: Seq<char>)
    requires
        !source.contains('{'),
    ensures
        least_size(source) <= source.len(),
{
    let end = read_from(source, start());
    let levels = start().open;
    assert(levels.drop_last() == Seq::<Level>::empty());
    assert(weight(levels.drop_last()) == 0);
    assert(weight(levels) == 0);
    lemma_weight(source, start());
    lemma_total_is_no_more(end.open);
}

proof fn lemma_weight(s: Seq<char>, p: Place)
    requires
        !s.contains('{'),
        0 <= p.at <= s.len(),
        p.open.len() > 0,
        weight(p.open) <= p.at,
    ensures
        weight(read_from(s, p).open) <= s.len(),
    decreases s.len() - p.at,
{
    if p.at < s.len() {
        let next = piece_read(s, p);
        lemma_weight_of_piece(s, p);
        if next.at > p.at && next.at <= s.len() {
            lemma_weight(s, next);
        }
    }
}

proof fn lemma_weight_of_top(open: Seq<Level>, o: Level)
    requires
        open.len() > 0,
    ensures
        weight(open.drop_last().push(o)) == weight(open.drop_last()) + o.before + o.last,
        weight(open) == weight(open.drop_last()) + open.last().before + open.last().last,
        weight(open.push(o)) == weight(open) + o.before + o.last,
{
    assert(open.drop_last().push(o).drop_last() == open.drop_last());
    assert(open.push(o).drop_last() == open);
}

proof fn lemma_weight_of_marked(open: Seq<Level>, group: Option<usize>)
    ensures
        weight(open.map_values(|o: Level| with_reference(o, group))) == weight(open),
    decreases open.len(),
{
    let marked = open.map_values(|o: Level| with_reference(o, group));
    if open.len() > 0 {
        lemma_weight_of_marked(open.drop_last(), group);
        assert(marked.drop_last() == open.drop_last().map_values(
            |o: Level| with_reference(o, group),
        ));
    }
}

proof fn lemma_weight_of_reference(p: Place, group: Option<usize>, at: int)
    requires
        p.open.len() > 0,
    ensures
        weight(referred(p, group, at).open) <= weight(p.open) + 1,
        referred(p, group, at).open.len() > 0,
{
    let marked = p.open.map_values(|o: Level| with_reference(o, group));
    lemma_weight_of_marked(p.open, group);
    lemma_weight_of_top(marked, with_piece(marked.last(), true));
}

proof fn lemma_weight_of_one(p: Place, consumes: bool, at: int)
    requires
        p.open.len() > 0,
    ensures
        weight(piece(p, consumes, at).open) <= weight(p.open) + 1,
        piece(p, consumes, at).open.len() > 0,
{
    lemma_weight_of_top(p.open, with_piece(p.open.last(), consumes));
}

proof fn lemma_weight_of_opened(open: Seq<Level>, group: Option<usize>, restores: Option<bool>, looks: bool)
    ensures
        weight(open.push(new_level(group, restores, looks))) == weight(open),
{
    let o = new_level(group, restores, looks);
    assert(open.push(o).drop_last() == open);
}

proof fn lemma_weight_of_escape(s: Seq<char>, p: Place)
    requires
        0 <= p.at < s.len(),
        p.open.len() > 0,
    ensures
        weight(escape_read(s, p).open) <= weight(p.open) + 1,
        escape_read(s, p).open.len() > 0,
{
    let next = p.at + 1;
    if next >= s.len() {
        lemma_weight_of_one(p, true, next);
    } else if is_digit(s[next]) {
        let end = behind_digits(s, next);
        lemma_weight_of_reference(p, numbered(s.subrange(next, end)), end);
    } else if s[next] == 'k' && next + 1 < s.len() {
        let close = closing(s, next + 1);
        lemma_weight_of_reference(
            p,
            meant(p, name_at(s, next + 2, close)),
            behind(s, next + 2, close),
        );
    } else if names_character(s[next]) && next + 1 < s.len() && s[next + 1] == '{' {
        lemma_weight_of_one(p, true, behind(s, next + 2, '}'));
    } else {
        lemma_weight_of_one(p, !is_assertion(s[next]), next + 1);
    }
}

proof fn lemma_weight_of_special(s: Seq<char>, p: Place, q: int)
    requires
        p.open.len() > 0,
    ensures
        weight(special_opened(s, p, q).open) <= weight(p.open) + 1,
        special_opened(s, p, q).open.len() > 0,
{
    lemma_weight_of_opened(p.open, None, None, true);
    lemma_weight_of_opened(p.open, None, None, false);
    lemma_weight_of_opened(p.open, None, Some(p.extended), false);
    lemma_weight_of_opened(p.open, Some((p.groups + 1) as usize), None, false);
    lemma_weight_of_opened(p.open.push(new_level(None, None, false)), None, None, false);
    lemma_weight_of_reference(p, meant(p, name_at(s, q + 3, ')')), behind(s, q + 3, ')'));
    lemma_weight_of_top(p.open, without_count(p.open.last()));
}

proof fn lemma_weight_of_closed(s: Seq<char>, p: Place)
    requires
        p.open.len() > 0,
    ensures
        weight(closed(s, p).open) <= weight(p.open) + 1,
        closed(s, p).open.len() > 0,
{
    if p.open.len() >= 2 {
        let rest = p.open.drop_last();
        lemma_weight_of_top(p.open, p.open.last());
        lemma_weight_of_top(rest, with_closed(rest.last(), p.open.last()));
    }
}

proof fn lemma_weight_of_piece(s: Seq<char>, p: Place)
    requires
        !s.contains('{'),
        0 <= p.at < s.len(),
        p.open.len() > 0,
    ensures
        weight(piece_read(s, p).open) <= weight(p.open) + 1,
        piece_read(s, p).open.len() > 0,
{
    assert(s.contains(s[p.at]));
    let q = behind_blanks(s, p.at + 1, p.extended);
    if behind_blanks(s, p.at, p.extended) > p.at {
    } else if s[p.at] == '\\' {
        lemma_weight_of_escape(s, p);
    } else if s[p.at] == '[' {
        lemma_weight_of_one(p, true, behind_class(s, p.at));
    } else if s[p.at] == '(' {
        lemma_weight_of_special(s, p, q);
        lemma_weight_of_opened(p.open, Some((p.groups + 1) as usize), None, false);
    } else if s[p.at] == ')' {
        lemma_weight_of_closed(s, p);
    } else if is_mark(s[p.at]) {
        lemma_weight_of_top(p.open, without_count(p.open.last()));
    } else {
        lemma_weight_of_one(p, true, p.at + 1);
        lemma_weight_of_one(p, false, p.at + 1);
    }
}

/// A place after some letters were read.
spec fn letters_read(p: Place, n: nat) -> Place
    decreases n,
{
    if n == 0 {
        p
    } else {
        letters_read(piece(p, true, p.at + 1), (n - 1) as nat)
    }
}

proof fn lemma_no_comment(s: Seq<char>, at: int)
    requires
        0 <= at <= s.len(),
        at + 1 < s.len() && s[at] == '(' ==> s[at + 1] != '?' || (at + 2 < s.len() && s[at + 2]
            != '#'),
    ensures
        behind_blanks(s, at, false) == at,
{
    reveal_strlit("(?#");
    if at + 3 <= s.len() {
        let part = s.subrange(at, at + 3);
        assert(part[0] == s[at] && part[1] == s[at + 1] && part[2] == s[at + 2]);
        assert("(?#"@[0] == '(' && "(?#"@[1] == '?' && "(?#"@[2] == '#');
    }
}

proof fn lemma_letters(s: Seq<char>, p: Place, n: nat)
    requires
        0 <= p.at,
        p.at + n <= s.len(),
        !p.extended,
        p.open.len() > 0,
        forall|i: int| p.at <= i < p.at + n ==> 'a' <= #[trigger] s[i] <= 'z',
    ensures
        read_from(s, p) == read_from(s, letters_read(p, n)),
        ({
            let q = letters_read(p, n);
            &&& q.at == p.at + n
            &&& !q.extended
            &&& q.groups == p.groups
            &&& q.names == p.names
            &&& q.fails == p.fails
            &&& q.open.len() == p.open.len()
            &&& forall|i: int| 0 <= i < p.open.len() - 1 ==> q.open[i] == #[trigger] p.open[i]
            &&& q.open.last().group == p.open.last().group
            &&& q.open.last().restores == p.open.last().restores
            &&& q.open.last().refers == p.open.last().refers
            &&& q.open.last().holds == p.open.last().holds
            &&& q.open.last().apart == p.open.last().apart
            &&& q.open.last().others == (p.open.last().others || n > 0)
        }),
    decreases n,
{
    if n > 0 {
        let next = piece(p, true, p.at + 1);
        assert('a' <= s[p.at] <= 'z');
        lemma_no_comment(s, p.at);
        assert(piece_read(s, p) == next);
        lemma_letters(s, next, (n - 1) as nat);
        let q = letters_read(p, n);
        assert forall|i: int| 0 <= i < p.open.len() - 1 implies q.open[i] == #[trigger] p.open[i] by {
            assert(next.open[i] == p.open[i]);
        }
        assert(next.open.last() == with_piece(p.open.last(), true));
    }
}

/// Whether the two parentheses of a repeated group are open, and the group is the first one.
spec fn is_inside(p: Place, refers: bool) -> bool {
    &&& !p.extended
    &&& p.groups == 1
    &&& !p.fails
    &&& p.open.len() == 3
    &&& p.open[1] == new_level(None, Some(false), false)
    &&& p.open.last().group == Some(1usize)
    &&& p.open.last().restores is None
    &&& p.open.last().refers == refers
    &&& !p.open.last().holds
}

/// Whether the group is closed, and the parenthesis around it is open.
spec fn is_behind(p: Place, others: bool) -> bool {
    &&& !p.extended
    &&& !p.fails
    &&& p.open.len() == 2
    &&& p.open.last().restores == Some(false)
    &&& p.open.last().holds
    &&& !p.open.last().apart
    &&& p.open.last().others == others
}

proof fn lemma_second_parenthesis(s: Seq<char>)
    requires
        s.len() > 5,
        s[0] == '(',
        s[1] == '?',
        s[2] == ':',
        s[3] == '(',
        s[4] != '(' && s[4] != '?',
    ensures
        ({
            let p = group_opened(plain_opened(start(), Some(false), false, 3), 4);
            &&& is_inside(p, false)
            &&& p.at == 4
            &&& read_from(s, start()) == read_from(s, p)
        }),
{
    lemma_first_parenthesis(s);
    let p1 = plain_opened(start(), Some(false), false, 3);
    lemma_no_comment(s, 3);
    lemma_no_comment(s, 4);
    let p2 = group_opened(p1, 4);
    assert(piece_read(s, p1) == p2);
    assert(p2.open[1] == new_level(None, Some(false), false));
    assert(p2.open.last() == new_level(Some(1usize), None, false));
    assert(read_from(s, start()) == read_from(s, p1));
    assert(read_from(s, p1) == read_from(s, p2));
}

proof fn lemma_reference(s: Seq<char>, p: Place)
    requires
        is_inside(p, false),
        0 <= p.at < s.len() - 2,
        s[p.at] == '\\',
        s[p.at + 1] == '1',
        s[p.at + 2] == ')',
    ensures
        is_inside(piece_read(s, p), true),
        piece_read(s, p).at == p.at + 2,
        read_from(s, p) == read_from(s, piece_read(s, p)),
{
    lemma_no_comment(s, p.at);
    lemma_one(s, p.at + 1);
    let marked = p.open.map_values(|o: Level| with_reference(o, Some(1usize)));
    let next = piece_read(s, p);
    assert(next == referred(p, Some(1usize), p.at + 2));
    assert(next.open == marked.drop_last().push(with_piece(marked.last(), true)));
    assert(marked.last() == with_reference(p.open.last(), Some(1usize)));
    assert(next.open[1] == with_reference(p.open[1], Some(1usize)));
}

proof fn lemma_end_of_group(s: Seq<char>, p: Place)
    requires
        is_inside(p, true),
        0 <= p.at < s.len() - 1,
        s[p.at] == ')',
    ensures
        is_behind(piece_read(s, p), false),
        piece_read(s, p).at == p.at + 1,
        read_from(s, p) == read_from(s, piece_read(s, p)),
{
    lemma_no_comment(s, p.at);
    let next = piece_read(s, p);
    assert(next == closed(s, p));
    let rest = p.open.drop_last();
    assert(rest.last() == p.open[1]);
    assert(next.open.last() == with_closed(p.open[1], p.open.last()));
}

proof fn lemma_end_of_repetition(s: Seq<char>, p: Place, others: bool)
    requires
        is_behind(p, others),
        p.at == s.len() - 2,
        p.at >= 0,
        s[p.at] == ')',
        s[p.at + 1] == '+',
    ensures
        read_from(s, p).fails == others,
{
    lemma_no_comment(s, p.at);
    lemma_no_comment(s, p.at + 1);
    let next = piece_read(s, p);
    assert(next == closed(s, p));
    assert(is_repeated(s, p.at + 1, false));
    assert(next.fails == others);
    let end = piece_read(s, next);
    assert(end == on_top(next, without_count(next.open.last()), next.at + 1));
    assert(read_from(s, end) == end);
    assert(read_from(s, next) == end);
    assert(read_from(s, p) == read_from(s, next));
}

/// A group that refers back to itself, and is repeated together with letters behind it, can be matched
/// again further on: the engine would panic on it. Repeated alone it cannot.
pub proof fn law_repeated_reference(a: Seq<char>, c: Seq<char>)
    requires
        forall|i: int| 0 <= i < a.len() ==> 'a' <= #[trigger] a[i] <= 'z',
        forall|i: int| 0 <= i < c.len() ==> 'a' <= #[trigger] c[i] <= 'z',
    ensures
        refers_to_itself("(?:("@ + a + "\\1)"@ + c + ")+"@) == (c.len() > 0),
{
    reveal_strlit("(?:(");
    reveal_strlit("\\1)");
    reveal_strlit(")+");
    let s = "(?:("@ + a + "\\1)"@ + c + ")+"@;
    let n = a.len() as int;
    let m = c.len() as int;
    assert(s.len() == 4 + n + 3 + m + 2);
    assert(s[0] == '(' && s[1] == '?' && s[2] == ':' && s[3] == '(');
    assert forall|i: int| 4 <= i < 4 + n implies 'a' <= #[trigger] s[i] <= 'z' by {
        assert(s[i] == a[i - 4]);
    }
    assert(s[4 + n] == '\\' && s[5 + n] == '1' && s[6 + n] == ')');
    assert forall|i: int| 7 + n <= i < 7 + n + m implies 'a' <= #[trigger] s[i] <= 'z' by {
        assert(s[i] == c[i - 7 - n]);
    }
    assert(s[7 + n + m] == ')' && s[8 + n + m] == '+');
    lemma_second_parenthesis(s);
    let inside = group_opened(plain_opened(start(), Some(false), false, 3), 4);
    lemma_letters(s, inside, a.len());
    let before = letters_read(inside, a.len());
    lemma_reference(s, before);
    let marked = piece_read(s, before);
    lemma_end_of_group(s, marked);
    let behind = piece_read(s, marked);
    lemma_letters(s, behind, c.len());
    lemma_end_of_repetition(s, letters_read(behind, c.len()), m > 0);
}

proof fn lemma_first_parenthesis(s: Seq<char>)
    requires
        s.len() > 4,
        s[0] == '(',
        s[1] == '?',
        s[2] == ':',
    ensures
        piece_read(s, start()) == plain_opened(start(), Some(false), false, 3),
{
    reveal_strlit("?<=");
    reveal_strlit("?<!");
    reveal_strlit("?<");
    reveal_strlit("?P<");
    reveal_strlit("?P=");
    reveal_strlit("?=");
    reveal_strlit("?!");
    reveal_strlit("?>");
    reveal_strlit("?(");
    lemma_no_comment(s, 0);
    lemma_no_comment(s, 1);
    lemma_no_comment(s, 2);
    assert(s.subrange(1, 3)[1] == ':' && s.subrange(1, 4)[1] == ':');
    assert("?<="@[1] == '<' && "?<!"@[1] == '<' && "?<"@[1] == '<' && "?P<"@[1] == 'P' && "?P="@[1]
        == 'P' && "?="@[1] == '=' && "?!"@[1] == '!' && "?>"@[1] == '>' && "?("@[1] == '(');
    assert(flags_read(s, 2, false, false) == (3int, false, true));
}

proof fn lemma_one(s: Seq<char>, at: int)
    requires
        0 <= at < s.len() - 1,
        s[at] == '1',
        !is_digit(s[at + 1]),
    ensures
        behind_digits(s, at) == at + 1,
        numbered(s.subrange(at, at + 1)) == Some(1usize),
{
    reveal_with_fuel(behind_digits, 2);
    let one = s.subrange(at, at + 1);
    law_number(one);
    assert(one == seq![(48 + 1nat) as char]);
}

proof fn lemma_run_of_digits(s: Seq<char>, from: int, to: int)
    requires
        0 <= from <= to < s.len(),
        forall|i: int| from <= i < to ==> '0' <= #[trigger] s[i] <= '9',
        !is_digit(s[to]),
    ensures
        behind_digits(s, from) == to,
    decreases to - from,
{
    if from < to {
        assert('0' <= s[from] <= '9');
        lemma_run_of_digits(s, from + 1, to);
    }
}

/// A letter with a count is as long as the count says, and as long as a letter where it says zero.
pub proof fn law_counted_letter(c: char, n: u32)
    requires
        'a' <= c <= 'z',
        n <= MAX_SIZE,
    ensures
        least_size(seq![c] + "{"@ + decimal_text(n as nat) + "}"@) == (if n == 0 {
            1
        } else {
            n as int
        }),
{
    reveal_strlit("{");
    reveal_strlit("}");
    let digits = decimal_text(n as nat);
    let s = seq![c] + "{"@ + digits + "}"@;
    let to = 2 + digits.len() as int;
    law_written_number_is_read(n);
    law_decimal(n as nat, 0);
    assert(s.len() == to + 1 && s[0] == c && s[1] == '{' && s[to] == '}');
    assert forall|i: int| 2 <= i < to implies '0' <= #[trigger] s[i] <= '9' by {
        assert(s[i] == digits[i - 2]);
        assert(digits[i - 2] == decimal(n as nat)[i - 2] as char);
    }
    assert(s.subrange(2, to) == digits);
    assert('0' <= s[2] <= '9');
    lemma_no_comment(s, 0);
    lemma_no_comment(s, 1);
    lemma_no_comment(s, 2);
    lemma_no_comment(s, to);
    lemma_run_of_digits(s, 2, to);
    let p0 = start();
    let p1 = piece_read(s, p0);
    assert(p1 == piece(p0, true, 1));
    assert(p1.open == seq![with_piece(p0.open.last(), true)]);
    let count = Count { least: capped(n as nat), more: capped(n as nat) > 1, end: to + 1 };
    assert(count_at(s, 1, false) == Some(count));
    let p2 = piece_read(s, p1);
    assert(p2 == on_top(p1, with_count(p1.open.last(), count.least), to + 1));
    assert(p2.open == seq![with_count(p1.open.last(), count.least)]);
    assert(read_from(s, p2) == p2);
    assert(read_from(s, p1) == p2);
    assert(read_from(s, p0) == p2);
    assert(p2.open.drop_last() == Seq::<Level>::empty());
    assert(total(p2.open.drop_last()) == 0);
    assert(p1.open.last().last == 1 && p1.open.last().before == 0);
    assert(1 * n == n) by (nonlinear_arith);
}

} // verus!
