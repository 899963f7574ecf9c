//! The files that a file of an addon names.

use vstd::prelude::*;
use vstd::utf8::{encode_utf8, is_char_boundary, is_char_boundary_start_end_of_seq};

use crate::expressions::refers_to_itself;
use crate::patterns::{FileRules, FileRulesView};
use crate::regexes::{
    answer, captures_from, fancy_captures_from, plain_replace_all, replace_all, FancyPattern, Found,
};
use crate::text::{law_separator_parts, pieces, replace, replaced, split, texts};

verus! {

/// How the search of a text ended.
#[derive(Debug, Clone, Copy, PartialEq, Eq)]
pub enum SearchEnd {
    /// All of it was searched.
    Complete,
    /// The pattern gave an error, or a match without the name of a file.
    Failed,
    /// The pattern matched without moving on, so the search would never end.
    Endless,
}

/// Where the search of a line goes on after an answer.
#[derive(Debug, Clone, Copy, PartialEq, Eq)]
pub enum NextSearch {
    /// Behind the match, at this byte position.
    From(usize),
    /// Nowhere.
    Stop(SearchEnd),
}

/// The files that were found, and how the search ended.
#[derive(Debug, PartialEq)]
pub struct Search {
    pub names: Vec<String>,
    pub end: SearchEnd,
}

/// What a [`Search`] found.
#[verifier::ext_equal]
pub struct SearchView {
    pub names: Seq<Seq<char>>,
    pub end: SearchEnd,
}

impl View for Search {
    type V = SearchView;

    open spec fn view(&self) -> SearchView {
        SearchView { names: texts(self.names@), end: self.end }
    }
}

/// The name of a file as it is looked up: with slashes between its parts.
pub open spec fn looked_up(name: Seq<char>) -> Seq<char> {
    replaced(name, '\\', '/')
}

/// Where the search of a line goes on after the answer to a search from `pos`. A match that ends
/// where its search began would be found again and again.
pub open spec fn after_answer(
    found: Option<Option<(nat, Option<Seq<char>>)>>,
    pos: nat,
) -> NextSearch {
    match found {
        None => NextSearch::Stop(SearchEnd::Failed),
        Some(None) => NextSearch::Stop(SearchEnd::Complete),
        Some(Some((end, None))) => NextSearch::Stop(SearchEnd::Failed),
        Some(Some((end, Some(name)))) => if end <= pos {
            NextSearch::Stop(SearchEnd::Endless)
        } else {
            NextSearch::From(end as usize)
        },
    }
}

/// The file that an answer names, if it names one.
pub open spec fn named_in_answer(found: Option<Option<(nat, Option<Seq<char>>)>>) -> Seq<Seq<char>> {
    match found {
        Some(Some((end, Some(name)))) => seq![looked_up(name)],
        _ => Seq::<Seq<char>>::empty(),
    }
}

/// Takes the answer to a search from `pos`: the file that it names is added to `names`.
pub fn note_answer(names: &mut Vec<String>, found: Option<Option<Found>>, pos: usize) -> (r:
    NextSearch)
    ensures
        r == after_answer(answer(found), pos as nat),
        texts(final(names)@) == texts(old(names)@) + named_in_answer(answer(found)),
{
    match found {
        None => NextSearch::Stop(SearchEnd::Failed),
        Some(None) => NextSearch::Stop(SearchEnd::Complete),
        Some(Some(m)) => match m.group {
            None => NextSearch::Stop(SearchEnd::Failed),
            Some(name) => {
                let ghost before = names@;
                names.push(replace(name.as_str(), '\\', '/'));
                assert(texts(names@) == texts(before) + seq![names@.last()@]);
                if m.end <= pos {
                    NextSearch::Stop(SearchEnd::Endless)
                } else {
                    NextSearch::From(m.end)
                }
            },
        },
    }
}

/// The files that a line names from a byte position on. A match never ends behind the line.
pub open spec fn named_in_line(inclusion: Seq<char>, line: Seq<char>, pos: nat) -> SearchView
    decreases encode_utf8(line).len() - pos,
{
    let found = fancy_captures_from(inclusion, line, pos);
    let first = named_in_answer(found);
    match after_answer(found, pos) {
        NextSearch::Stop(end) => SearchView { names: first, end },
        NextSearch::From(_) => {
            let (end, _) = found->0->0;
            if end > encode_utf8(line).len() {
                SearchView { names: first, end: SearchEnd::Complete }
            } else {
                let rest = named_in_line(inclusion, line, end);
                SearchView { names: first + rest.names, end: rest.end }
            }
        },
    }
}

/// The files that several lines name, in their order. The search goes no further than the first
/// line that cannot be searched to its end.
pub open spec fn named_in_lines(inclusion: Seq<char>, lines: Seq<Seq<char>>) -> SearchView
    decreases lines.len(),
{
    if lines.len() == 0 {
        SearchView { names: Seq::<Seq<char>>::empty(), end: SearchEnd::Complete }
    } else {
        let before = named_in_lines(inclusion, lines.drop_last());
        if before.end is Complete {
            let more = named_in_line(inclusion, lines.last(), 0);
            SearchView { names: before.names + more.names, end: more.end }
        } else {
            before
        }
    }
}

/// The lines of a text. Line feeds and carriage returns end a line.
pub open spec fn lines_of(text: Seq<char>) -> Seq<Seq<char>> {
    pieces(text, seq!['\n', '\r'])
}

/// The files that a text names, once its comments are taken out.
pub open spec fn named_in_text(rules: FileRulesView, text: Seq<char>) -> SearchView {
    named_in_lines(rules.inclusion, lines_of(plain_replace_all(rules.comment_strip, text, ""@)))
}

/// Searches one line and puts the files that it names behind `names`.
fn search_line(names: &mut Vec<String>, inclusion: &FancyPattern, line: &str) -> (r: SearchEnd)
    requires
        !refers_to_itself(inclusion@),
    ensures
        texts(final(names)@) == texts(old(names)@) + named_in_line(inclusion@, line@, 0).names,
        r == named_in_line(inclusion@, line@, 0).end,
{
    let ghost start = texts(names@);
    let ghost whole = named_in_line(inclusion@, line@, 0);
    let ghost size = encode_utf8(line@).len();
    let mut pos: usize = 0;
    proof {
        vstd::utf8::encode_utf8_valid_utf8(line@);
        is_char_boundary_start_end_of_seq(encode_utf8(line@));
    }
    loop
        invariant
            !refers_to_itself(inclusion@),
            start == texts(old(names)@),
            whole == named_in_line(inclusion@, line@, 0),
            size == encode_utf8(line@).len(),
            pos <= size,
            is_char_boundary(encode_utf8(line@), pos as int),
            start + whole.names == texts(names@) + named_in_line(
                inclusion@,
                line@,
                pos as nat,
            ).names,
            whole.end == named_in_line(inclusion@, line@, pos as nat).end,
        decreases size - pos,
    {
        let found = captures_from(inclusion, line, pos);
        let ghost before = texts(names@);
        let ghost rest = named_in_line(inclusion@, line@, pos as nat);
        let ghost first = named_in_answer(answer(found));
        match note_answer(names, found, pos) {
            NextSearch::Stop(end) => {
                assert(before + rest.names == texts(names@));
                return end;
            },
            NextSearch::From(end) => {
                proof {
                    let later = named_in_line(inclusion@, line@, end as nat);
                    assert(rest.names == first + later.names);
                    assert(before + (first + later.names) == (before + first) + later.names);
                }
                pos = end;
            },
        }
    }
}

/// The files that a text names, once its comments are taken out.
pub fn included_paths(rules: &FileRules, text: &str) -> (r: Search)
    requires
        !refers_to_itself(rules@.inclusion),
    ensures
        r@ == named_in_text(rules@, text@),
{
    let stripped = replace_all(&rules.comment_strip_regex, text, "");
    let ends: [char; 2] = ['\n', '\r'];
    assert(ends@ == seq!['\n', '\r']);
    let lines = split(stripped.as_str(), &ends);
    let ghost all = texts(lines@);
    let mut names: Vec<String> = Vec::new();
    assert(texts(names@) == Seq::<Seq<char>>::empty());
    let mut i: usize = 0;
    while i < lines.len()
        invariant
            i <= lines@.len(),
            !refers_to_itself(rules@.inclusion),
            all == texts(lines@),
            named_in_text(rules@, text@) == named_in_lines(rules@.inclusion, all),
            named_in_lines(rules@.inclusion, all.take(i as int)) == (SearchView {
                names: texts(names@),
                end: SearchEnd::Complete,
            }),
        decreases lines@.len() - i,
    {
        proof {
            assert(all.take(i + 1).drop_last() == all.take(i as int));
            assert(all.take(i + 1).last() == lines@[i as int]@);
        }
        match search_line(&mut names, &rules.inclusion_regex, lines[i].as_str()) {
            SearchEnd::Complete => {},
            end => {
                proof {
                    lemma_end_stays(rules@.inclusion, all, i + 1);
                }
                return Search { names, end };
            },
        }
        i = i + 1;
    }
    assert(all.take(all.len() as int) == all);
    Search { names, end: SearchEnd::Complete }
}

proof fn lemma_end_stays(inclusion: Seq<char>, lines: Seq<Seq<char>>, n: int)
    requires
        0 <= n <= lines.len(),
        !(named_in_lines(inclusion, lines.take(n)).end is Complete),
    ensures
        named_in_lines(inclusion, lines) == named_in_lines(inclusion, lines.take(n)),
    decreases lines.len() - n,
{
    if n < lines.len() {
        assert(lines.take(n + 1).drop_last() == lines.take(n));
        lemma_end_stays(inclusion, lines, n + 1);
    } else {
        assert(lines.take(n) == lines);
    }
}

// ---------------------------------------------------------------------------------------------
// Laws
// ---------------------------------------------------------------------------------------------

/// A name is looked up without a backslash. It keeps its length, has a slash exactly where the name has
/// a slash or a backslash, and is the name everywhere else.
pub proof fn law_looked_up(name: Seq<char>)
    ensures
        looked_up(name).len() == name.len(),
        forall|i: int| 0 <= i < name.len() ==> #[trigger] looked_up(name)[i] != '\\',
        forall|i: int|
            0 <= i < name.len() ==> (#[trigger] looked_up(name)[i] == '/' <==> name[i] == '/'
                || name[i] == '\\'),
        forall|i: int|
            0 <= i < name.len() && name[i] != '\\' ==> #[trigger] looked_up(name)[i] == name[i],
{
}

/// What an answer to a search from `pos` does: an error, or a match without a first group, ends the
/// search without success; no match ends it with success; a match gives its first group as a name, and
/// the search goes on behind the match, unless that is no further than where it began.
pub proof fn law_answer(pos: nat, end: nat, name: Seq<char>)
    ensures
        after_answer(None, pos) == NextSearch::Stop(SearchEnd::Failed),
        after_answer(Some(None), pos) == NextSearch::Stop(SearchEnd::Complete),
        after_answer(Some(Some((end, None))), pos) == NextSearch::Stop(SearchEnd::Failed),
        end <= pos ==> after_answer(Some(Some((end, Some(name)))), pos) == NextSearch::Stop(
            SearchEnd::Endless,
        ),
        pos < end ==> after_answer(Some(Some((end, Some(name)))), pos) == NextSearch::From(
            end as usize,
        ),
        named_in_answer(None).len() == 0,
        named_in_answer(Some(None)).len() == 0,
        named_in_answer(Some(Some((end, None)))).len() == 0,
        named_in_answer(Some(Some((end, Some(name))))) == seq![looked_up(name)],
{
}

/// The names in a line are the first groups of its matches, one after the other, each match searched
/// for from the end of the one before.
pub proof fn law_names_in_line(inclusion: Seq<char>, line: Seq<char>, pos: nat)
    ensures
        match fancy_captures_from(inclusion, line, pos) {
            None => named_in_line(inclusion, line, pos).names.len() == 0 && named_in_line(
                inclusion,
                line,
                pos,
            ).end is Failed,
            Some(None) => named_in_line(inclusion, line, pos).names.len() == 0 && named_in_line(
                inclusion,
                line,
                pos,
            ).end is Complete,
            Some(Some((end, None))) => named_in_line(inclusion, line, pos).names.len() == 0
                && named_in_line(inclusion, line, pos).end is Failed,
            Some(Some((end, Some(name)))) => {
                let all = named_in_line(inclusion, line, pos);
                let rest = named_in_line(inclusion, line, end);
                &&& all.names.len() > 0
                &&& all.names[0] == looked_up(name)
                &&& end <= pos ==> all.names.len() == 1 && all.end is Endless
                &&& pos < end <= encode_utf8(line).len() ==> all.names.drop_first() == rest.names
                    && all.end == rest.end
            },
        },
{
    if let Some(Some((end, Some(name)))) = fancy_captures_from(inclusion, line, pos) {
        let all = named_in_line(inclusion, line, pos);
        let rest = named_in_line(inclusion, line, end);
        if pos < end <= encode_utf8(line).len() {
            assert(all.names == seq![looked_up(name)] + rest.names);
            assert(all.names.drop_first() == rest.names);
        }
    }
}

/// No name that a search yields contains a backslash.
pub proof fn law_no_backslash(rules: FileRulesView, text: Seq<char>, k: int)
    requires
        0 <= k < named_in_text(rules, text).names.len(),
    ensures
        !named_in_text(rules, text).names[k].contains('\\'),
{
    lemma_no_backslash_in_lines(
        rules.inclusion,
        lines_of(plain_replace_all(rules.comment_strip, text, ""@)),
        k,
    );
}

proof fn lemma_no_backslash_in_line(inclusion: Seq<char>, line: Seq<char>, pos: nat, k: int)
    requires
        0 <= k < named_in_line(inclusion, line, pos).names.len(),
    ensures
        !named_in_line(inclusion, line, pos).names[k].contains('\\'),
    decreases encode_utf8(line).len() - pos,
{
    let all = named_in_line(inclusion, line, pos).names;
    match fancy_captures_from(inclusion, line, pos) {
        Some(Some((end, Some(name)))) => {
            law_looked_up(name);
            if k > 0 {
                let rest = named_in_line(inclusion, line, end).names;
                assert(pos < end <= encode_utf8(line).len());
                assert(all == seq![looked_up(name)] + rest);
                assert(all[k] == rest[k - 1]);
                lemma_no_backslash_in_line(inclusion, line, end, k - 1);
            } else {
                assert(all[0] == looked_up(name));
            }
        },
        _ => {},
    }
}

proof fn lemma_no_backslash_in_lines(inclusion: Seq<char>, lines: Seq<Seq<char>>, k: int)
    requires
        0 <= k < named_in_lines(inclusion, lines).names.len(),
    ensures
        !named_in_lines(inclusion, lines).names[k].contains('\\'),
    decreases lines.len(),
{
    if lines.len() > 0 {
        let before = named_in_lines(inclusion, lines.drop_last());
        if k < before.names.len() {
            lemma_no_backslash_in_lines(inclusion, lines.drop_last(), k);
        } else {
            lemma_no_backslash_in_line(inclusion, lines.last(), 0, k - before.names.len());
        }
    }
}

/// Every line feed and every carriage return, and nothing else, ends a line.
pub proof fn law_lines(a: Seq<char>, b: Seq<char>)
    ensures
        lines_of(a.push('\n') + b) == lines_of(a) + lines_of(b),
        lines_of(a.push('\r') + b) == lines_of(a) + lines_of(b),
        !a.contains('\n') && !a.contains('\r') ==> lines_of(a) == seq![a],
{
    let ends = seq!['\n', '\r'];
    assert(ends[0] == '\n' && ends[1] == '\r');
    assert(ends.contains('\n') && ends.contains('\r'));
    law_separator_parts(a, '\n', b, ends);
    law_separator_parts(a, '\r', b, ends);
    if !a.contains('\n') && !a.contains('\r') {
        assert forall|i: int| 0 <= i < a.len() implies !ends.contains(#[trigger] a[i]) by {
            assert(a.contains(a[i]));
        }
    }
}

/// The names in two runs of lines follow each other, as long as the first run is searched to its end.
/// A single line is searched from its start.
pub proof fn law_names_in_lines(inclusion: Seq<char>, a: Seq<Seq<char>>, b: Seq<Seq<char>>)
    ensures
        named_in_lines(inclusion, Seq::<Seq<char>>::empty()).names.len() == 0,
        named_in_lines(inclusion, Seq::<Seq<char>>::empty()).end is Complete,
        a.len() == 1 ==> named_in_lines(inclusion, a) == named_in_line(inclusion, a[0], 0),
        named_in_lines(inclusion, a + b) == (if named_in_lines(inclusion, a).end is Complete {
            SearchView {
                names: named_in_lines(inclusion, a).names + named_in_lines(inclusion, b).names,
                end: named_in_lines(inclusion, b).end,
            }
        } else {
            named_in_lines(inclusion, a)
        }),
    decreases b.len(),
{
    let none = Seq::<Seq<char>>::empty();
    if a.len() == 1 {
        assert(a.drop_last() == none);
        let one = named_in_line(inclusion, a[0], 0);
        assert(named_in_lines(inclusion, none).names + one.names == one.names);
    }
    if b.len() == 0 {
        assert(a + b == a);
        let all = named_in_lines(inclusion, a);
        assert(all.names + none == all.names);
    } else {
        law_names_in_lines(inclusion, a, b.drop_last());
        assert((a + b).drop_last() == a + b.drop_last());
        assert((a + b).last() == b.last());
        let x = named_in_lines(inclusion, a).names;
        let y = named_in_lines(inclusion, b.drop_last()).names;
        let z = named_in_line(inclusion, b.last(), 0).names;
        assert((x + y) + z == x + (y + z));
    }
}

/// Comments are taken out of a text before it is searched, line by line.
pub proof fn law_names_in_text(
    rules: FileRulesView,
    text: Seq<char>,
    first: Seq<char>,
    end: char,
    rest: Seq<char>,
)
    requires
        !first.contains('\n'),
        !first.contains('\r'),
        end == '\n' || end == '\r',
    ensures
        plain_replace_all(rules.comment_strip, text, Seq::<char>::empty()) == first ==> named_in_text(
            rules,
            text,
        ) == named_in_line(rules.inclusion, first, 0),
        plain_replace_all(rules.comment_strip, text, Seq::<char>::empty()) == first.push(end) + rest
            ==> named_in_text(rules, text) == (if named_in_line(
            rules.inclusion,
            first,
            0,
        ).end is Complete {
            SearchView {
                names: named_in_line(rules.inclusion, first, 0).names + named_in_lines(
                    rules.inclusion,
                    lines_of(rest),
                ).names,
                end: named_in_lines(rules.inclusion, lines_of(rest)).end,
            }
        } else {
            named_in_line(rules.inclusion, first, 0)
        }),
{
    reveal_strlit("");
    assert(""@ == Seq::<char>::empty());
    law_lines(first, rest);
    law_names_in_lines(rules.inclusion, lines_of(first), lines_of(rest));
}

} // verus!
