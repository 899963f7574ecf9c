//! Compiled regular expressions of the crates `fancy_regex` and `regex`.
//!
//! A compiled expression is known by its source text, which is its view. Its fields are private
//! and the two `compile` functions are the only places where they are filled, so an expression
//! always belongs to the source it carries.

use vstd::prelude::*;
use vstd::utf8::{encode_utf8, is_char_boundary};

use crate::expressions::refers_to_itself;
use crate::sizes::is_small;
use crate::toc::COLOR_PATTERN;

verus! {

#[verifier::external_type_specification]
#[verifier::external_body]
pub struct ExFancyRegex(fancy_regex::Regex);

#[verifier::external_type_specification]
#[verifier::external_body]
pub struct ExRegex(regex::Regex);

/// A compiled expression with look-around and back-references. It is a small one.
pub struct FancyPattern {
    source: String,
    regex: fancy_regex::Regex,
}

impl View for FancyPattern {
    type V = Seq<char>;

    closed spec fn view(&self) -> Seq<char> {
        self.source@
    }
}

impl FancyPattern {
    #[verifier::type_invariant]
    spec fn is_sound(self) -> bool {
        is_small(self@)
    }

    /// The source of the expression.
    pub(crate) fn source(&self) -> (r: &str)
        ensures
            r@ == self@,
    {
        self.source.as_str()
    }
}

/// A compiled plain expression.
pub struct PlainPattern {
    source: String,
    regex: regex::Regex,
}

impl View for PlainPattern {
    type V = Seq<char>;

    closed spec fn view(&self) -> Seq<char> {
        self.source@
    }
}

/// Whether `fancy_regex::Regex::new` accepts a source.
pub uninterp spec fn fancy_compiles(source: Seq<char>) -> bool;

/// Whether `regex::Regex::new` accepts a source.
pub uninterp spec fn plain_compiles(source: Seq<char>) -> bool;

/// What `fancy_regex::Regex::is_match` answers for a source and a text; `None` for an error.
pub uninterp spec fn fancy_is_match(source: Seq<char>, text: Seq<char>) -> Option<bool>;

/// What `fancy_regex::Regex::captures_from_pos` finds for a source and a text from a byte
/// position on: `None` for an error, `Some(None)` for no match, else the byte position where the
/// match ends and the text of the first group, where that group took part.
pub uninterp spec fn fancy_captures_from(
    source: Seq<char>,
    text: Seq<char>,
    pos: nat,
) -> Option<Option<(nat, Option<Seq<char>>)>>;

/// What `regex::Regex::replace_all` returns for a source, a text and a replacement.
pub uninterp spec fn plain_replace_all(
    source: Seq<char>,
    text: Seq<char>,
    replacement: Seq<char>,
) -> Seq<char>;

/// One match of a [`FancyPattern`].
pub struct Found {
    /// The byte position where the match ends.
    pub end: usize,
    /// The text of the first group.
    pub group: Option<String>,
}

impl View for Found {
    type V = (nat, Option<Seq<char>>);

    open spec fn view(&self) -> (nat, Option<Seq<char>>) {
        (
            self.end as nat,
            match self.group {
                Some(text) => Some(text@),
                None => None,
            },
        )
    }
}

/// The view of an answer of [`captures_from`].
pub open spec fn answer(r: Option<Option<Found>>) -> Option<Option<(nat, Option<Seq<char>>)>> {
    match r {
        Some(Some(found)) => Some(Some(found@)),
        Some(None) => Some(None),
        None => None,
    }
}

/// `fancy_regex::Regex::new`: compiles a source. The claim is that the source alone decides
/// whether it is accepted, and that the expression is the one of that source. It sums up and
/// multiplies lengths, which overflows on a source with huge counts, and takes room for every group
/// up to the largest number that `\k` names.
#[verifier::external_body]
pub(crate) fn compile_fancy(source: &str) -> (r: Option<FancyPattern>)
    requires
        is_small(source@),
    ensures
        r is Some == fancy_compiles(source@),
        r matches Some(pattern) ==> pattern@ == source@,
{
    match fancy_regex::Regex::new(source) {
        Ok(regex) => Some(FancyPattern { source: source.to_string(), regex }),
        Err(_) => None,
    }
}

/// `regex::Regex::new`: compiles a source. The claim is that the source alone decides whether it
/// is accepted, that the expression is the one of that source, and that the source
/// [`COLOR_PATTERN`] is accepted.
#[verifier::external_body]
pub(crate) fn compile_plain(source: &str) -> (r: Option<PlainPattern>)
    ensures
        r is Some == plain_compiles(source@),
        r matches Some(pattern) ==> pattern@ == source@,
        source@ == COLOR_PATTERN@ ==> r is Some,
{
    match regex::Regex::new(source) {
        Ok(regex) => Some(PlainPattern { source: source.to_string(), regex }),
        Err(_) => None,
    }
}

/// `fancy_regex::Regex::is_match`: whether the expression matches somewhere in the text. The
/// claim is that source and text alone decide the answer; an error is told as `None`. It panics where
/// a group that refers back to itself is matched again behind its old end, and goes through counted
/// repetitions one by one even where they are empty.
#[verifier::external_body]
fn regex_is_match(pattern: &FancyPattern, text: &str) -> (r: Option<bool>)
    requires
        is_small(pattern@),
        !refers_to_itself(pattern@),
    ensures
        r == fancy_is_match(pattern@, text@),
{
    pattern.regex.is_match(text).ok()
}

/// `fancy_regex::Regex::captures_from_pos`: the first match from a byte position on. The claim
/// is that source, text and position alone decide the answer, and that a match ends at a
/// character boundary of the text, not before the position. It panics where a group that refers back
/// to itself is matched again behind its old end, or the position is inside a character, and goes
/// through counted repetitions one by one even where they are empty.
#[verifier::external_body]
fn regex_captures_from_pos(pattern: &FancyPattern, text: &str, pos: usize) -> (r: Option<
    Option<Found>,
>)
    requires
        is_small(pattern@),
        !refers_to_itself(pattern@),
        is_char_boundary(encode_utf8(text@), pos as int),
    ensures
        answer(r) == fancy_captures_from(pattern@, text@, pos as nat),
        r matches Some(Some(found)) ==> pos <= found.end <= encode_utf8(text@).len()
            && is_char_boundary(encode_utf8(text@), found.end as int),
{
    match pattern.regex.captures_from_pos(text, pos) {
        Ok(Some(captures)) => Some(captures.get(0).map(|whole| Found {
            end: whole.end(),
            group: captures.get(1).map(|group| group.as_str().to_string()),
        })),
        Ok(None) => Some(None),
        Err(_) => None,
    }
}

/// `regex::Regex::replace_all`: the text with every match replaced. The claim is that source,
/// text and replacement alone decide the outcome.
#[verifier::external_body]
pub(crate) fn replace_all(pattern: &PlainPattern, text: &str, replacement: &str) -> (r: String)
    ensures
        r@ == plain_replace_all(pattern@, text@, replacement@),
{
    pattern.regex.replace_all(text, replacement).into_owned()
}

/// Whether the expression matches somewhere in the text; `None` for an error.
pub(crate) fn is_match(pattern: &FancyPattern, text: &str) -> (r: Option<bool>)
    requires
        !refers_to_itself(pattern@),
    ensures
        r == fancy_is_match(pattern@, text@),
{
    proof {
        use_type_invariant(pattern);
    }
    regex_is_match(pattern, text)
}

/// The first match from a byte position on: `None` for an error, `Some(None)` for no match.
pub(crate) fn captures_from(pattern: &FancyPattern, text: &str, pos: usize) -> (r: Option<
    Option<Found>,
>)
    requires
        !refers_to_itself(pattern@),
        is_char_boundary(encode_utf8(text@), pos as int),
    ensures
        answer(r) == fancy_captures_from(pattern@, text@, pos as nat),
        r matches Some(Some(found)) ==> pos <= found.end <= encode_utf8(text@).len()
            && is_char_boundary(encode_utf8(text@), found.end as int),
{
    proof {
        use_type_invariant(pattern);
    }
    regex_captures_from_pos(pattern, text, pos)
}

} // verus!
