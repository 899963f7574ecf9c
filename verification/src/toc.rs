//! The table-of-contents file of an addon.
//!
//! A TOC file is a list of lines. A line `## Key: value` is a directive; all other lines are left
//! alone here.

use vstd::prelude::*;

use crate::addon::{opt_text, Addon, AddonView};
use crate::regexes::{compile_plain, plain_replace_all, replace_all, PlainPattern};
use crate::text::{
    find_char, first_at, from_chars, is_white_space, law_first_at, law_separator_parts, number,
    parse_number, pieces, same, split, texts, to_chars, trim, trimmed, white_space,
};

verus! {

/// A colored stretch of text: a bar, nine characters that choose the color, the text itself, and
/// a closing bar.
pub const COLOR_PATTERN: &'static str = "\\|[a-fA-F\\d]{9}([^|]+)\\|r?";

/// What a colored stretch is replaced with: the text itself.
pub const COLOR_REPLACEMENT: &'static str = "$1";

// ---------------------------------------------------------------------------------------------
// Directives
// ---------------------------------------------------------------------------------------------

/// The key and the value of a directive. The line starts with two hashes and one white space. The
/// key reaches to the first colon and does not leave the line. One white space behind the colon
/// does not belong to the value, which reaches to the end of the line.
pub open spec fn directive(line: Seq<char>) -> Option<(Seq<char>, Seq<char>)> {
    if line.len() < 4 || line[0] != '#' || line[1] != '#' || !is_white_space(line[2]) {
        None
    } else {
        let colon = first_at(line, ':', 3);
        if colon >= line.len() || first_at(line, '\n', 3) < colon {
            None
        } else {
            let value = if colon + 1 < line.len() && is_white_space(line[colon + 1]) {
                colon + 2
            } else {
                colon + 1
            };
            Some((line.subrange(3, colon), line.subrange(value, first_at(line, '\n', value))))
        }
    }
}

/// The view of a directive that was found.
pub open spec fn pair_text(r: Option<(String, String)>) -> Option<(Seq<char>, Seq<char>)> {
    match r {
        Some((key, value)) => Some((key@, value@)),
        None => None,
    }
}

/// Reads a line as a directive.
pub fn read_directive(line: &str) -> (r: Option<(String, String)>)
    ensures
        pair_text(r) == directive(line@),
{
    let chars = to_chars(line);
    let len = chars.len();
    if len < 4 || chars[0] != '#' || chars[1] != '#' || !white_space(chars[2]) {
        return None;
    }
    let colon = find_char(&chars, ':', 3);
    if colon == len {
        return None;
    }
    let end = find_char(&chars, '\n', 3);
    if end < colon {
        return None;
    }
    let value: usize = if colon + 1 < len && white_space(chars[colon + 1]) {
        colon + 2
    } else {
        colon + 1
    };
    let stop = find_char(&chars, '\n', value);
    Some((from_chars(&chars, 3, colon), from_chars(&chars, value, stop)))
}

// ---------------------------------------------------------------------------------------------
// Values
// ---------------------------------------------------------------------------------------------

/// The names in a comma separated list. An empty value is an empty list.
pub open spec fn listed(value: Seq<char>) -> Seq<Seq<char>> {
    if value.len() == 0 {
        Seq::<Seq<char>>::empty()
    } else {
        pieces(value, seq![',']).map_values(|name: Seq<char>| trimmed(name))
    }
}

/// Splits a comma separated value into its names.
pub fn split_dependencies_into_vec(value: &str) -> (r: Vec<String>)
    ensures
        texts(r@) == listed(value@),
{
    let mut r: Vec<String> = Vec::new();
    if value.is_empty() {
        return r;
    }
    let comma: [char; 1] = [','];
    let parts = split(value, &comma);
    assert(comma@ == seq![',']);
    let mut i: usize = 0;
    while i < parts.len()
        invariant
            i <= parts@.len(),
            texts(parts@) == pieces(value@, seq![',']),
            value@.len() > 0,
            texts(r@) == listed(value@).take(i as int),
        decreases parts@.len() - i,
    {
        let name = trim(parts[i].as_str());
        proof {
            assert(texts(parts@)[i as int] == parts@[i as int]@);
            assert(texts(r@.push(name)) == texts(r@).push(name@));
        }
        r.push(name);
        i = i + 1;
    }
    assert(listed(value@).take(parts@.len() as int) == listed(value@));
    r
}

/// A value without color marks and without white space at its ends.
pub open spec fn plain(value: Seq<char>) -> Seq<char> {
    trimmed(plain_replace_all(COLOR_PATTERN@, value, COLOR_REPLACEMENT@))
}

fn to_plain(colors: &PlainPattern, value: &str) -> (r: String)
    requires
        colors@ == COLOR_PATTERN@,
    ensures
        r@ == plain(value@),
{
    let uncolored = replace_all(colors, value, COLOR_REPLACEMENT);
    trim(uncolored.as_str())
}

// ---------------------------------------------------------------------------------------------
// Files
// ---------------------------------------------------------------------------------------------

/// The value of a key: of several directives with that key, the last one counts.
pub open spec fn last_value(lines: Seq<Seq<char>>, key: Seq<char>) -> Option<Seq<char>>
    decreases lines.len(),
{
    if lines.len() == 0 {
        None
    } else {
        match directive(lines.last()) {
            Some((k, value)) if k == key => Some(value),
            _ => last_value(lines.drop_last(), key),
        }
    }
}

/// The number of a key: of several directives with that key and a number, the last one counts.
pub open spec fn last_number(lines: Seq<Seq<char>>, key: Seq<char>) -> Option<u32>
    decreases lines.len(),
{
    if lines.len() == 0 {
        None
    } else {
        match directive(lines.last()) {
            Some((k, value)) if k == key && number(value) is Some => number(value),
            _ => last_number(lines.drop_last(), key),
        }
    }
}

/// The keys that list the addons which have to be loaded first.
pub open spec fn lists_dependencies(key: Seq<char>) -> bool {
    key == "Dependencies"@ || key == "RequiredDeps"@
}

/// The names in all directives that list dependencies, in their order.
pub open spec fn all_listed(lines: Seq<Seq<char>>) -> Seq<Seq<char>>
    decreases lines.len(),
{
    if lines.len() == 0 {
        Seq::<Seq<char>>::empty()
    } else {
        let before = all_listed(lines.drop_last());
        match directive(lines.last()) {
            Some((k, value)) if lists_dependencies(k) => before + listed(value),
            _ => before,
        }
    }
}

/// A value without color marks, where there is one.
pub open spec fn opt_plain(value: Option<Seq<char>>) -> Option<Seq<char>> {
    match value {
        Some(v) => Some(plain(v)),
        None => None,
    }
}

/// A value without white space at its ends, where there is one.
pub open spec fn opt_trimmed(value: Option<Seq<char>>) -> Option<Seq<char>> {
    match value {
        Some(v) => Some(trimmed(v)),
        None => None,
    }
}

/// The addon that a TOC file describes. There is none without a title.
pub open spec fn described(
    id: Seq<char>,
    path: Seq<char>,
    lines: Seq<Seq<char>>,
) -> Option<AddonView> {
    match last_value(lines, "Title"@) {
        None => None,
        Some(title) => Some(
            AddonView {
                id,
                title: plain(title),
                author: opt_trimmed(last_value(lines, "Author"@)),
                notes: opt_plain(last_value(lines, "Notes"@)),
                version: opt_trimmed(last_value(lines, "Version"@)),
                path,
                dependencies: all_listed(lines),
                wowi_id: last_value(lines, "X-WoWI-ID"@),
                tukui_id: last_value(lines, "X-Tukui-ProjectID"@),
                curse_id: last_number(lines, "X-Curse-Project-ID"@),
                fingerprint: None,
            },
        ),
    }
}

/// What is known of an optional addon.
pub open spec fn opt_addon(addon: Option<Addon>) -> Option<AddonView> {
    match addon {
        Some(a) => Some(a@),
        None => None,
    }
}

/// The keys are all different.
proof fn lemma_keys()
    ensures
        "Title"@ != "Author"@,
        "Title"@ != "Notes"@,
        "Title"@ != "Version"@,
        "Title"@ != "X-WoWI-ID"@,
        "Title"@ != "X-Tukui-ProjectID"@,
        "Title"@ != "X-Curse-Project-ID"@,
        !lists_dependencies("Title"@),
        "Author"@ != "Notes"@,
        "Author"@ != "Version"@,
        "Author"@ != "X-WoWI-ID"@,
        "Author"@ != "X-Tukui-ProjectID"@,
        "Author"@ != "X-Curse-Project-ID"@,
        !lists_dependencies("Author"@),
        "Notes"@ != "Version"@,
        "Notes"@ != "X-WoWI-ID"@,
        "Notes"@ != "X-Tukui-ProjectID"@,
        "Notes"@ != "X-Curse-Project-ID"@,
        !lists_dependencies("Notes"@),
        "Version"@ != "X-WoWI-ID"@,
        "Version"@ != "X-Tukui-ProjectID"@,
        "Version"@ != "X-Curse-Project-ID"@,
        !lists_dependencies("Version"@),
        "X-WoWI-ID"@ != "X-Tukui-ProjectID"@,
        "X-WoWI-ID"@ != "X-Curse-Project-ID"@,
        !lists_dependencies("X-WoWI-ID"@),
        "X-Tukui-ProjectID"@ != "X-Curse-Project-ID"@,
        !lists_dependencies("X-Tukui-ProjectID"@),
        !lists_dependencies("X-Curse-Project-ID"@),
{
    reveal_strlit("Title");
    reveal_strlit("Author");
    reveal_strlit("Notes");
    reveal_strlit("Version");
    reveal_strlit("Dependencies");
    reveal_strlit("RequiredDeps");
    reveal_strlit("X-WoWI-ID");
    reveal_strlit("X-Tukui-ProjectID");
    reveal_strlit("X-Curse-Project-ID");
    assert("Title"@[0] != "Notes"@[0]);
    assert("Title"@.len() == 5 && "Author"@.len() == 6 && "Version"@.len() == 7);
    assert("X-WoWI-ID"@.len() == 9 && "X-Tukui-ProjectID"@.len() == 17);
    assert("X-Curse-Project-ID"@.len() == 18);
}

/// Reads the lines of the TOC file of the addon `id`, whose directory is `path`.
pub fn parse_toc_path(id: String, path: String, lines: &Vec<String>) -> (r: Option<Addon>)
    ensures
        opt_addon(r) == described(id@, path@, texts(lines@)),
{
    let colors = compile_plain(COLOR_PATTERN).unwrap();
    let mut title: Option<String> = None;
    let mut author: Option<String> = None;
    let mut notes: Option<String> = None;
    let mut version: Option<String> = None;
    let mut dependencies: Vec<String> = Vec::new();
    let mut wowi_id: Option<String> = None;
    let mut tukui_id: Option<String> = None;
    let mut curse_id: Option<u32> = None;
    let ghost all = texts(lines@);
    let mut i: usize = 0;
    while i < lines.len()
        invariant
            i <= lines@.len(),
            all == texts(lines@),
            colors@ == COLOR_PATTERN@,
            opt_text(title) == opt_plain(last_value(all.take(i as int), "Title"@)),
            opt_text(author) == opt_trimmed(last_value(all.take(i as int), "Author"@)),
            opt_text(notes) == opt_plain(last_value(all.take(i as int), "Notes"@)),
            opt_text(version) == opt_trimmed(last_value(all.take(i as int), "Version"@)),
            texts(dependencies@) == all_listed(all.take(i as int)),
            opt_text(wowi_id) == last_value(all.take(i as int), "X-WoWI-ID"@),
            opt_text(tukui_id) == last_value(all.take(i as int), "X-Tukui-ProjectID"@),
            curse_id == last_number(all.take(i as int), "X-Curse-Project-ID"@),
        decreases lines@.len() - i,
    {
        proof {
            lemma_keys();
            assert(all.take(i + 1).drop_last() == all.take(i as int));
            assert(all.take(i + 1).last() == lines@[i as int]@);
        }
        if let Some((key, value)) = read_directive(lines[i].as_str()) {
            if same(key.as_str(), "Title") {
                title = Some(to_plain(&colors, value.as_str()));
            } else if same(key.as_str(), "Author") {
                author = Some(trim(value.as_str()));
            } else if same(key.as_str(), "Notes") {
                notes = Some(to_plain(&colors, value.as_str()));
            } else if same(key.as_str(), "Version") {
                version = Some(trim(value.as_str()));
            } else if same(key.as_str(), "Dependencies") || same(key.as_str(), "RequiredDeps") {
                let mut names = split_dependencies_into_vec(value.as_str());
                let ghost before = dependencies@;
                let ghost added = names@;
                dependencies.append(&mut names);
                assert(texts(before + added) == texts(before) + texts(added));
            } else if same(key.as_str(), "X-Tukui-ProjectID") {
                tukui_id = Some(value);
            } else if same(key.as_str(), "X-WoWI-ID") {
                wowi_id = Some(value);
            } else if same(key.as_str(), "X-Curse-Project-ID") {
                if let Some(n) = parse_number(value.as_str()) {
                    curse_id = Some(n);
                }
            }
        }
        i = i + 1;
    }
    assert(all.take(all.len() as int) == all);
    match title {
        None => None,
        Some(title) => Some(
            Addon::new(
                id,
                title,
                author,
                notes,
                version,
                path,
                dependencies,
                wowi_id,
                tukui_id,
                curse_id,
            ),
        ),
    }
}

/// A line that is no directive, or one with a key that is not read here.
pub open spec fn is_left_alone(line: Seq<char>) -> bool {
    match directive(line) {
        None => true,
        Some((k, _)) => {
            &&& k != "Title"@
            &&& k != "Author"@
            &&& k != "Notes"@
            &&& k != "Version"@
            &&& k != "X-WoWI-ID"@
            &&& k != "X-Tukui-ProjectID"@
            &&& k != "X-Curse-Project-ID"@
            &&& !lists_dependencies(k)
        },
    }
}

proof fn lemma_value_skips(a: Seq<Seq<char>>, line: Seq<char>, b: Seq<Seq<char>>, key: Seq<char>)
    requires
        directive(line) matches Some((k, _)) ==> k != key,
    ensures
        last_value(a.push(line) + b, key) == last_value(a + b, key),
        last_number(a.push(line) + b, key) == last_number(a + b, key),
    decreases b.len(),
{
    if b.len() == 0 {
        assert(a.push(line) + b == a.push(line));
        assert(a + b == a);
        assert(a.push(line).drop_last() == a);
    } else {
        lemma_value_skips(a, line, b.drop_last(), key);
        assert((a.push(line) + b).drop_last() == a.push(line) + b.drop_last());
        assert((a + b).drop_last() == a + b.drop_last());
        assert((a.push(line) + b).last() == b.last());
        assert((a + b).last() == b.last());
    }
}

proof fn lemma_listed_skips(a: Seq<Seq<char>>, line: Seq<char>, b: Seq<Seq<char>>)
    requires
        directive(line) matches Some((k, _)) ==> !lists_dependencies(k),
    ensures
        all_listed(a.push(line) + b) == all_listed(a + b),
    decreases b.len(),
{
    if b.len() == 0 {
        assert(a.push(line) + b == a.push(line));
        assert(a + b == a);
        assert(a.push(line).drop_last() == a);
    } else {
        lemma_listed_skips(a, line, b.drop_last());
        assert((a.push(line) + b).drop_last() == a.push(line) + b.drop_last());
        assert((a + b).drop_last() == a + b.drop_last());
        assert((a.push(line) + b).last() == b.last());
        assert((a + b).last() == b.last());
    }
}

/// A line that is left alone can stand anywhere in the file without changing the addon.
pub proof fn law_other_lines_do_not_count(
    id: Seq<char>,
    path: Seq<char>,
    before: Seq<Seq<char>>,
    line: Seq<char>,
    after: Seq<Seq<char>>,
)
    requires
        is_left_alone(line),
    ensures
        described(id, path, before.push(line) + after) == described(id, path, before + after),
{
    lemma_value_skips(before, line, after, "Title"@);
    lemma_value_skips(before, line, after, "Author"@);
    lemma_value_skips(before, line, after, "Notes"@);
    lemma_value_skips(before, line, after, "Version"@);
    lemma_value_skips(before, line, after, "X-WoWI-ID"@);
    lemma_value_skips(before, line, after, "X-Tukui-ProjectID"@);
    lemma_value_skips(before, line, after, "X-Curse-Project-ID"@);
    lemma_listed_skips(before, line, after);
}

/// A file describes an addon exactly when one of its lines is a title.
pub proof fn law_title_makes_the_addon(id: Seq<char>, path: Seq<char>, lines: Seq<Seq<char>>)
    ensures
        described(id, path, lines) is Some <==> exists|i: int|
            0 <= i < lines.len() && (#[trigger] directive(lines[i]) matches Some((k, _)) && k
                == "Title"@),
    decreases lines.len(),
{
    if lines.len() > 0 {
        let rest = lines.drop_last();
        law_title_makes_the_addon(id, path, rest);
        if described(id, path, rest) is Some {
            let i = choose|i: int|
                0 <= i < rest.len() && (#[trigger] directive(rest[i]) matches Some((k, _)) && k
                    == "Title"@);
            assert(directive(lines[i]) == directive(rest[i]));
        }
        if described(id, path, lines) is Some && described(id, path, rest) is None {
            assert(directive(lines[lines.len() - 1]) is Some);
        }
        if exists|i: int|
            0 <= i < lines.len() && (#[trigger] directive(lines[i]) matches Some((k, _)) && k
                == "Title"@) {
            let i = choose|i: int|
                0 <= i < lines.len() && (#[trigger] directive(lines[i]) matches Some((k, _)) && k
                    == "Title"@);
            if i < rest.len() {
                assert(directive(rest[i]) == directive(lines[i]));
            }
        }
    }
}

/// A line is a directive exactly where it starts with two hashes and one white space, and a colon
/// follows in the same line. Its key stands before the first colon. Its value stands behind it, up to
/// the end of the line, without one white space before it.
pub proof fn law_directive(line: Seq<char>)
    ensures
        directive(line) is Some <==> line.len() > 3 && line[0] == '#' && line[1] == '#'
            && is_white_space(line[2]) && exists|c: int|
            3 <= c < line.len() && #[trigger] line[c] == ':' && (forall|i: int|
                3 <= i < c ==> #[trigger] line[i] != '\n'),
        directive(line) matches Some((key, value)) ==> {
            let c = 3 + key.len() as int;
            let from = c + 1 + (if c + 1 < line.len() && is_white_space(line[c + 1]) {
                1int
            } else {
                0int
            });
            &&& c < line.len()
            &&& key == line.subrange(3, c)
            &&& line[c] == ':'
            &&& !key.contains(':')
            &&& !key.contains('\n')
            &&& from + value.len() <= line.len()
            &&& value == line.subrange(from, from + value.len())
            &&& !value.contains('\n')
            &&& from + value.len() < line.len() ==> line[from + value.len()] == '\n'
        },
{
    if line.len() > 3 {
        let colon = first_at(line, ':', 3);
        law_first_at(line, ':', 3);
        law_first_at(line, '\n', 3);
        if exists|c: int|
            3 <= c < line.len() && #[trigger] line[c] == ':' && (forall|i: int|
                3 <= i < c ==> #[trigger] line[i] != '\n') {
            let c = choose|c: int|
                3 <= c < line.len() && #[trigger] line[c] == ':' && (forall|i: int|
                    3 <= i < c ==> #[trigger] line[i] != '\n');
            assert(colon <= c);
        }
        if let Some((key, value)) = directive(line) {
            let from = colon + 1 + (if colon + 1 < line.len() && is_white_space(line[colon + 1]) {
                1int
            } else {
                0int
            });
            law_first_at(line, '\n', from);
            assert(line[colon] == ':');
            assert forall|i: int| 0 <= i < key.len() implies key[i] != ':' && key[i] != '\n' by {
                assert(key[i] == line[3 + i]);
            }
            assert forall|i: int| 0 <= i < value.len() implies value[i] != '\n' by {
                assert(value[i] == line[from + i]);
            }
        }
    }
}

/// A directive that is written is read: `## Key: value`.
pub proof fn law_written_directive_is_read(key: Seq<char>, value: Seq<char>)
    requires
        !key.contains(':'),
        !key.contains('\n'),
        !value.contains('\n'),
    ensures
        directive("## "@ + key + ": "@ + value) == Some((key, value)),
{
    reveal_strlit("## ");
    reveal_strlit(": ");
    let line = "## "@ + key + ": "@ + value;
    let c = 3 + key.len() as int;
    assert(line[0] == '#' && line[1] == '#' && line[2] == ' ');
    assert(line[c] == ':' && line[c + 1] == ' ');
    assert forall|i: int| 3 <= i < c implies line[i] != ':' && line[i] != '\n' by {
        assert(line[i] == key[i - 3]);
        assert(key.contains(key[i - 3]));
    }
    assert forall|i: int| c + 2 <= i < line.len() implies line[i] != '\n' by {
        assert(line[i] == value[i - c - 2]);
        assert(value.contains(value[i - c - 2]));
    }
    law_first_at(line, ':', 3);
    law_first_at(line, '\n', 3);
    law_first_at(line, '\n', c + 2);
    assert(first_at(line, ':', 3) == c);
    assert(line.subrange(3, c) == key);
    assert(line.subrange(c + 2, line.len() as int) == value);
}

/// The names of a text that is known to hold at least one, be it an empty one.
pub open spec fn listed_or_blank(value: Seq<char>) -> Seq<Seq<char>> {
    if value.len() == 0 {
        seq![Seq::<char>::empty()]
    } else {
        listed(value)
    }
}

/// Every comma, and nothing but a comma, parts the names of a list; each name is trimmed. No text
/// holds no name.
pub proof fn law_names_are_parted_by_commas(a: Seq<char>, b: Seq<char>)
    ensures
        a.len() == 0 ==> listed(a).len() == 0,
        a.len() > 0 && !a.contains(',') ==> listed(a) == seq![trimmed(a)],
        listed(a.push(',') + b) == listed_or_blank(a) + listed_or_blank(b),
{
    let comma = seq![','];
    assert(comma[0] == ',');
    assert(comma.contains(','));
    law_separator_parts(a, ',', b, comma);
    assert forall|i: int| 0 <= i < a.len() && !a.contains(',') implies !comma.contains(
        #[trigger] a[i],
    ) by {
        assert(a.contains(a[i]));
    }
    let f = |name: Seq<char>| trimmed(name);
    if a.len() > 0 && !a.contains(',') {
        assert(seq![a].map_values(f) == seq![trimmed(a)]);
    }
    let none = Seq::<char>::empty();
    assert(seq![none].map_values(f) == seq![none]);
    assert(a.len() == 0 ==> a == none);
    assert(b.len() == 0 ==> b == none);
    assert(pieces(none, comma) == seq![none]);
    assert(pieces(a, comma).map_values(f) == listed_or_blank(a));
    assert(pieces(b, comma).map_values(f) == listed_or_blank(b));
    assert((pieces(a, comma) + pieces(b, comma)).map_values(f) == pieces(a, comma).map_values(f)
        + pieces(b, comma).map_values(f));
}

/// Only the lines `Dependencies` and `RequiredDeps` list dependencies, and each of them adds its names
/// behind those of the lines before it.
pub proof fn law_dependencies_of_lines(lines: Seq<Seq<char>>, line: Seq<char>)
    ensures
        all_listed(Seq::<Seq<char>>::empty()).len() == 0,
        match directive(line) {
            None => all_listed(lines.push(line)) == all_listed(lines),
            Some((key, value)) => if key == "Dependencies"@ || key == "RequiredDeps"@ {
                all_listed(lines.push(line)) == all_listed(lines) + listed(value)
            } else {
                all_listed(lines.push(line)) == all_listed(lines)
            },
        },
{
    assert(lines.push(line).drop_last() == lines);
}

/// What one more line makes of an addon that has its title already: it sets the one field that its
/// key names, and no other. A line that is no directive, or one with another key, changes nothing.
pub proof fn law_line_sets_its_field(
    id: Seq<char>,
    path: Seq<char>,
    lines: Seq<Seq<char>>,
    line: Seq<char>,
)
    requires
        described(id, path, lines) is Some,
    ensures
        ({
            let before = described(id, path, lines)->0;
            described(id, path, lines.push(line)) == Some(
                match directive(line) {
                    None => before,
                    Some((key, value)) => {
                        let plain = trimmed(
                            plain_replace_all("\\|[a-fA-F\\d]{9}([^|]+)\\|r?"@, value, "$1"@),
                        );
                        if key == "Title"@ {
                            AddonView { title: plain, ..before }
                        } else if key == "Author"@ {
                            AddonView { author: Some(trimmed(value)), ..before }
                        } else if key == "Notes"@ {
                            AddonView { notes: Some(plain), ..before }
                        } else if key == "Version"@ {
                            AddonView { version: Some(trimmed(value)), ..before }
                        } else if key == "Dependencies"@ || key == "RequiredDeps"@ {
                            AddonView {
                                dependencies: before.dependencies + listed(value),
                                ..before
                            }
                        } else if key == "X-WoWI-ID"@ {
                            AddonView { wowi_id: Some(value), ..before }
                        } else if key == "X-Tukui-ProjectID"@ {
                            AddonView { tukui_id: Some(value), ..before }
                        } else if key == "X-Curse-Project-ID"@ && number(value) is Some {
                            AddonView { curse_id: number(value), ..before }
                        } else {
                            before
                        }
                    },
                },
            )
        }),
        ({
            let before = described(id, path, lines)->0;
            before.id == id && before.path == path && before.fingerprint is None
        }),
{
    lemma_keys();
    assert(lines.push(line).drop_last() == lines);
}

/// A file that starts with its title describes an addon of that title, of which nothing else is known.
pub proof fn law_title_alone(id: Seq<char>, path: Seq<char>, line: Seq<char>, title: Seq<char>)
    requires
        directive(line) == Some(("Title"@, title)),
    ensures
        described(id, path, Seq::<Seq<char>>::empty()) is None,
        described(id, path, seq![line]) == Some(
            AddonView {
                id,
                title: trimmed(
                    plain_replace_all("\\|[a-fA-F\\d]{9}([^|]+)\\|r?"@, title, "$1"@),
                ),
                author: None,
                notes: None,
                version: None,
                path,
                dependencies: Seq::<Seq<char>>::empty(),
                wowi_id: None,
                tukui_id: None,
                curse_id: None,
                fingerprint: None,
            },
        ),
{
    lemma_keys();
    let none = Seq::<Seq<char>>::empty();
    let lines = seq![line];
    assert(lines.drop_last() == none);
    assert(last_value(none, "Author"@) is None);
    assert(last_value(none, "Notes"@) is None);
    assert(last_value(none, "Version"@) is None);
    assert(last_value(none, "X-WoWI-ID"@) is None);
    assert(last_value(none, "X-Tukui-ProjectID"@) is None);
    assert(last_number(none, "X-Curse-Project-ID"@) is None);
    assert(all_listed(none) == none);
    assert(last_value(lines, "Title"@) == Some(title));
}

proof fn lemma_value_of_pair(
    a: Seq<Seq<char>>,
    x: Seq<char>,
    y: Seq<char>,
    b: Seq<Seq<char>>,
    key: Seq<char>,
)
    requires
        !(directive(x) matches Some((k, _)) && k == key) || !(directive(y) matches Some((k, _)) && k
            == key),
    ensures
        last_value(a.push(x).push(y) + b, key) == last_value(a.push(y).push(x) + b, key),
        last_number(a.push(x).push(y) + b, key) == last_number(a.push(y).push(x) + b, key),
    decreases b.len(),
{
    let xy = a.push(x).push(y);
    let yx = a.push(y).push(x);
    reveal_with_fuel(last_value, 3);
    reveal_with_fuel(last_number, 3);
    if b.len() == 0 {
        assert(xy + b == xy && yx + b == yx);
        assert(xy.drop_last() == a.push(x) && yx.drop_last() == a.push(y));
        assert(a.push(x).drop_last() == a && a.push(y).drop_last() == a);
    } else {
        lemma_value_of_pair(a, x, y, b.drop_last(), key);
        assert((xy + b).drop_last() == xy + b.drop_last() && (xy + b).last() == b.last());
        assert((yx + b).drop_last() == yx + b.drop_last() && (yx + b).last() == b.last());
    }
}

proof fn lemma_listed_of_pair(a: Seq<Seq<char>>, x: Seq<char>, y: Seq<char>, b: Seq<Seq<char>>)
    requires
        !(directive(x) matches Some((k, _)) && lists_dependencies(k)) || !(directive(y) matches Some(
            (k, _),
        ) && lists_dependencies(k)),
    ensures
        all_listed(a.push(x).push(y) + b) == all_listed(a.push(y).push(x) + b),
    decreases b.len(),
{
    let xy = a.push(x).push(y);
    let yx = a.push(y).push(x);
    reveal_with_fuel(all_listed, 3);
    if b.len() == 0 {
        assert(xy + b == xy && yx + b == yx);
        assert(xy.drop_last() == a.push(x) && yx.drop_last() == a.push(y));
        assert(a.push(x).drop_last() == a && a.push(y).drop_last() == a);
    } else {
        lemma_listed_of_pair(a, x, y, b.drop_last());
        assert((xy + b).drop_last() == xy + b.drop_last() && (xy + b).last() == b.last());
        assert((yx + b).drop_last() == yx + b.drop_last() && (yx + b).last() == b.last());
    }
}

/// The order of two neighbouring lines does not matter, unless both have the same key or both list
/// dependencies.
pub proof fn law_order_of_lines(
    id: Seq<char>,
    path: Seq<char>,
    before: Seq<Seq<char>>,
    x: Seq<char>,
    y: Seq<char>,
    after: Seq<Seq<char>>,
)
    requires
        directive(x) matches Some((j, _)) ==> (directive(y) matches Some((k, _)) ==> j != k && !((j
            == "Dependencies"@ || j == "RequiredDeps"@) && (k == "Dependencies"@ || k
            == "RequiredDeps"@))),
    ensures
        described(id, path, before.push(x).push(y) + after) == described(
            id,
            path,
            before.push(y).push(x) + after,
        ),
{
    lemma_value_of_pair(before, x, y, after, "Title"@);
    lemma_value_of_pair(before, x, y, after, "Author"@);
    lemma_value_of_pair(before, x, y, after, "Notes"@);
    lemma_value_of_pair(before, x, y, after, "Version"@);
    lemma_value_of_pair(before, x, y, after, "X-WoWI-ID"@);
    lemma_value_of_pair(before, x, y, after, "X-Tukui-ProjectID"@);
    lemma_value_of_pair(before, x, y, after, "X-Curse-Project-ID"@);
    lemma_listed_of_pair(before, x, y, after);
}

} // verus!
