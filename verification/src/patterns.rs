//! The patterns that say which files of an addon count for its fingerprint.

use vstd::prelude::*;

use crate::expressions::{has_self_reference, refers_to_itself};
use crate::regexes::{
    compile_fancy, compile_plain, fancy_compiles, plain_compiles, FancyPattern, PlainPattern,
};
use crate::sizes::{is_small, stays_small};
use crate::text::same;

verus! {

/// What is known about a game.
#[derive(Debug, PartialEq)]
pub struct GameInfo {
    /// Kinds of content; the first one is addons.
    pub category_sections: Vec<CategorySection>,
    /// How files are searched for further files.
    pub file_parsing_rules: Vec<FileParsingRule>,
}

/// Which files of a kind of content are looked at first.
#[derive(Debug, PartialEq)]
pub struct CategorySection {
    /// Files that are searched for further files.
    pub initial_inclusion_pattern: String,
    /// Files that count without being searched.
    pub extra_include_pattern: String,
}

/// How files with one extension are searched for further files.
#[derive(Debug, PartialEq)]
pub struct FileParsingRule {
    /// The extension, with its dot.
    pub file_extension: String,
    /// What a comment looks like.
    pub comment_strip_pattern: String,
    /// What a line that names a file looks like; its first group is the name.
    pub inclusion_pattern: String,
}

/// A [`FileParsingRule`], compiled.
pub struct FileRules {
    pub extension: String,
    pub comment_strip_regex: PlainPattern,
    pub inclusion_regex: FancyPattern,
}

/// The sources of the two patterns of a [`FileRules`].
#[verifier::ext_equal]
pub struct FileRulesView {
    pub comment_strip: Seq<char>,
    pub inclusion: Seq<char>,
}

impl View for FileRules {
    type V = FileRulesView;

    open spec fn view(&self) -> FileRulesView {
        FileRulesView { comment_strip: self.comment_strip_regex@, inclusion: self.inclusion_regex@ }
    }
}

/// All patterns, compiled. Of several rules for one extension the last one counts.
pub struct ParsingPatterns {
    pub initial_inclusion_regex: FancyPattern,
    pub extra_inclusion_regex: FancyPattern,
    pub file_parsing_regex: Vec<FileRules>,
}

/// The sources of the patterns of a [`ParsingPatterns`], the rules by their extension.
#[verifier::ext_equal]
pub struct PatternsView {
    pub initial_inclusion: Seq<char>,
    pub extra_inclusion: Seq<char>,
    pub rules: Map<Seq<char>, FileRulesView>,
}

/// Rules by their extension.
pub open spec fn rules_by_extension(rules: Seq<FileRules>) -> Map<Seq<char>, FileRulesView>
    decreases rules.len(),
{
    if rules.len() == 0 {
        Map::empty()
    } else {
        rules_by_extension(rules.drop_last()).insert(rules.last().extension@, rules.last()@)
    }
}

impl View for ParsingPatterns {
    type V = PatternsView;

    open spec fn view(&self) -> PatternsView {
        PatternsView {
            initial_inclusion: self.initial_inclusion_regex@,
            extra_inclusion: self.extra_inclusion_regex@,
            rules: rules_by_extension(self.file_parsing_regex@),
        }
    }
}

/// The first pattern that is not accepted.
#[derive(Debug, Clone, Copy, PartialEq, Eq)]
pub enum PatternError {
    Inclusion,
    ExtraInclusion,
    /// The comment pattern of the rule with this number.
    CommentStrip(usize),
    /// The inclusion pattern of the rule with this number.
    FileInclusion(usize),
}

/// The first rejected pattern of the rules from `from` on. Each rule tells whether its comment
/// pattern and whether its inclusion pattern was accepted.
pub open spec fn first_rejected_rule(rules: Seq<(bool, bool)>, from: int) -> Option<PatternError>
    decreases rules.len() - from,
{
    if from >= rules.len() {
        None
    } else if !rules[from].0 {
        Some(PatternError::CommentStrip(from as usize))
    } else if !rules[from].1 {
        Some(PatternError::FileInclusion(from as usize))
    } else {
        first_rejected_rule(rules, from + 1)
    }
}

/// The first rejected pattern, where it is known of each whether it was accepted.
pub open spec fn first_rejected(
    initial: bool,
    extra: bool,
    rules: Seq<(bool, bool)>,
) -> Option<PatternError> {
    if !initial {
        Some(PatternError::Inclusion)
    } else if !extra {
        Some(PatternError::ExtraInclusion)
    } else {
        first_rejected_rule(rules, 0)
    }
}

/// A [`FileParsingRule`] after the attempt to compile its patterns.
pub struct CompiledRule {
    pub extension: String,
    pub comment_strip: Option<PlainPattern>,
    pub inclusion: Option<FancyPattern>,
}

/// Which patterns of the rules were accepted.
pub open spec fn accepted(rules: Seq<CompiledRule>) -> Seq<(bool, bool)> {
    rules.map_values(|rule: CompiledRule| (rule.comment_strip is Some, rule.inclusion is Some))
}

/// Compiled rules by their extension.
pub open spec fn compiled_rules(rules: Seq<CompiledRule>) -> Map<Seq<char>, FileRulesView>
    decreases rules.len(),
{
    if rules.len() == 0 {
        Map::empty()
    } else {
        let rule = rules.last();
        compiled_rules(rules.drop_last()).insert(
            rule.extension@,
            FileRulesView { comment_strip: rule.comment_strip->0@, inclusion: rule.inclusion->0@ },
        )
    }
}

/// Puts compiled patterns together, or tells the first one that was rejected.
pub fn assemble_patterns(
    initial: Option<FancyPattern>,
    extra: Option<FancyPattern>,
    rules: Vec<CompiledRule>,
) -> (r: Result<ParsingPatterns, PatternError>)
    ensures
        match first_rejected(initial is Some, extra is Some, accepted(rules@)) {
            Some(bad) => r matches Err(e) && e == bad,
            None => r matches Ok(patterns) && patterns@ == (PatternsView {
                initial_inclusion: initial->0@,
                extra_inclusion: extra->0@,
                rules: compiled_rules(rules@),
            }),
        },
{
    let initial_inclusion_regex = match initial {
        Some(pattern) => pattern,
        None => {
            return Err(PatternError::Inclusion);
        },
    };
    let extra_inclusion_regex = match extra {
        Some(pattern) => pattern,
        None => {
            return Err(PatternError::ExtraInclusion);
        },
    };
    let ghost all = rules@;
    let count = rules.len();
    let mut kept: Vec<FileRules> = Vec::new();
    let mut i: usize = 0;
    for rule in it: rules
        invariant
            it.seq() == all,
            i == it.index(),
            all == rules@,
            all.len() == count,
            initial is Some,
            extra is Some,
            first_rejected_rule(accepted(all), i as int) == first_rejected_rule(accepted(all), 0),
            rules_by_extension(kept@) == compiled_rules(all.take(i as int)),
    {
        assert(rule == all[i as int]);
        assert(accepted(all)[i as int] == (rule.comment_strip is Some, rule.inclusion is Some));
        let comment_strip_regex = match rule.comment_strip {
            Some(pattern) => pattern,
            None => {
                return Err(PatternError::CommentStrip(i));
            },
        };
        let inclusion_regex = match rule.inclusion {
            Some(pattern) => pattern,
            None => {
                return Err(PatternError::FileInclusion(i));
            },
        };
        let ghost before = kept@;
        kept.push(FileRules { extension: rule.extension, comment_strip_regex, inclusion_regex });
        proof {
            assert(kept@.drop_last() == before);
            assert(all.take(i + 1).drop_last() == all.take(i as int));
        }
        i = i + 1;
    }
    assert(all.take(all.len() as int) == all);
    Ok(
        ParsingPatterns {
            initial_inclusion_regex,
            extra_inclusion_regex,
            file_parsing_regex: kept,
        },
    )
}

/// Whether the patterns of a game can be compiled or rejected: there is a section for addons, and
/// the patterns stay small.
pub open spec fn is_supported(info: GameInfo) -> bool {
    &&& info.category_sections@.len() > 0
    &&& is_small(info.category_sections@[0].initial_inclusion_pattern@)
    &&& is_small(info.category_sections@[0].extra_include_pattern@)
    &&& forall|i: int|
        0 <= i < info.file_parsing_rules@.len() ==> is_small(
            (#[trigger] info.file_parsing_rules@[i]).inclusion_pattern@,
        )
}

/// Tells whether the patterns of a game can be compiled or rejected.
pub fn supports(info: &GameInfo) -> (r: bool)
    ensures
        r == is_supported(*info),
{
    if info.category_sections.len() == 0 {
        return false;
    }
    let section = &info.category_sections[0];
    if !stays_small(section.initial_inclusion_pattern.as_str()) || !stays_small(
        section.extra_include_pattern.as_str(),
    ) {
        return false;
    }
    let mut i: usize = 0;
    while i < info.file_parsing_rules.len()
        invariant
            i <= info.file_parsing_rules@.len(),
            forall|j: int|
                0 <= j < i ==> is_small(
                    (#[trigger] info.file_parsing_rules@[j]).inclusion_pattern@,
                ),
        decreases info.file_parsing_rules@.len() - i,
    {
        if !stays_small(info.file_parsing_rules[i].inclusion_pattern.as_str()) {
            return false;
        }
        i = i + 1;
    }
    true
}

/// The first pattern of a game that is not accepted.
pub open spec fn first_bad_pattern(info: GameInfo) -> Option<PatternError> {
    first_rejected(
        fancy_compiles(info.category_sections@[0].initial_inclusion_pattern@),
        fancy_compiles(info.category_sections@[0].extra_include_pattern@),
        info.file_parsing_rules@.map_values(
            |rule: FileParsingRule|
                (
                    plain_compiles(rule.comment_strip_pattern@),
                    fancy_compiles(rule.inclusion_pattern@),
                ),
        ),
    )
}

/// The rules of a game by their extension.
pub open spec fn game_rules(rules: Seq<FileParsingRule>) -> Map<Seq<char>, FileRulesView>
    decreases rules.len(),
{
    if rules.len() == 0 {
        Map::empty()
    } else {
        let rule = rules.last();
        game_rules(rules.drop_last()).insert(
            rule.file_extension@,
            FileRulesView {
                comment_strip: rule.comment_strip_pattern@,
                inclusion: rule.inclusion_pattern@,
            },
        )
    }
}

/// The patterns of a game.
pub open spec fn game_patterns(info: GameInfo) -> PatternsView {
    PatternsView {
        initial_inclusion: info.category_sections@[0].initial_inclusion_pattern@,
        extra_inclusion: info.category_sections@[0].extra_include_pattern@,
        rules: game_rules(info.file_parsing_rules@),
    }
}

/// Whether a rule was compiled from a rule of the game.
spec fn compiled_from(rule: CompiledRule, source: FileParsingRule) -> bool {
    &&& rule.extension@ == source.file_extension@
    &&& rule.comment_strip is Some == plain_compiles(source.comment_strip_pattern@)
    &&& rule.inclusion is Some == fancy_compiles(source.inclusion_pattern@)
    &&& rule.comment_strip matches Some(p) ==> p@ == source.comment_strip_pattern@
    &&& rule.inclusion matches Some(p) ==> p@ == source.inclusion_pattern@
}

proof fn lemma_no_rejected_rule(rules: Seq<(bool, bool)>, from: int)
    requires
        0 <= from <= rules.len(),
        first_rejected_rule(rules, from) is None,
    ensures
        forall|i: int| from <= i < rules.len() ==> (#[trigger] rules[i]).0 && rules[i].1,
    decreases rules.len() - from,
{
    if from < rules.len() {
        lemma_no_rejected_rule(rules, from + 1);
    }
}

proof fn lemma_compiled_rules(rules: Seq<CompiledRule>, sources: Seq<FileParsingRule>)
    requires
        rules.len() == sources.len(),
        forall|i: int|
            0 <= i < rules.len() ==> #[trigger] compiled_from(rules[i], sources[i]),
        forall|i: int|
            0 <= i < rules.len() ==> (#[trigger] rules[i]).comment_strip is Some
                && rules[i].inclusion is Some,
    ensures
        compiled_rules(rules) == game_rules(sources),
    decreases rules.len(),
{
    if rules.len() > 0 {
        assert forall|i: int| 0 <= i < rules.drop_last().len() implies #[trigger] compiled_from(
            rules.drop_last()[i],
            sources.drop_last()[i],
        ) by {
            assert(compiled_from(rules[i], sources[i]));
        }
        lemma_compiled_rules(rules.drop_last(), sources.drop_last());
        assert(compiled_from(rules[rules.len() - 1], sources[rules.len() - 1]));
    }
}

/// Compiles the patterns of a game, up to the first bad one.
fn compile_patterns(info: &GameInfo) -> (r: Result<ParsingPatterns, PatternError>)
    requires
        is_supported(*info),
    ensures
        match first_bad_pattern(*info) {
            Some(bad) => r matches Err(e) && e == bad,
            None => r matches Ok(patterns) && patterns@ == game_patterns(*info),
        },
{
    let section = &info.category_sections[0];
    let initial = compile_fancy(section.initial_inclusion_pattern.as_str());
    let extra = compile_fancy(section.extra_include_pattern.as_str());
    let mut rules: Vec<CompiledRule> = Vec::new();
    let ghost sources = info.file_parsing_rules@;
    let mut i: usize = 0;
    while i < info.file_parsing_rules.len()
        invariant
            i <= sources.len(),
            sources == info.file_parsing_rules@,
            is_supported(*info),
            rules@.len() == i,
            forall|j: int| 0 <= j < i ==> #[trigger] compiled_from(rules@[j], sources[j]),
        decreases sources.len() - i,
    {
        let rule = &info.file_parsing_rules[i];
        rules.push(
            CompiledRule {
                extension: rule.file_extension.clone(),
                comment_strip: compile_plain(rule.comment_strip_pattern.as_str()),
                inclusion: compile_fancy(rule.inclusion_pattern.as_str()),
            },
        );
        i = i + 1;
    }
    proof {
        let flags = sources.map_values(
            |rule: FileParsingRule|
                (
                    plain_compiles(rule.comment_strip_pattern@),
                    fancy_compiles(rule.inclusion_pattern@),
                ),
        );
        assert forall|j: int| 0 <= j < flags.len() implies #[trigger] accepted(rules@)[j]
            == flags[j] by {
            assert(compiled_from(rules@[j], sources[j]));
        }
        assert(accepted(rules@) == flags);
        if first_bad_pattern(*info) is None {
            lemma_no_rejected_rule(flags, 0);
            assert forall|j: int| 0 <= j < rules@.len() implies (
            #[trigger] rules@[j]).comment_strip is Some && rules@[j].inclusion is Some by {
                assert(flags[j].0 && flags[j].1);
                assert(compiled_from(rules@[j], sources[j]));
            }
            lemma_compiled_rules(rules@, sources);
        }
    }
    assemble_patterns(initial, extra, rules)
}

/// Compiles the patterns of a game. All of them have to be good ones.
pub fn file_parsing_regex(info: &GameInfo) -> (r: ParsingPatterns)
    requires
        is_supported(*info),
        first_bad_pattern(*info) is None,
    ensures
        r@ == game_patterns(*info),
{
    compile_patterns(info).unwrap()
}

/// The first pattern of a game that is not accepted.
pub fn find_bad_pattern(info: &GameInfo) -> (r: Option<PatternError>)
    requires
        is_supported(*info),
    ensures
        r == first_bad_pattern(*info),
{
    match compile_patterns(info) {
        Ok(_) => None,
        Err(bad) => Some(bad),
    }
}

/// Compiles the patterns of a game where all of them are good ones; else the first bad one.
pub fn try_file_parsing_regex(info: &GameInfo) -> (r: Result<ParsingPatterns, PatternError>)
    requires
        is_supported(*info),
    ensures
        match first_bad_pattern(*info) {
            Some(bad) => r matches Err(e) && e == bad,
            None => r matches Ok(patterns) && patterns@ == game_patterns(*info),
        },
{
    match find_bad_pattern(info) {
        Some(bad) => Err(bad),
        None => Ok(file_parsing_regex(info)),
    }
}

/// Whether files can be matched: no pattern matches a group that refers back to itself a second time,
/// further on.
pub open spec fn is_matchable(patterns: PatternsView) -> bool {
    &&& !refers_to_itself(patterns.initial_inclusion)
    &&& !refers_to_itself(patterns.extra_inclusion)
    &&& forall|extension: Seq<char>|
        patterns.rules.contains_key(extension) ==> !refers_to_itself(
            (#[trigger] patterns.rules[extension]).inclusion,
        )
}

proof fn lemma_rules_have_extensions(rules: Seq<FileRules>, extension: Seq<char>)
    ensures
        rules_by_extension(rules).contains_key(extension) <==> exists|i: int|
            0 <= i < rules.len() && (#[trigger] rules[i]).extension@ == extension,
    decreases rules.len(),
{
    if rules.len() > 0 {
        let shorter = rules.drop_last();
        lemma_rules_have_extensions(shorter, extension);
        if exists|i: int| 0 <= i < shorter.len() && (#[trigger] shorter[i]).extension@ == extension {
            let i = choose|i: int|
                0 <= i < shorter.len() && (#[trigger] shorter[i]).extension@ == extension;
            assert(rules[i].extension@ == extension);
        }
        if rules.last().extension@ == extension {
            assert(rules[rules.len() - 1].extension@ == extension);
        }
        if exists|i: int| 0 <= i < rules.len() && (#[trigger] rules[i]).extension@ == extension {
            let i = choose|i: int|
                0 <= i < rules.len() && (#[trigger] rules[i]).extension@ == extension;
            if i < shorter.len() {
                assert(shorter[i].extension@ == extension);
            }
        }
    }
}

impl ParsingPatterns {
    /// Tells whether files can be matched.
    pub fn can_match(&self) -> (r: bool)
        ensures
            r == is_matchable(self@),
    {
        if has_self_reference(self.initial_inclusion_regex.source()) || has_self_reference(
            self.extra_inclusion_regex.source(),
        ) {
            return false;
        }
        let ghost rules = self.file_parsing_regex@;
        let mut i: usize = 0;
        while i < self.file_parsing_regex.len()
            invariant
                i <= rules.len(),
                rules == self.file_parsing_regex@,
                forall|j: int|
                    0 <= j < i ==> !refers_to_itself(
                        self@.rules[(#[trigger] rules[j]).extension@].inclusion,
                    ),
            decreases rules.len() - i,
        {
            proof {
                lemma_rules_have_extensions(rules, rules[i as int].extension@);
            }
            if let Some(counted) = self.rules_for(self.file_parsing_regex[i].extension.as_str()) {
                if has_self_reference(counted.inclusion_regex.source()) {
                    assert(refers_to_itself(self@.rules[rules[i as int].extension@].inclusion));
                    return false;
                }
            }
            i = i + 1;
        }
        assert forall|extension: Seq<char>|
            self@.rules.contains_key(extension) implies !refers_to_itself(
            (#[trigger] self@.rules[extension]).inclusion,
        ) by {
            lemma_rules_have_extensions(rules, extension);
            let j = choose|j: int|
                0 <= j < rules.len() && (#[trigger] rules[j]).extension@ == extension;
            assert(rules[j].extension@ == extension);
        }
        true
    }

    /// The rules for an extension, given with its dot.
    pub fn rules_for(&self, extension: &str) -> (r: Option<&FileRules>)
        ensures
            match r {
                Some(rules) => self@.rules.contains_key(extension@) && self@.rules[extension@]
                    == rules@,
                None => !self@.rules.contains_key(extension@),
            },
    {
        let ghost all = self.file_parsing_regex@;
        let mut i: usize = self.file_parsing_regex.len();
        assert(all.take(i as int) == all);
        while i > 0
            invariant
                i <= all.len(),
                all == self.file_parsing_regex@,
                rules_by_extension(all.take(i as int)).contains_key(extension@)
                    == self@.rules.contains_key(extension@),
                self@.rules.contains_key(extension@) ==> self@.rules[extension@]
                    == rules_by_extension(all.take(i as int))[extension@],
            decreases i,
        {
            assert(all.take(i as int).drop_last() == all.take(i - 1));
            i = i - 1;
            if same(self.file_parsing_regex[i].extension.as_str(), extension) {
                return Some(&self.file_parsing_regex[i]);
            }
        }
        None
    }
}

/// The last rule for an extension.
pub open spec fn last_rule_for(rules: Seq<FileParsingRule>, extension: Seq<char>) -> Option<
    FileParsingRule,
>
    decreases rules.len(),
{
    if rules.len() == 0 {
        None
    } else if rules.last().file_extension@ == extension {
        Some(rules.last())
    } else {
        last_rule_for(rules.drop_last(), extension)
    }
}

/// A file is searched exactly when there is a rule for its extension, and by the last such rule.
pub proof fn law_last_rule_counts(rules: Seq<FileParsingRule>, extension: Seq<char>)
    ensures
        match last_rule_for(rules, extension) {
            None => !game_rules(rules).contains_key(extension),
            Some(rule) => game_rules(rules).contains_key(extension) && game_rules(rules)[extension]
                == (FileRulesView {
                comment_strip: rule.comment_strip_pattern@,
                inclusion: rule.inclusion_pattern@,
            }),
        },
    decreases rules.len(),
{
    if rules.len() > 0 {
        law_last_rule_counts(rules.drop_last(), extension);
    }
}

/// A rule is the one for its extension where no later rule has that extension; without a rule an
/// extension is not searched.
pub proof fn law_rule_of_extension(rules: Seq<FileParsingRule>, extension: Seq<char>)
    ensures
        forall|i: int|
            0 <= i < rules.len() && (#[trigger] rules[i]).file_extension@ == extension && (forall|
                j: int,
            |
                i < j < rules.len() ==> (#[trigger] rules[j]).file_extension@ != extension)
                ==> game_rules(rules).contains_key(extension)
                && game_rules(rules)[extension].comment_strip == rules[i].comment_strip_pattern@
                && game_rules(rules)[extension].inclusion == rules[i].inclusion_pattern@,
        (forall|i: int| 0 <= i < rules.len() ==> (#[trigger] rules[i]).file_extension@ != extension)
            ==> !game_rules(rules).contains_key(extension),
    decreases rules.len(),
{
    if rules.len() > 0 {
        let less = rules.drop_last();
        law_rule_of_extension(less, extension);
        assert forall|i: int|
            0 <= i < rules.len() && (#[trigger] rules[i]).file_extension@ == extension && (forall|
                j: int,
            |
                i < j < rules.len() ==> (#[trigger] rules[j]).file_extension@
                    != extension) implies game_rules(rules).contains_key(extension) && game_rules(
            rules,
        )[extension].comment_strip == rules[i].comment_strip_pattern@ && game_rules(
            rules,
        )[extension].inclusion == rules[i].inclusion_pattern@ by {
            if i < less.len() {
                assert(less[i] == rules[i]);
                assert forall|j: int| i < j < less.len() implies (
                #[trigger] less[j]).file_extension@ != extension by {
                    assert(rules[j].file_extension@ != extension);
                }
                assert(rules[rules.len() - 1].file_extension@ != extension);
            }
        }
        if forall|i: int| 0 <= i < rules.len() ==> (#[trigger] rules[i]).file_extension@ != extension {
            assert forall|i: int| 0 <= i < less.len() implies (#[trigger] less[i]).file_extension@
                != extension by {
                assert(rules[i].file_extension@ != extension);
            }
            assert(rules[rules.len() - 1].file_extension@ != extension);
        }
    }
}

/// The patterns of a game are those of its first section.
pub proof fn law_first_section_counts(info: GameInfo)
    requires
        info.category_sections@.len() > 0,
    ensures
        game_patterns(info).initial_inclusion
            == info.category_sections@.first().initial_inclusion_pattern@,
        game_patterns(info).extra_inclusion
            == info.category_sections@.first().extra_include_pattern@,
        game_patterns(info).rules == game_rules(info.file_parsing_rules@),
{
}

proof fn lemma_first_rejected_rule(rules: Seq<(bool, bool)>, from: int)
    requires
        0 <= from <= rules.len() <= usize::MAX,
    ensures
        match first_rejected_rule(rules, from) {
            None => forall|i: int| from <= i < rules.len() ==> (#[trigger] rules[i]).0 && rules[i].1,
            Some(PatternError::CommentStrip(k)) => from <= k < rules.len() && !rules[k as int].0 && (
            forall|i: int| from <= i < k ==> (#[trigger] rules[i]).0 && rules[i].1),
            Some(PatternError::FileInclusion(k)) => from <= k < rules.len() && rules[k as int].0
                && !rules[k as int].1 && (forall|i: int|
                from <= i < k ==> (#[trigger] rules[i]).0 && rules[i].1),
            _ => false,
        },
    decreases rules.len() - from,
{
    if from < rules.len() {
        lemma_first_rejected_rule(rules, from + 1);
    }
}

/// The bad pattern that is told is the first one: every pattern before it is accepted. None is told
/// exactly where all are accepted. The patterns come in this order: the two of the section, then the
/// comment pattern and the inclusion pattern of each rule.
pub proof fn law_first_bad_pattern(info: GameInfo)
    requires
        info.category_sections@.len() > 0,
    ensures
        ({
            let initial = fancy_compiles(info.category_sections@[0].initial_inclusion_pattern@);
            let extra = fancy_compiles(info.category_sections@[0].extra_include_pattern@);
            let rules = info.file_parsing_rules@;
            match first_bad_pattern(info) {
                None => initial && extra && (forall|i: int|
                    0 <= i < rules.len() ==> plain_compiles(
                        (#[trigger] rules[i]).comment_strip_pattern@,
                    ) && fancy_compiles(rules[i].inclusion_pattern@)),
                Some(PatternError::Inclusion) => !initial,
                Some(PatternError::ExtraInclusion) => initial && !extra,
                Some(PatternError::CommentStrip(k)) => initial && extra && k < rules.len()
                    && !plain_compiles(rules[k as int].comment_strip_pattern@) && (forall|i: int|
                    0 <= i < k ==> plain_compiles((#[trigger] rules[i]).comment_strip_pattern@)
                        && fancy_compiles(rules[i].inclusion_pattern@)),
                Some(PatternError::FileInclusion(k)) => initial && extra && k < rules.len()
                    && plain_compiles(rules[k as int].comment_strip_pattern@) && !fancy_compiles(
                    rules[k as int].inclusion_pattern@,
                ) && (forall|i: int|
                    0 <= i < k ==> plain_compiles((#[trigger] rules[i]).comment_strip_pattern@)
                        && fancy_compiles(rules[i].inclusion_pattern@)),
            }
        }),
{
    let rules = info.file_parsing_rules@;
    let flags = rules.map_values(
        |rule: FileParsingRule|
            (plain_compiles(rule.comment_strip_pattern@), fancy_compiles(rule.inclusion_pattern@)),
    );
    assert(info.file_parsing_rules.len() == rules.len());
    lemma_first_rejected_rule(flags, 0);
    assert forall|i: int| 0 <= i < rules.len() implies flags[i] == (
        plain_compiles((#[trigger] rules[i]).comment_strip_pattern@),
        fancy_compiles(rules[i].inclusion_pattern@),
    ) by {}
}

/// A game is supported exactly where it has a section and the first section's two patterns and the
/// inclusion patterns of all rules stay small; the number of its rules and its other sections do not
/// matter.
pub proof fn law_supported(info: GameInfo)
    ensures
        is_supported(info) <==> info.category_sections@.len() > 0 && is_small(
            info.category_sections@.first().initial_inclusion_pattern@,
        ) && is_small(info.category_sections@.first().extra_include_pattern@) && forall|i: int|
            0 <= i < info.file_parsing_rules@.len() ==> is_small(
                (#[trigger] info.file_parsing_rules@[i]).inclusion_pattern@,
            ),
{
}

/// Files can be matched exactly where none of the patterns that are matched, those of the rules that
/// count among them, matches a self-referring group again further on.
pub proof fn law_matchable(info: GameInfo)
    requires
        info.category_sections@.len() > 0,
    ensures
        is_matchable(game_patterns(info)) <==> !refers_to_itself(
            info.category_sections@.first().initial_inclusion_pattern@,
        ) && !refers_to_itself(info.category_sections@.first().extra_include_pattern@) && forall|
            extension: Seq<char>,
        |
            (#[trigger] last_rule_for(info.file_parsing_rules@, extension) matches Some(rule))
                ==> !refers_to_itself(
                last_rule_for(info.file_parsing_rules@, extension)->0.inclusion_pattern@,
            ),
{
    let rules = info.file_parsing_rules@;
    let patterns = game_patterns(info);
    assert forall|extension: Seq<char>|
        patterns.rules.contains_key(extension) == (
        #[trigger] last_rule_for(rules, extension) is Some) && (patterns.rules.contains_key(extension)
            ==> patterns.rules[extension].inclusion == last_rule_for(
            rules,
            extension,
        )->0.inclusion_pattern@) by {
        law_last_rule_counts(rules, extension);
    }
    if is_matchable(patterns) {
        assert forall|extension: Seq<char>|
            (#[trigger] last_rule_for(rules, extension) matches Some(rule)) implies !refers_to_itself(
            last_rule_for(rules, extension)->0.inclusion_pattern@,
        ) by {
            assert(!refers_to_itself(patterns.rules[extension].inclusion));
        }
    }
    if !refers_to_itself(patterns.initial_inclusion) && !refers_to_itself(patterns.extra_inclusion)
        && forall|extension: Seq<char>|
        (#[trigger] last_rule_for(rules, extension) matches Some(rule)) ==> !refers_to_itself(
            last_rule_for(rules, extension)->0.inclusion_pattern@,
        ) {
        assert forall|extension: Seq<char>| patterns.rules.contains_key(
            extension,
        ) implies !refers_to_itself((#[trigger] patterns.rules[extension]).inclusion) by {
            assert(last_rule_for(rules, extension) is Some);
        }
    }
}

} // verus!
