//! Which files of an addon directory count for its fingerprint.
//!
//! A [`DirScan`] starts from the files that lie in the directory. It then asks for one thing after
//! the other (the extension of a file, its text, the files behind the names that it found) until
//! it knows every file that counts.

use std::collections::VecDeque;
use vstd::prelude::*;

use crate::expressions::refers_to_itself;
use crate::includes::{included_paths, named_in_text, SearchEnd};
use crate::patterns::{is_matchable, FileRules, FileRulesView, ParsingPatterns, PatternsView};
use crate::regexes::{fancy_is_match, is_match};
use crate::text::{copy_texts, law_lower, lowered, replace, replaced, same, texts, to_lower};

verus! {

// ---------------------------------------------------------------------------------------------
// The files that lie in the directory
// ---------------------------------------------------------------------------------------------

/// The pattern that lists every file with a dot in its name below a directory.
pub open spec fn pattern_below(dir: Seq<char>) -> Seq<char> {
    dir + "/**/*.*"@
}

/// The pattern that lists every file with a dot in its name below a directory.
pub fn files_below(dir: &str) -> (r: String)
    ensures
        r@ == dir@ + "/**/*.*"@,
        r@ == pattern_below(dir@),
{
    let mut r = dir.to_owned();
    r.append("/**/*.*");
    r
}

/// What a file is to a scan.
#[derive(Debug, Clone, Copy, PartialEq, Eq)]
pub enum FileClass {
    /// It counts and is searched for further files.
    Searched,
    /// It counts.
    Counted,
    /// It does not count by itself.
    Skipped,
}

/// The class of a file by the answers of the two inclusion patterns. The second pattern is asked
/// only where the first one does not match.
pub open spec fn class_by_answers(initial: Option<bool>, extra: Option<bool>) -> Option<FileClass> {
    match initial {
        None => None,
        Some(true) => Some(FileClass::Searched),
        Some(false) => match extra {
            None => None,
            Some(true) => Some(FileClass::Counted),
            Some(false) => Some(FileClass::Skipped),
        },
    }
}

/// The class of a file by the answers of the two inclusion patterns.
pub fn classify(initial: Option<bool>, extra: Option<bool>) -> (r: Option<FileClass>)
    ensures
        r == class_by_answers(initial, extra),
{
    match initial {
        None => None,
        Some(true) => Some(FileClass::Searched),
        Some(false) => match extra {
            None => None,
            Some(true) => Some(FileClass::Counted),
            Some(false) => Some(FileClass::Skipped),
        },
    }
}

/// A path as the inclusion patterns see it: small letters, backslashes between its parts.
pub open spec fn windows_path(relative: Seq<char>) -> Seq<char> {
    replaced(lowered(relative), '/', '\\')
}

/// The class of a file, given its path from the directory above the addon; `None` where a pattern
/// gave an error.
pub open spec fn class_of(patterns: PatternsView, relative: Seq<char>) -> Option<FileClass> {
    class_by_answers(
        fancy_is_match(patterns.initial_inclusion, windows_path(relative)),
        fancy_is_match(patterns.extra_inclusion, windows_path(relative)),
    )
}

/// The class of a file, given its path from the directory above the addon.
pub fn file_class(patterns: &ParsingPatterns, relative: &str) -> (r: Option<FileClass>)
    requires
        is_matchable(patterns@),
    ensures
        r == class_of(patterns@, relative@),
{
    let small = to_lower(relative);
    let path = replace(small.as_str(), '/', '\\');
    match is_match(&patterns.initial_inclusion_regex, path.as_str()) {
        Some(false) => classify(
            Some(false),
            is_match(&patterns.extra_inclusion_regex, path.as_str()),
        ),
        initial => classify(initial, None),
    }
}

/// A file below the directory.
#[derive(Debug, PartialEq)]
pub struct FoundFile {
    /// The path under which the file is known.
    pub path: String,
    /// The path from the directory above the addon; `None` where it is no text.
    pub relative: Option<String>,
}

/// The class of a found file.
pub open spec fn found_class(patterns: PatternsView, file: FoundFile) -> Option<FileClass> {
    match file.relative {
        None => None,
        Some(relative) => class_of(patterns, relative@),
    }
}

// ---------------------------------------------------------------------------------------------
// States, events and actions
// ---------------------------------------------------------------------------------------------

/// What a scan waits for.
pub enum Stage<'a> {
    /// The start.
    Ready,
    /// The extension of this file.
    Extension(String),
    /// The text of this file, which is searched by these rules.
    Text(String, &'a FileRules),
    /// The files behind the names that were found. The flag tells that the same file would be found
    /// without end.
    Found(bool),
    /// Nothing more.
    Over,
}

/// What a scan is told.
#[derive(Debug, PartialEq)]
pub enum ScanEvent {
    Start,
    /// The extension, without its dot, where there is one.
    Extension(Option<String>),
    Text(String),
    /// The files behind all names, in their order; `None` where one of them does not exist.
    Found(Option<Vec<String>>),
}

/// What a scan asks for.
#[derive(Debug, PartialEq)]
pub enum ScanAction {
    /// The extension of a file.
    TellExtension(String),
    /// The text of a file.
    ReadText(String),
    /// The files that a file names.
    FindFiles(String, Vec<String>),
    /// The fingerprint of these files: the scan is over.
    Hash(Vec<String>),
    /// The directory has no fingerprint.
    GiveUp,
    /// The search of a file does not end.
    Endless,
}

pub enum StageView {
    Ready,
    Extension(Seq<char>),
    Text(Seq<char>, FileRulesView),
    Found(bool),
    Over,
}

pub enum EventView {
    Start,
    Extension(Option<Seq<char>>),
    Text(Seq<char>),
    Found(Option<Seq<Seq<char>>>),
}

pub enum ActionView {
    TellExtension(Seq<char>),
    ReadText(Seq<char>),
    FindFiles(Seq<char>, Seq<Seq<char>>),
    Hash(Seq<Seq<char>>),
    GiveUp,
    Endless,
}

impl<'a> View for Stage<'a> {
    type V = StageView;

    open spec fn view(&self) -> StageView {
        match *self {
            Stage::Ready => StageView::Ready,
            Stage::Extension(path) => StageView::Extension(path@),
            Stage::Text(path, rules) => StageView::Text(path@, rules@),
            Stage::Found(endless) => StageView::Found(endless),
            Stage::Over => StageView::Over,
        }
    }
}

impl View for ScanEvent {
    type V = EventView;

    open spec fn view(&self) -> EventView {
        match *self {
            ScanEvent::Start => EventView::Start,
            ScanEvent::Extension(None) => EventView::Extension(None),
            ScanEvent::Extension(Some(extension)) => EventView::Extension(Some(extension@)),
            ScanEvent::Text(text) => EventView::Text(text@),
            ScanEvent::Found(None) => EventView::Found(None),
            ScanEvent::Found(Some(paths)) => EventView::Found(Some(texts(paths@))),
        }
    }
}

impl View for ScanAction {
    type V = ActionView;

    open spec fn view(&self) -> ActionView {
        match *self {
            ScanAction::TellExtension(path) => ActionView::TellExtension(path@),
            ScanAction::ReadText(path) => ActionView::ReadText(path@),
            ScanAction::FindFiles(path, names) => ActionView::FindFiles(path@, texts(names@)),
            ScanAction::Hash(paths) => ActionView::Hash(texts(paths@)),
            ScanAction::GiveUp => ActionView::GiveUp,
            ScanAction::Endless => ActionView::Endless,
        }
    }
}

/// The state of a scan.
pub struct DirScan<'a> {
    patterns: &'a ParsingPatterns,
    counted: Vec<String>,
    queue: VecDeque<String>,
    stage: Stage<'a>,
}

/// What a [`DirScan`] knows.
pub struct ScanState {
    /// The files that count, each once.
    pub counted: Seq<Seq<char>>,
    /// The files that are still to be searched.
    pub queue: Seq<Seq<char>>,
    pub stage: StageView,
}

/// A scan goes by patterns that can match, and searches a text by one of them.
pub open spec fn is_sound_scan(patterns: PatternsView, s: ScanState) -> bool {
    &&& is_matchable(patterns)
    &&& s.stage matches StageView::Text(_, rules) ==> !refers_to_itself(rules.inclusion)
}

/// A list with one more item, unless it is there already.
pub open spec fn with_item(list: Seq<Seq<char>>, item: Seq<char>) -> Seq<Seq<char>> {
    if list.contains(item) {
        list
    } else {
        list.push(item)
    }
}

/// The state before the first event: files that are searched wait in the queue, files that only
/// count are counted. There is none where a file has no class.
pub open spec fn initial_state(patterns: PatternsView, files: Seq<FoundFile>) -> Option<ScanState>
    decreases files.len(),
{
    if files.len() == 0 {
        Some(
            ScanState {
                counted: Seq::<Seq<char>>::empty(),
                queue: Seq::<Seq<char>>::empty(),
                stage: StageView::Ready,
            },
        )
    } else {
        let file = files.last();
        match (initial_state(patterns, files.drop_last()), found_class(patterns, file)) {
            (Some(s), Some(FileClass::Searched)) => Some(
                ScanState { queue: s.queue.push(file.path@), ..s },
            ),
            (Some(s), Some(FileClass::Counted)) => Some(
                ScanState { counted: with_item(s.counted, file.path@), ..s },
            ),
            (Some(s), Some(FileClass::Skipped)) => Some(s),
            _ => None,
        }
    }
}

/// Turns to the next file of the queue. It counts, and its extension is asked for. With an empty
/// queue the scan is over.
pub open spec fn advanced(s: ScanState) -> (ScanState, ActionView) {
    if s.queue.len() == 0 {
        (ScanState { stage: StageView::Over, ..s }, ActionView::Hash(s.counted))
    } else {
        let path = s.queue.first();
        (
            ScanState {
                counted: with_item(s.counted, path),
                queue: s.queue.drop_first(),
                stage: StageView::Extension(path),
            },
            ActionView::TellExtension(path),
        )
    }
}

/// The end of a scan without a fingerprint.
pub open spec fn stopped(s: ScanState, action: ActionView) -> (ScanState, ActionView) {
    (ScanState { stage: StageView::Over, ..s }, action)
}

/// Whether an event is what a scan waits for.
pub open spec fn fits(stage: StageView, event: EventView) -> bool {
    match (stage, event) {
        (StageView::Ready, EventView::Start) => true,
        (StageView::Extension(_), EventView::Extension(_)) => true,
        (StageView::Text(_, _), EventView::Text(_)) => true,
        (StageView::Found(_), EventView::Found(_)) => true,
        _ => false,
    }
}

/// One step of a scan.
pub open spec fn stepped(patterns: PatternsView, s: ScanState, event: EventView) -> (
    ScanState,
    ActionView,
) {
    match (s.stage, event) {
        (StageView::Ready, EventView::Start) => advanced(s),
        (StageView::Extension(path), EventView::Extension(Some(extension))) => {
            let key = "."@ + extension;
            if patterns.rules.contains_key(key) {
                (
                    ScanState { stage: StageView::Text(path, patterns.rules[key]), ..s },
                    ActionView::ReadText(path),
                )
            } else {
                advanced(s)
            }
        },
        (StageView::Text(path, rules), EventView::Text(text)) => {
            let search = named_in_text(rules, text);
            if search.end is Failed {
                stopped(s, ActionView::GiveUp)
            } else {
                (
                    ScanState { stage: StageView::Found(search.end is Endless), ..s },
                    ActionView::FindFiles(path, search.names),
                )
            }
        },
        (StageView::Found(endless), EventView::Found(Some(paths))) => {
            let longer = ScanState { queue: s.queue + paths, ..s };
            if endless {
                stopped(longer, ActionView::Endless)
            } else {
                advanced(longer)
            }
        },
        _ => stopped(s, ActionView::GiveUp),
    }
}

impl<'a> DirScan<'a> {
    /// The patterns of the scan.
    pub closed spec fn patterns(&self) -> PatternsView {
        self.patterns@
    }

    /// The state of the scan.
    pub closed spec fn state(&self) -> ScanState {
        ScanState {
            counted: texts(self.counted@),
            queue: texts(self.queue@),
            stage: self.stage@,
        }
    }

    /// Begins a scan with the files that lie in the directory.
    pub fn new(patterns: &'a ParsingPatterns, files: &Vec<FoundFile>) -> (r: Option<DirScan<'a>>)
        requires
            is_matchable(patterns@),
        ensures
            r matches Some(scan) ==> is_sound_scan(scan.patterns(), scan.state()),
            match initial_state(patterns@, files@) {
                None => r is None,
                Some(s) => r matches Some(scan) && scan.patterns() == patterns@ && scan.state() == s,
            },
    {
        let mut scan = DirScan {
            patterns,
            counted: Vec::new(),
            queue: VecDeque::new(),
            stage: Stage::Ready,
        };
        let ghost all = files@;
        assert(texts(scan.counted@) == Seq::<Seq<char>>::empty());
        assert(texts(scan.queue@) == Seq::<Seq<char>>::empty());
        let mut i: usize = 0;
        while i < files.len()
            invariant
                i <= all.len(),
                all == files@,
                is_matchable(patterns@),
                scan.stage is Ready,
                scan.patterns@ == patterns@,
                initial_state(patterns@, all.take(i as int)) == Some(scan.state()),
            decreases all.len() - i,
        {
            proof {
                assert(all.take(i + 1).drop_last() == all.take(i as int));
            }
            let class = match &files[i].relative {
                None => None,
                Some(relative) => file_class(patterns, relative.as_str()),
            };
            assert(class == found_class(patterns@, all[i as int]));
            match class {
                None => {
                    proof {
                        lemma_no_state(patterns@, all, i + 1);
                    }
                    return None;
                },
                Some(FileClass::Searched) => {
                    let ghost before = scan.queue@;
                    scan.queue.push_back(files[i].path.clone());
                    assert(texts(scan.queue@) == texts(before).push(all[i as int].path@));
                },
                Some(FileClass::Counted) => {
                    count(&mut scan.counted, files[i].path.as_str());
                },
                Some(FileClass::Skipped) => {},
            }
            i = i + 1;
        }
        assert(all.take(all.len() as int) == all);
        Some(scan)
    }

    fn advance(&mut self) -> (r: ScanAction)
        ensures
            final(self).patterns() == old(self).patterns(),
            (final(self).state(), r@) == advanced(old(self).state()),
    {
        let ghost before = self.queue@;
        match self.queue.pop_front() {
            None => {
                assert(texts(before).len() == 0);
                self.stage = Stage::Over;
                ScanAction::Hash(copy_texts(&self.counted))
            },
            Some(path) => {
                assert(texts(before).first() == path@);
                assert(texts(self.queue@) == texts(before).drop_first());
                count(&mut self.counted, path.as_str());
                self.stage = Stage::Extension(path.clone());
                ScanAction::TellExtension(path)
            },
        }
    }

    /// Takes an event and says what is asked for next.
    pub fn step(&mut self, event: ScanEvent) -> (r: ScanAction)
        requires
            is_sound_scan(old(self).patterns(), old(self).state()),
            fits(old(self).state().stage, event@),
        ensures
            is_sound_scan(final(self).patterns(), final(self).state()),
            final(self).patterns() == old(self).patterns(),
            (final(self).state(), r@) == stepped(old(self).patterns(), old(self).state(), event@),
    {
        let mut stage: Stage<'a> = Stage::Over;
        std::mem::swap(&mut stage, &mut self.stage);
        match (stage, event) {
            (Stage::Ready, ScanEvent::Start) => self.advance(),
            (Stage::Extension(path), ScanEvent::Extension(Some(extension))) => {
                let mut key = ".".to_owned();
                key.append(extension.as_str());
                let patterns = self.patterns;
                match patterns.rules_for(key.as_str()) {
                    None => self.advance(),
                    Some(rules) => {
                        self.stage = Stage::Text(path.clone(), rules);
                        ScanAction::ReadText(path)
                    },
                }
            },
            (Stage::Text(path, rules), ScanEvent::Text(text)) => {
                let search = included_paths(rules, text.as_str());
                match search.end {
                    SearchEnd::Failed => ScanAction::GiveUp,
                    SearchEnd::Complete => {
                        self.stage = Stage::Found(false);
                        ScanAction::FindFiles(path, search.names)
                    },
                    SearchEnd::Endless => {
                        self.stage = Stage::Found(true);
                        ScanAction::FindFiles(path, search.names)
                    },
                }
            },
            (Stage::Found(endless), ScanEvent::Found(Some(paths))) => {
                self.enqueue(paths);
                if endless {
                    ScanAction::Endless
                } else {
                    self.advance()
                }
            },
            _ => ScanAction::GiveUp,
        }
    }

    fn enqueue(&mut self, paths: Vec<String>)
        ensures
            final(self).patterns() == old(self).patterns(),
            final(self).state() == (ScanState {
                queue: old(self).state().queue + texts(paths@),
                ..old(self).state()
            }),
    {
        let ghost start = texts(self.queue@);
        let ghost all = texts(paths@);
        let mut i: usize = 0;
        while i < paths.len()
            invariant
                i <= paths@.len(),
                all == texts(paths@),
                self.patterns == old(self).patterns,
                self.counted == old(self).counted,
                self.stage == old(self).stage,
                texts(self.queue@) == start + all.take(i as int),
            decreases paths@.len() - i,
        {
            let ghost before = self.queue@;
            self.queue.push_back(paths[i].clone());
            assert(texts(self.queue@) == texts(before).push(all[i as int]));
            i = i + 1;
        }
        assert(all.take(all.len() as int) == all);
    }
}

proof fn lemma_no_state(patterns: PatternsView, files: Seq<FoundFile>, n: int)
    requires
        0 <= n <= files.len(),
        initial_state(patterns, files.take(n)) is None,
    ensures
        initial_state(patterns, files) is None,
    decreases files.len() - n,
{
    if n < files.len() {
        assert(files.take(n + 1).drop_last() == files.take(n));
        lemma_no_state(patterns, files, n + 1);
    } else {
        assert(files.take(n) == files);
    }
}

/// Adds an item to a list, unless it is there already.
fn count(list: &mut Vec<String>, item: &str)
    ensures
        texts(final(list)@) == with_item(texts(old(list)@), item@),
{
    let ghost before = texts(list@);
    let mut i: usize = 0;
    while i < list.len()
        invariant
            i <= list@.len(),
            before == texts(list@),
            *list == *old(list),
            forall|j: int| 0 <= j < i ==> #[trigger] before[j] != item@,
        decreases list@.len() - i,
    {
        assert(before[i as int] == list@[i as int]@);
        if same(list[i].as_str(), item) {
            assert(before.contains(item@));
            return;
        }
        i = i + 1;
    }
    list.push(item.to_owned());
    assert(texts(list@) == before.push(item@));
}

// ---------------------------------------------------------------------------------------------
// Whole scans
// ---------------------------------------------------------------------------------------------

/// The state after a sequence of events, and the action after each of them.
pub open spec fn run(patterns: PatternsView, start: ScanState, events: Seq<EventView>) -> (
    ScanState,
    Seq<ActionView>,
)
    decreases events.len(),
{
    if events.len() == 0 {
        (start, Seq::<ActionView>::empty())
    } else {
        let (s, actions) = run(patterns, start, events.drop_last());
        let (next, action) = stepped(patterns, s, events.last());
        (next, actions.push(action))
    }
}

/// Whether each event is what the scan waits for.
pub open spec fn all_fit(
    patterns: PatternsView,
    start: ScanState,
    events: Seq<EventView>,
) -> bool
    decreases events.len(),
{
    events.len() > 0 ==> {
        &&& all_fit(patterns, start, events.drop_last())
        &&& fits(run(patterns, start, events.drop_last()).0.stage, events.last())
    }
}

/// The files whose extension was asked for, in their order.
pub open spec fn examined(actions: Seq<ActionView>) -> Seq<Seq<char>>
    decreases actions.len(),
{
    if actions.len() == 0 {
        Seq::<Seq<char>>::empty()
    } else {
        match actions.last() {
            ActionView::TellExtension(path) => examined(actions.drop_last()).push(path),
            _ => examined(actions.drop_last()),
        }
    }
}

/// The files behind all names that were found, in their order.
pub open spec fn included(events: Seq<EventView>) -> Seq<Seq<char>>
    decreases events.len(),
{
    if events.len() == 0 {
        Seq::<Seq<char>>::empty()
    } else {
        match events.last() {
            EventView::Found(Some(paths)) => included(events.drop_last()) + paths,
            _ => included(events.drop_last()),
        }
    }
}

/// Adding an item adds that item and no other, and no second one.
pub proof fn lemma_with_item(list: Seq<Seq<char>>, item: Seq<char>)
    ensures
        forall|x: Seq<char>|
            #[trigger] with_item(list, item).contains(x) <==> list.contains(x) || x == item,
        list.no_duplicates() ==> with_item(list, item).no_duplicates(),
{
    broadcast use vstd::seq_lib::lemma_seq_contains_after_push;

}

/// Files leave the queue in the order in which they came in, and every file that left it counts.
proof fn lemma_run(patterns: PatternsView, start: ScanState, events: Seq<EventView>)
    requires
        all_fit(patterns, start, events),
    ensures
        ({
            let (s, actions) = run(patterns, start, events);
            &&& examined(actions) + s.queue == start.queue + included(events)
            &&& forall|x: Seq<char>|
                #[trigger] s.counted.contains(x) <==> start.counted.contains(x) || examined(
                    actions,
                ).contains(x)
            &&& start.counted.no_duplicates() ==> s.counted.no_duplicates()
        }),
    decreases events.len(),
{
    broadcast use vstd::seq_lib::lemma_seq_contains_after_push;

    if events.len() == 0 {
        assert(examined(Seq::<ActionView>::empty()) + start.queue == start.queue + included(
            events,
        ));
    } else {
        let shorter = events.drop_last();
        lemma_run(patterns, start, shorter);
        let (s, actions) = run(patterns, start, shorter);
        let (next, action) = stepped(patterns, s, events.last());
        let more = actions.push(action);
        assert(more.drop_last() == actions);
        let queue = match events.last() {
            EventView::Found(Some(paths)) => s.queue + paths,
            _ => s.queue,
        };
        assert(examined(actions) + queue == start.queue + included(events)) by {
            if let EventView::Found(Some(paths)) = events.last() {
                assert(examined(actions) + (s.queue + paths) == (examined(actions) + s.queue)
                    + paths);
                assert(start.queue + (included(shorter) + paths) == (start.queue + included(
                    shorter,
                )) + paths);
            }
        }
        if action is TellExtension {
            let path = queue.first();
            lemma_with_item(s.counted, path);
            assert(action == ActionView::TellExtension(path));
            assert(examined(more) == examined(actions).push(path));
            assert(examined(actions).push(path) + queue.drop_first() == examined(actions) + queue);
        } else {
            assert(examined(more) == examined(actions));
        }
    }
}

/// The state before the first event holds each file in the place of its class.
pub proof fn lemma_initial_state(patterns: PatternsView, files: Seq<FoundFile>)
    requires
        initial_state(patterns, files) is Some,
    ensures
        ({
            let s = initial_state(patterns, files)->0;
            &&& s.stage is Ready
            &&& s.counted.no_duplicates()
            &&& forall|x: Seq<char>|
                #[trigger] s.counted.contains(x) <==> has_class(
                    patterns,
                    files,
                    x,
                    FileClass::Counted,
                )
            &&& forall|x: Seq<char>|
                #[trigger] s.queue.contains(x) <==> has_class(
                    patterns,
                    files,
                    x,
                    FileClass::Searched,
                )
        }),
    decreases files.len(),
{
    broadcast use vstd::seq_lib::lemma_seq_contains_after_push;

    if files.len() > 0 {
        let shorter = files.drop_last();
        let file = files.last();
        lemma_initial_state(patterns, shorter);
        let s = initial_state(patterns, shorter)->0;
        lemma_with_item(s.counted, file.path@);
        assert forall|x: Seq<char>, class: FileClass| #[trigger]
            has_class(patterns, files, x, class) <==> has_class(patterns, shorter, x, class) || (
            file.path@ == x && found_class(patterns, file) == Some(class)) by {
            if has_class(patterns, shorter, x, class) {
                let i = choose|i: int|
                    0 <= i < shorter.len() && (#[trigger] shorter[i]).path@ == x && found_class(
                        patterns,
                        shorter[i],
                    ) == Some(class);
                assert(files[i] == shorter[i]);
            }
            if file.path@ == x && found_class(patterns, file) == Some(class) {
                assert(files[files.len() - 1].path@ == x);
            }
            if has_class(patterns, files, x, class) {
                let i = choose|i: int|
                    0 <= i < files.len() && (#[trigger] files[i]).path@ == x && found_class(
                        patterns,
                        files[i],
                    ) == Some(class);
                if i < shorter.len() {
                    assert(shorter[i] == files[i]);
                }
            }
        }
    }
}

/// Whether a path is that of a found file of the given class.
pub open spec fn has_class(
    patterns: PatternsView,
    files: Seq<FoundFile>,
    path: Seq<char>,
    class: FileClass,
) -> bool {
    exists|i: int|
        0 <= i < files.len() && (#[trigger] files[i]).path@ == path && found_class(
            patterns,
            files[i],
        ) == Some(class)
}

/// A scan that comes to its end hashes exactly these files, each once: those that lie in the
/// directory and match one of the two inclusion patterns, and those that any searched file names.
pub proof fn law_hashed_files(
    patterns: PatternsView,
    files: Seq<FoundFile>,
    events: Seq<EventView>,
    hashed: Seq<Seq<char>>,
)
    requires
        initial_state(patterns, files) is Some,
        all_fit(patterns, initial_state(patterns, files)->0, events),
        events.len() > 0,
        run(patterns, initial_state(patterns, files)->0, events).1.last() == ActionView::Hash(
            hashed,
        ),
    ensures
        hashed.no_duplicates(),
        forall|x: Seq<char>|
            #[trigger] hashed.contains(x) <==> has_class(patterns, files, x, FileClass::Counted)
                || has_class(patterns, files, x, FileClass::Searched) || included(events).contains(
                x,
            ),
{
    let start = initial_state(patterns, files)->0;
    let (s, actions) = run(patterns, start, events);
    lemma_initial_state(patterns, files);
    lemma_run(patterns, start, events);
    assert(s.queue.len() == 0);
    assert(s.counted == hashed);
    assert(examined(actions) == start.queue + included(events)) by {
        assert(examined(actions) + s.queue == examined(actions));
    }
    assert forall|x: Seq<char>|
        #[trigger] hashed.contains(x) <==> has_class(patterns, files, x, FileClass::Counted)
            || has_class(patterns, files, x, FileClass::Searched) || included(events).contains(
            x,
        ) by {
        vstd::seq_lib::lemma_seq_concat_contains_all_elements(start.queue, included(events), x);
        assert(s.counted.contains(x) <==> start.counted.contains(x) || examined(actions).contains(
            x,
        ));
        assert(start.counted.contains(x) <==> has_class(patterns, files, x, FileClass::Counted));
        assert(start.queue.contains(x) <==> has_class(patterns, files, x, FileClass::Searched));
    }
}

/// Every file that is searched, whether it lies in the directory or is named by another file, has
/// its extension asked for exactly in the order in which it was found.
pub proof fn law_files_are_searched_in_order(
    patterns: PatternsView,
    start: ScanState,
    events: Seq<EventView>,
)
    requires
        all_fit(patterns, start, events),
    ensures
        examined(run(patterns, start, events).1) + run(patterns, start, events).0.queue
            == start.queue + included(events),
{
    lemma_run(patterns, start, events);
}

/// The inclusion patterns see a path that is as long as it was. A slash becomes a backslash, each of
/// the capitals (65 to 90) the small letter 32 places on, and every other character stays.
pub proof fn law_windows_path(relative: Seq<char>)
    ensures
        windows_path(relative).len() == relative.len(),
        forall|i: int|
            0 <= i < relative.len() && relative[i] == '/' ==> #[trigger] windows_path(relative)[i]
                == '\\',
        forall|i: int|
            0 <= i < relative.len() && 65 <= relative[i] as int <= 90 ==> (
            #[trigger] windows_path(relative)[i]) as int == relative[i] as int + 32,
        forall|i: int|
            0 <= i < relative.len() && relative[i] != '/' && !(65 <= relative[i] as int <= 90)
                ==> #[trigger] windows_path(relative)[i] == relative[i],
{
    law_lower(relative);
    assert forall|i: int| 0 <= i < relative.len() implies #[trigger] windows_path(relative)[i] == (
    if lowered(relative)[i] == '/' {
        '\\'
    } else {
        lowered(relative)[i]
    }) by {}
}

/// A file is searched exactly where the first inclusion pattern matches. It only counts exactly where
/// the first one does not and the second one does. It is skipped exactly where neither does. Where a
/// pattern that is asked gives an error there is no class.
pub proof fn law_class(patterns: PatternsView, relative: Seq<char>)
    ensures
        ({
            let seen = windows_path(relative);
            let initial = fancy_is_match(patterns.initial_inclusion, seen);
            let extra = fancy_is_match(patterns.extra_inclusion, seen);
            &&& class_of(patterns, relative) == Some(FileClass::Searched) <==> initial == Some(true)
            &&& class_of(patterns, relative) == Some(FileClass::Counted) <==> initial == Some(false)
                && extra == Some(true)
            &&& class_of(patterns, relative) == Some(FileClass::Skipped) <==> initial == Some(false)
                && extra == Some(false)
        }),
{
}

/// What one more file below the directory changes at the start of a scan: a searched file waits behind
/// all others, a counted file counts once, a skipped file changes nothing. A file without a class, or
/// with a path that is no text, leaves no start.
pub proof fn law_one_more_file(patterns: PatternsView, files: Seq<FoundFile>, file: FoundFile)
    ensures
        initial_state(patterns, Seq::<FoundFile>::empty()) == Some(
            ScanState {
                counted: Seq::<Seq<char>>::empty(),
                queue: Seq::<Seq<char>>::empty(),
                stage: StageView::Ready,
            },
        ),
        initial_state(patterns, files) is None ==> initial_state(patterns, files.push(file)) is None,
        file.relative is None ==> initial_state(patterns, files.push(file)) is None,
        (initial_state(patterns, files) is Some && file.relative is Some) ==> ({
            let s = initial_state(patterns, files)->0;
            match class_of(patterns, file.relative->0@) {
                None => initial_state(patterns, files.push(file)) is None,
                Some(FileClass::Searched) => initial_state(patterns, files.push(file)) == Some(
                    ScanState { queue: s.queue.push(file.path@), ..s },
                ),
                Some(FileClass::Counted) => initial_state(patterns, files.push(file)) == Some(
                    if s.counted.contains(file.path@) {
                        s
                    } else {
                        ScanState { counted: s.counted.push(file.path@), ..s }
                    },
                ),
                Some(FileClass::Skipped) => initial_state(patterns, files.push(file)) == Some(s),
            }
        }),
{
    assert(files.push(file).drop_last() == files);
}

/// How a scan goes on. It takes the files that wait one after the other, counts each once, and asks for
/// its extension; when none waits, it is over and hashes what was counted. A file with an extension is
/// read where there is a rule for a dot and that extension. The files that it names are looked for, and
/// wait behind all others. A file without an extension, a text that cannot be searched, and a file that
/// is not found leave the directory without a fingerprint.
pub proof fn law_scan_steps(
    patterns: PatternsView,
    counted: Seq<Seq<char>>,
    queue: Seq<Seq<char>>,
    path: Seq<char>,
    extension: Seq<char>,
    rules: FileRulesView,
    text: Seq<char>,
    paths: Seq<Seq<char>>,
)
    ensures
        ({
            let at = |stage: StageView| ScanState { counted, queue, stage };
            let key = seq!['.'] + extension;
            let search = named_in_text(rules, text);
            let next = |waiting: Seq<Seq<char>>|
                if waiting.len() == 0 {
                    (
                        ScanState { counted, queue: waiting, stage: StageView::Over },
                        ActionView::Hash(counted),
                    )
                } else {
                    (
                        ScanState {
                            counted: if counted.contains(waiting[0]) {
                                counted
                            } else {
                                counted.push(waiting[0])
                            },
                            queue: waiting.subrange(1, waiting.len() as int),
                            stage: StageView::Extension(waiting[0]),
                        },
                        ActionView::TellExtension(waiting[0]),
                    )
                };
            &&& stepped(patterns, at(StageView::Ready), EventView::Start) == next(queue)
            &&& stepped(
                patterns,
                at(StageView::Extension(path)),
                EventView::Extension(None),
            ).1 is GiveUp
            &&& stepped(
                patterns,
                at(StageView::Extension(path)),
                EventView::Extension(Some(extension)),
            ) == (if patterns.rules.contains_key(key) {
                (at(StageView::Text(path, patterns.rules[key])), ActionView::ReadText(path))
            } else {
                next(queue)
            })
            &&& search.end is Failed ==> stepped(
                patterns,
                at(StageView::Text(path, rules)),
                EventView::Text(text),
            ).1 is GiveUp
            &&& search.end is Complete ==> stepped(
                patterns,
                at(StageView::Text(path, rules)),
                EventView::Text(text),
            ) == (at(StageView::Found(false)), ActionView::FindFiles(path, search.names))
            &&& search.end is Endless ==> stepped(
                patterns,
                at(StageView::Text(path, rules)),
                EventView::Text(text),
            ) == (at(StageView::Found(true)), ActionView::FindFiles(path, search.names))
            &&& stepped(patterns, at(StageView::Found(false)), EventView::Found(None)).1 is GiveUp
            &&& stepped(patterns, at(StageView::Found(true)), EventView::Found(None)).1 is GiveUp
            &&& stepped(patterns, at(StageView::Found(false)), EventView::Found(Some(paths))) == next(
                queue + paths,
            )
            &&& stepped(
                patterns,
                at(StageView::Found(true)),
                EventView::Found(Some(paths)),
            ).1 is Endless
        }),
{
    reveal_strlit(".");
    assert("."@ == seq!['.']);
    let all = queue + paths;
    if queue.len() > 0 {
        assert(queue.drop_first() == queue.subrange(1, queue.len() as int));
    }
    if all.len() > 0 {
        assert(all.drop_first() == all.subrange(1, all.len() as int));
    }
}

/// The pattern of a directory is its path as it is written, then any number of directories, then a
/// name with a dot.
pub proof fn law_pattern_below(dir: Seq<char>)
    ensures
        pattern_below(dir).take(dir.len() as int) == dir,
        pattern_below(dir).skip(dir.len() as int) == seq!['/', '*', '*', '/', '*', '.', '*'],
{
    reveal_strlit("/**/*.*");
    assert(pattern_below(dir).take(dir.len() as int) == dir);
    assert(pattern_below(dir).skip(dir.len() as int) == seq!['/', '*', '*', '/', '*', '.', '*']);
}

} // verus!
