//! Scans that are answered by a given file system.
//!
//! The laws of [`scan`](crate::scan) speak of whatever a scan is told. Here the answers come from a
//! [`World`], which says of every file what its extension and its text are and which file a name
//! in it means. So it can be said which files a scan hashes, and on what that does not depend.

use vstd::prelude::*;

use crate::addon::opt_text;
use crate::fingerprint::{files_fingerprint, law_order_of_files, lemma_same_items_mapped};
use crate::includes::named_in_text;
use crate::patterns::{FileRulesView, PatternsView};
use crate::scan::{
    advanced, class_of, fits, found_class, has_class, initial_state, lemma_initial_state,
    lemma_with_item, stepped, ActionView, EventView, FileClass, FoundFile, ScanState, StageView,
};

verus! {

/// What a file system says.
pub struct World {
    /// The extension of a file, without its dot.
    pub extension: spec_fn(Seq<char>) -> Option<Seq<char>>,
    /// The text of a file.
    pub text: spec_fn(Seq<char>) -> Seq<char>,
    /// The file that a name in a file means, where it exists.
    pub found: spec_fn(Seq<char>, Seq<char>) -> Option<Seq<char>>,
}

/// The files that names in a file mean; `None` where one of them does not exist.
pub open spec fn all_found(world: World, path: Seq<char>, names: Seq<Seq<char>>) -> Option<
    Seq<Seq<char>>,
>
    decreases names.len(),
{
    if names.len() == 0 {
        Some(Seq::<Seq<char>>::empty())
    } else {
        match (all_found(world, path, names.drop_last()), (world.found)(path, names.last())) {
            (Some(before), Some(file)) => Some(before.push(file)),
            _ => None,
        }
    }
}

/// The answer to what a scan asks for.
pub open spec fn answer_to(world: World, action: ActionView) -> EventView {
    match action {
        ActionView::TellExtension(path) => EventView::Extension((world.extension)(path)),
        ActionView::ReadText(path) => EventView::Text((world.text)(path)),
        ActionView::FindFiles(path, names) => EventView::Found(all_found(world, path, names)),
        _ => EventView::Start,
    }
}

/// Whether a scan is over after an action.
pub open spec fn is_last(action: ActionView) -> bool {
    action is Hash || action is GiveUp || action is Endless
}

/// A scan after its start and `n` answers: its state, and what it asks for. Once it is over nothing
/// changes.
pub open spec fn scanned(
    patterns: PatternsView,
    world: World,
    start: ScanState,
    n: nat,
) -> (ScanState, ActionView)
    decreases n,
{
    if n == 0 {
        stepped(patterns, start, EventView::Start)
    } else {
        let (state, action) = scanned(patterns, world, start, (n - 1) as nat);
        if is_last(action) {
            (state, action)
        } else {
            stepped(patterns, state, answer_to(world, action))
        }
    }
}

/// The files that a scan has turned to, in their order.
pub open spec fn searched(
    patterns: PatternsView,
    world: World,
    start: ScanState,
    n: nat,
) -> Seq<Seq<char>>
    decreases n,
{
    let before = if n == 0 {
        Seq::<Seq<char>>::empty()
    } else {
        searched(patterns, world, start, (n - 1) as nat)
    };
    match scanned(patterns, world, start, n).1 {
        ActionView::TellExtension(path) => before.push(path),
        _ => before,
    }
}

/// The rules by which a file is searched.
pub open spec fn rules_of(patterns: PatternsView, world: World, path: Seq<char>) -> Option<
    FileRulesView,
> {
    match (world.extension)(path) {
        Some(extension) if patterns.rules.contains_key("."@ + extension) => Some(
            patterns.rules["."@ + extension],
        ),
        _ => None,
    }
}

/// The files that a file names.
pub open spec fn named_by(patterns: PatternsView, world: World, path: Seq<char>) -> Seq<Seq<char>> {
    match rules_of(patterns, world, path) {
        None => Seq::<Seq<char>>::empty(),
        Some(rules) => match all_found(
            world,
            path,
            named_in_text(rules, (world.text)(path)).names,
        ) {
            Some(files) => files,
            None => Seq::<Seq<char>>::empty(),
        },
    }
}

/// Whether a file does not end a scan: it has an extension, its text can be searched to the end, and
/// all files that it names exist.
pub open spec fn is_fine(patterns: PatternsView, world: World, path: Seq<char>) -> bool {
    &&& (world.extension)(path) is Some
    &&& rules_of(patterns, world, path) matches Some(rules) ==> {
        let search = named_in_text(rules, (world.text)(path));
        search.end is Complete && all_found(world, path, search.names) is Some
    }
}

/// Whether a set of files holds every file that one of them names.
pub open spec fn is_closed(patterns: PatternsView, world: World, files: Set<Seq<char>>) -> bool {
    forall|path: Seq<char>, file: Seq<char>|
        files.contains(path) && #[trigger] named_by(patterns, world, path).contains(file)
            ==> files.contains(file)
}

/// Whether a set is the least one that holds some files and all files that one of it names.
pub open spec fn is_least(
    patterns: PatternsView,
    world: World,
    roots: Set<Seq<char>>,
    files: Set<Seq<char>>,
) -> bool {
    &&& roots.subset_of(files)
    &&& is_closed(patterns, world, files)
    &&& forall|other: Set<Seq<char>>|
        roots.subset_of(other) && #[trigger] is_closed(patterns, world, other) ==> files.subset_of(
            other,
        )
}

// ---------------------------------------------------------------------------------------------
// What holds while a scan goes on
// ---------------------------------------------------------------------------------------------

/// Whether a file is done with: it did not end the scan, and what it names is searched or waits.
spec fn is_done(
    patterns: PatternsView,
    world: World,
    path: Seq<char>,
    files: Seq<Seq<char>>,
    queue: Seq<Seq<char>>,
) -> bool {
    &&& is_fine(patterns, world, path)
    &&& forall|file: Seq<char>| #[trigger]
        named_by(patterns, world, path).contains(file) ==> files.contains(file) || queue.contains(
            file,
        )
}

/// Whether stage and action belong together, for the file that the scan has turned to last.
spec fn is_in_step(
    patterns: PatternsView,
    world: World,
    s: ScanState,
    action: ActionView,
    files: Seq<Seq<char>>,
) -> bool {
    match action {
        ActionView::TellExtension(path) => {
            &&& s.stage == StageView::Extension(path)
            &&& files.len() > 0
            &&& files.last() == path
        },
        ActionView::ReadText(path) => {
            &&& files.len() > 0
            &&& files.last() == path
            &&& (world.extension)(path) is Some
            &&& rules_of(patterns, world, path) is Some
            &&& s.stage == StageView::Text(path, rules_of(patterns, world, path)->0)
        },
        ActionView::FindFiles(path, names) => {
            let search = named_in_text(rules_of(patterns, world, path)->0, (world.text)(path));
            &&& files.len() > 0
            &&& files.last() == path
            &&& (world.extension)(path) is Some
            &&& rules_of(patterns, world, path) is Some
            &&& names == search.names
            &&& !(search.end is Failed)
            &&& s.stage == StageView::Found(search.end is Endless)
        },
        ActionView::Hash(hashed) => s.queue.len() == 0 && hashed == s.counted,
        _ => true,
    }
}

proof fn lemma_done_stays(
    patterns: PatternsView,
    world: World,
    path: Seq<char>,
    files: Seq<Seq<char>>,
    queue: Seq<Seq<char>>,
    more_files: Seq<Seq<char>>,
    more_queue: Seq<Seq<char>>,
)
    requires
        is_done(patterns, world, path, files, queue),
        forall|x: Seq<char>| #[trigger] files.contains(x) ==> more_files.contains(x),
        forall|x: Seq<char>| #[trigger]
            queue.contains(x) ==> more_files.contains(x) || more_queue.contains(x),
    ensures
        is_done(patterns, world, path, more_files, more_queue),
{
}

/// What a scan keeps from answer to answer.
spec fn keeps(
    patterns: PatternsView,
    world: World,
    start: ScanState,
    s: ScanState,
    action: ActionView,
    files: Seq<Seq<char>>,
) -> bool {
    &&& is_in_step(patterns, world, s, action, files)
    &&& forall|i: int|
        0 <= i < files.len() && (i < files.len() - 1 || action is Hash) ==> is_done(
            patterns,
            world,
            #[trigger] files[i],
            files,
            s.queue,
        )
    &&& forall|x: Seq<char>| #[trigger]
        start.queue.contains(x) ==> files.contains(x) || s.queue.contains(x)
    &&& forall|x: Seq<char>| #[trigger]
        s.counted.contains(x) <==> start.counted.contains(x) || files.contains(x)
    &&& start.counted.no_duplicates() ==> s.counted.no_duplicates()
}

/// The files that a scan has turned to, with the one that an action turns to.
spec fn with_next(files: Seq<Seq<char>>, action: ActionView) -> Seq<Seq<char>> {
    match action {
        ActionView::TellExtension(path) => files.push(path),
        _ => files,
    }
}

/// Turning to the next file keeps all of it, once the file before is done with.
proof fn lemma_advance(
    patterns: PatternsView,
    world: World,
    start: ScanState,
    s: ScanState,
    files: Seq<Seq<char>>,
)
    requires
        forall|i: int|
            0 <= i < files.len() ==> is_done(patterns, world, #[trigger] files[i], files, s.queue),
        forall|x: Seq<char>| #[trigger]
            start.queue.contains(x) ==> files.contains(x) || s.queue.contains(x),
        forall|x: Seq<char>| #[trigger]
            s.counted.contains(x) <==> start.counted.contains(x) || files.contains(x),
        start.counted.no_duplicates() ==> s.counted.no_duplicates(),
    ensures
        keeps(
            patterns,
            world,
            start,
            advanced(s).0,
            advanced(s).1,
            with_next(files, advanced(s).1),
        ),
{
    broadcast use vstd::seq_lib::lemma_seq_contains_after_push;

    if s.queue.len() > 0 {
        let path = s.queue.first();
        let next = advanced(s).0;
        let more = files.push(path);
        lemma_with_item(s.counted, path);
        assert forall|x: Seq<char>| #[trigger] s.queue.contains(x) implies x == path
            || next.queue.contains(x) by {
            let k = choose|k: int| 0 <= k < s.queue.len() && s.queue[k] == x;
            if k > 0 {
                assert(next.queue[k - 1] == x);
            }
        }
        assert forall|i: int| 0 <= i < more.len() - 1 implies is_done(
            patterns,
            world,
            #[trigger] more[i],
            more,
            next.queue,
        ) by {
            assert(more[i] == files[i]);
            lemma_done_stays(patterns, world, files[i], files, s.queue, more, next.queue);
        }
    }
}

proof fn lemma_keeps(patterns: PatternsView, world: World, start: ScanState, n: nat)
    requires
        start.stage is Ready,
    ensures
        keeps(
            patterns,
            world,
            start,
            scanned(patterns, world, start, n).0,
            scanned(patterns, world, start, n).1,
            searched(patterns, world, start, n),
        ),
    decreases n,
{
    if n == 0 {
        let none = Seq::<Seq<char>>::empty();
        lemma_advance(patterns, world, start, start, none);
    } else {
        let before = (n - 1) as nat;
        lemma_keeps(patterns, world, start, before);
        let (s, action) = scanned(patterns, world, start, before);
        let files = searched(patterns, world, start, before);
        let (next, asked) = scanned(patterns, world, start, n);
        let after = searched(patterns, world, start, n);
        assert(after == with_next(files, asked));
        if is_last(action) {
            assert(searched(patterns, world, start, n) == files);
        } else {
            match action {
                ActionView::TellExtension(path) => {
                    if let Some(extension) = (world.extension)(path) {
                        if rules_of(patterns, world, path) is None {
                            assert(is_done(patterns, world, path, files, s.queue));
                            assert forall|i: int| 0 <= i < files.len() implies is_done(
                                patterns,
                                world,
                                #[trigger] files[i],
                                files,
                                s.queue,
                            ) by {}
                            lemma_advance(patterns, world, start, s, files);
                            assert((next, asked) == advanced(s));
                        }
                    }
                },
                ActionView::ReadText(path) => {},
                ActionView::FindFiles(path, names) => {
                    if let Some(paths) = all_found(world, path, names) {
                        let longer = ScanState { queue: s.queue + paths, ..s };
                        assert forall|x: Seq<char>| #[trigger]
                            longer.queue.contains(x) <==> s.queue.contains(x) || paths.contains(
                            x,
                        ) by {
                            vstd::seq_lib::lemma_seq_concat_contains_all_elements(
                                s.queue,
                                paths,
                                x,
                            );
                        }
                        assert(named_by(patterns, world, path) == paths);
                        assert forall|i: int| 0 <= i < files.len() - 1 implies is_done(
                            patterns,
                            world,
                            #[trigger] files[i],
                            files,
                            longer.queue,
                        ) by {
                            lemma_done_stays(
                                patterns,
                                world,
                                files[i],
                                files,
                                s.queue,
                                files,
                                longer.queue,
                            );
                        }
                        if s.stage == StageView::Found(false) {
                            assert(is_done(patterns, world, path, files, longer.queue));
                            lemma_advance(patterns, world, start, longer, files);
                            assert((next, asked) == advanced(longer));
                        }
                    }
                },
                _ => {},
            }
        }
    }
}

/// A scan stays within every set that holds the files it starts with and is closed.
proof fn lemma_stays_within(
    patterns: PatternsView,
    world: World,
    start: ScanState,
    n: nat,
    other: Set<Seq<char>>,
)
    requires
        start.stage is Ready,
        is_closed(patterns, world, other),
        forall|x: Seq<char>| #[trigger] start.queue.contains(x) ==> other.contains(x),
    ensures
        forall|x: Seq<char>| #[trigger]
            searched(patterns, world, start, n).contains(x) ==> other.contains(x),
        forall|x: Seq<char>| #[trigger]
            scanned(patterns, world, start, n).0.queue.contains(x) ==> other.contains(x),
    decreases n,
{
    broadcast use vstd::seq_lib::lemma_seq_contains_after_push;

    let (next, asked) = scanned(patterns, world, start, n);
    if n == 0 {
        if start.queue.len() > 0 {
            assert(start.queue.contains(start.queue[0]));
            assert forall|x: Seq<char>| #[trigger] next.queue.contains(x) implies other.contains(
                x,
            ) by {
                let k = choose|k: int| 0 <= k < next.queue.len() && next.queue[k] == x;
                assert(start.queue[k + 1] == x);
                assert(start.queue.contains(x));
            }
        }
    } else {
        let before = (n - 1) as nat;
        lemma_stays_within(patterns, world, start, before, other);
        lemma_keeps(patterns, world, start, before);
        let (s, action) = scanned(patterns, world, start, before);
        let files = searched(patterns, world, start, before);
        let queue = match (is_last(action), answer_to(world, action)) {
            (false, EventView::Found(Some(paths))) => s.queue + paths,
            _ => s.queue,
        };
        assert forall|x: Seq<char>| #[trigger] queue.contains(x) implies other.contains(x) by {
            if let ActionView::FindFiles(path, names) = action {
                if let Some(paths) = all_found(world, path, names) {
                    vstd::seq_lib::lemma_seq_concat_contains_all_elements(s.queue, paths, x);
                    if paths.contains(x) {
                        assert(named_by(patterns, world, path) == paths);
                        assert(files.contains(path));
                        assert(named_by(patterns, world, path).contains(x));
                    }
                }
            }
        }
        if asked is TellExtension && !is_last(action) {
            assert(queue.contains(queue[0]));
            assert forall|x: Seq<char>| #[trigger] next.queue.contains(x) implies other.contains(
                x,
            ) by {
                let k = choose|k: int| 0 <= k < next.queue.len() && next.queue[k] == x;
                assert(queue[k + 1] == x);
                assert(queue.contains(x));
            }
        } else {
            assert(next.queue == queue);
        }
    }
}

/// The files that lie in the directory and are searched.
pub open spec fn roots(patterns: PatternsView, files: Seq<FoundFile>) -> Set<Seq<char>> {
    Set::new(|x: Seq<char>| has_class(patterns, files, x, FileClass::Searched))
}

/// A scan that comes to its end hashes exactly these files, each once: those of the least set that
/// holds the searched files of the directory and every file that one of the set names, and those
/// that only count. None of the set would have ended the scan.
pub proof fn law_least_set_is_hashed(
    patterns: PatternsView,
    world: World,
    files: Seq<FoundFile>,
    n: nat,
    hashed: Seq<Seq<char>>,
) -> (least: Set<Seq<char>>)
    requires
        initial_state(patterns, files) is Some,
        scanned(patterns, world, initial_state(patterns, files)->0, n).1 == ActionView::Hash(hashed),
    ensures
        is_least(patterns, world, roots(patterns, files), least),
        forall|x: Seq<char>| #[trigger] least.contains(x) ==> is_fine(patterns, world, x),
        hashed.no_duplicates(),
        forall|x: Seq<char>| #[trigger]
            hashed.contains(x) <==> least.contains(x) || has_class(
                patterns,
                files,
                x,
                FileClass::Counted,
            ),
{
    let start = initial_state(patterns, files)->0;
    lemma_initial_state(patterns, files);
    lemma_keeps(patterns, world, start, n);
    let s = scanned(patterns, world, start, n).0;
    let done = searched(patterns, world, start, n);
    let least = Set::new(|x: Seq<char>| done.contains(x));
    assert forall|x: Seq<char>| #[trigger] roots(patterns, files).contains(x) implies least.contains(
        x,
    ) by {
        assert(start.queue.contains(x));
    }
    assert forall|path: Seq<char>, file: Seq<char>|
        least.contains(path) && #[trigger] named_by(patterns, world, path).contains(
            file,
        ) implies least.contains(file) by {
        let i = choose|i: int| 0 <= i < done.len() && done[i] == path;
        assert(is_done(patterns, world, done[i], done, s.queue));
    }
    assert forall|other: Set<Seq<char>>|
        roots(patterns, files).subset_of(other) && #[trigger] is_closed(
            patterns,
            world,
            other,
        ) implies least.subset_of(other) by {
        assert forall|x: Seq<char>| #[trigger] start.queue.contains(x) implies other.contains(x) by {
            assert(roots(patterns, files).contains(x));
        }
        lemma_stays_within(patterns, world, start, n, other);
    }
    assert forall|x: Seq<char>| #[trigger] least.contains(x) implies is_fine(patterns, world, x) by {
        let i = choose|i: int| 0 <= i < done.len() && done[i] == x;
        assert(is_done(patterns, world, done[i], done, s.queue));
    }
    assert forall|x: Seq<char>| #[trigger]
        hashed.contains(x) <==> least.contains(x) || has_class(
            patterns,
            files,
            x,
            FileClass::Counted,
        ) by {
        assert(s.counted.contains(x) <==> start.counted.contains(x) || done.contains(x));
        assert(start.counted.contains(x) <==> has_class(patterns, files, x, FileClass::Counted));
    }
    least
}

/// A scan that is answered by a file system is told what it waits for at every step.
pub proof fn law_scan_is_awaited(patterns: PatternsView, world: World, start: ScanState, n: nat)
    requires
        start.stage is Ready,
    ensures
        fits(start.stage, EventView::Start),
        ({
            let (s, action) = scanned(patterns, world, start, n);
            !is_last(action) ==> fits(s.stage, answer_to(world, action))
        }),
{
    lemma_keeps(patterns, world, start, n);
}

// ---------------------------------------------------------------------------------------------
// When a scan comes to its end
// ---------------------------------------------------------------------------------------------

/// Whether files have ranks that fall from a file to the files that it names.
spec fn is_ranked(
    patterns: PatternsView,
    world: World,
    files: Set<Seq<char>>,
    rank: spec_fn(Seq<char>) -> nat,
) -> bool {
    forall|path: Seq<char>, file: Seq<char>|
        files.contains(path) && #[trigger] named_by(patterns, world, path).contains(file) ==> rank(
            file,
        ) < rank(path)
}

/// The number of files that a scan turns to because of some files, down to a depth.
spec fn cost(patterns: PatternsView, world: World, files: Seq<Seq<char>>, depth: nat) -> nat
    decreases depth, files.len(),
{
    if files.len() == 0 {
        0
    } else {
        cost(patterns, world, files.drop_last(), depth) + 1 + (if depth == 0 {
            0
        } else {
            cost(patterns, world, named_by(patterns, world, files.last()), (depth - 1) as nat)
        })
    }
}

proof fn lemma_cost_adds(
    patterns: PatternsView,
    world: World,
    a: Seq<Seq<char>>,
    b: Seq<Seq<char>>,
    depth: nat,
)
    ensures
        cost(patterns, world, a + b, depth) == cost(patterns, world, a, depth) + cost(
            patterns,
            world,
            b,
            depth,
        ),
    decreases b.len(),
{
    if b.len() == 0 {
        assert(a + b == a);
    } else {
        lemma_cost_adds(patterns, world, a, b.drop_last(), depth);
        assert((a + b).drop_last() == a + b.drop_last());
        assert((a + b).last() == b.last());
    }
}

/// Beyond the ranks of the files a greater depth changes nothing.
proof fn lemma_cost_is_stable(
    patterns: PatternsView,
    world: World,
    set: Set<Seq<char>>,
    rank: spec_fn(Seq<char>) -> nat,
    files: Seq<Seq<char>>,
    depth: nat,
)
    requires
        is_closed(patterns, world, set),
        is_ranked(patterns, world, set, rank),
        forall|i: int| 0 <= i < files.len() ==> set.contains(#[trigger] files[i]) && rank(files[i])
            <= depth,
    ensures
        cost(patterns, world, files, depth + 1) == cost(patterns, world, files, depth),
    decreases depth, files.len(),
{
    if files.len() > 0 {
        let shorter = files.drop_last();
        assert forall|i: int| 0 <= i < shorter.len() implies set.contains(#[trigger] shorter[i])
            && rank(shorter[i]) <= depth by {
            assert(shorter[i] == files[i]);
        }
        lemma_cost_is_stable(patterns, world, set, rank, shorter, depth);
        let path = files[files.len() - 1];
        let named = named_by(patterns, world, path);
        assert forall|i: int| 0 <= i < named.len() implies set.contains(#[trigger] named[i])
            && rank(named[i]) < rank(path) by {
            assert(named.contains(named[i]));
        }
        if depth == 0 {
            if named.len() > 0 {
                assert(rank(named[0]) < rank(path));
            }
            assert(cost(patterns, world, named, 0) == 0);
        } else {
            lemma_cost_is_stable(patterns, world, set, rank, named, (depth - 1) as nat);
        }
        assert((depth + 1 - 1) as nat == depth);
        assert(cost(patterns, world, files, depth + 1) == cost(patterns, world, shorter, depth + 1)
            + 1 + cost(patterns, world, named, depth));
    }
}

/// The number of files that a scan still turns to, counted in its steps.
spec fn steps_left(
    patterns: PatternsView,
    world: World,
    s: ScanState,
    action: ActionView,
    depth: nat,
) -> nat {
    let waiting = cost(patterns, world, s.queue, depth);
    match action {
        ActionView::TellExtension(path) => 4 * (waiting + cost(
            patterns,
            world,
            named_by(patterns, world, path),
            depth,
        )) + 3,
        ActionView::ReadText(path) => 4 * (waiting + cost(
            patterns,
            world,
            named_by(patterns, world, path),
            depth,
        )) + 2,
        ActionView::FindFiles(path, _) => 4 * (waiting + cost(
            patterns,
            world,
            named_by(patterns, world, path),
            depth,
        )) + 1,
        _ => 0,
    }
}

/// Turning to the next file brings a scan nearer to its end.
proof fn lemma_advance_ends(
    patterns: PatternsView,
    world: World,
    set: Set<Seq<char>>,
    rank: spec_fn(Seq<char>) -> nat,
    s: ScanState,
    depth: nat,
)
    requires
        is_closed(patterns, world, set),
        is_ranked(patterns, world, set, rank),
        forall|x: Seq<char>| #[trigger] set.contains(x) ==> rank(x) <= depth,
        forall|x: Seq<char>| #[trigger] s.queue.contains(x) ==> set.contains(x),
        depth > 0,
    ensures
        steps_left(patterns, world, advanced(s).0, advanced(s).1, depth) < 4 * cost(
            patterns,
            world,
            s.queue,
            depth,
        ) + 1,
{
    if s.queue.len() > 0 {
        let path = s.queue.first();
        let rest = s.queue.drop_first();
        let named = named_by(patterns, world, path);
        assert(s.queue.contains(s.queue[0]));
        assert(s.queue == seq![path] + rest);
        lemma_cost_adds(patterns, world, seq![path], rest, depth);
        assert(seq![path].drop_last() == Seq::<Seq<char>>::empty());
        assert(cost(patterns, world, seq![path].drop_last(), depth) == 0);
        assert forall|i: int| 0 <= i < named.len() implies set.contains(#[trigger] named[i])
            && rank(named[i]) <= (depth - 1) as nat by {
            assert(named.contains(named[i]));
            assert(rank(named[i]) < rank(path));
        }
        lemma_cost_is_stable(patterns, world, set, rank, named, (depth - 1) as nat);
    }
}

/// A scan within a set of ranked files comes to its end, and to a fingerprint where none of them
/// would end it.
proof fn lemma_ends(
    patterns: PatternsView,
    world: World,
    start: ScanState,
    set: Set<Seq<char>>,
    rank: spec_fn(Seq<char>) -> nat,
    depth: nat,
    n: nat,
) -> (m: nat)
    requires
        start.stage is Ready,
        is_closed(patterns, world, set),
        is_ranked(patterns, world, set, rank),
        forall|x: Seq<char>| #[trigger] set.contains(x) ==> rank(x) <= depth,
        forall|x: Seq<char>| #[trigger] start.queue.contains(x) ==> set.contains(x),
        depth > 0,
    ensures
        is_last(scanned(patterns, world, start, m).1),
        (forall|x: Seq<char>| #[trigger] set.contains(x) ==> is_fine(patterns, world, x)) && !(scanned(
            patterns,
            world,
            start,
            n,
        ).1 is GiveUp) && !(scanned(patterns, world, start, n).1 is Endless) ==> scanned(
            patterns,
            world,
            start,
            m,
        ).1 is Hash,
    decreases
            steps_left(
                patterns,
                world,
                scanned(patterns, world, start, n).0,
                scanned(patterns, world, start, n).1,
                depth,
            ),
{
    let (s, action) = scanned(patterns, world, start, n);
    if is_last(action) {
        n
    } else {
        lemma_keeps(patterns, world, start, n);
        lemma_stays_within(patterns, world, start, n, set);
        let files = searched(patterns, world, start, n);
        let path = files.last();
        assert(files.contains(path));
        let named = named_by(patterns, world, path);
        let (next, asked) = scanned(patterns, world, start, n + 1);
        assert((next, asked) == stepped(patterns, s, answer_to(world, action)));
        match action {
            ActionView::TellExtension(_) => {
                if (world.extension)(path) is Some && rules_of(patterns, world, path) is None {
                    assert((next, asked) == advanced(s));
                    lemma_advance_ends(patterns, world, set, rank, s, depth);
                }
            },
            ActionView::FindFiles(_, names) => {
                if all_found(world, path, names) is Some && s.stage == StageView::Found(false) {
                    let longer = ScanState { queue: s.queue + named, ..s };
                    assert((next, asked) == advanced(longer));
                    lemma_cost_adds(patterns, world, s.queue, named, depth);
                    assert forall|x: Seq<char>| #[trigger]
                        longer.queue.contains(x) implies set.contains(x) by {
                        vstd::seq_lib::lemma_seq_concat_contains_all_elements(s.queue, named, x);
                        if named.contains(x) {
                            assert(named_by(patterns, world, path).contains(x));
                        }
                    }
                    lemma_advance_ends(patterns, world, set, rank, longer, depth);
                }
            },
            _ => {},
        }
        lemma_ends(patterns, world, start, set, rank, depth, n + 1)
    }
}

/// Whether a file in a list names the next one.
pub open spec fn names_next(
    patterns: PatternsView,
    world: World,
    chain: Seq<Seq<char>>,
    i: int,
) -> bool {
    named_by(patterns, world, chain[i]).contains(chain[i + 1])
}

/// Whether each file in a list names the next one.
pub open spec fn is_chain(patterns: PatternsView, world: World, chain: Seq<Seq<char>>) -> bool {
    forall|i: int| 0 <= i < chain.len() - 1 ==> #[trigger] names_next(patterns, world, chain, i)
}

/// Whether no chain of names leads from a file of a set back to that file.
pub open spec fn is_acyclic(patterns: PatternsView, world: World, files: Set<Seq<char>>) -> bool {
    forall|chain: Seq<Seq<char>>| #[trigger]
        is_chain(patterns, world, chain) && chain.len() > 1 && files.contains(chain.first())
            ==> chain.first() != chain.last()
}

/// A chain stays within a closed set.
proof fn lemma_chain_stays_within(
    patterns: PatternsView,
    world: World,
    set: Set<Seq<char>>,
    chain: Seq<Seq<char>>,
    i: int,
)
    requires
        is_closed(patterns, world, set),
        is_chain(patterns, world, chain),
        0 <= i < chain.len(),
        set.contains(chain.first()),
    ensures
        set.contains(chain[i]),
    decreases i,
{
    if i > 0 {
        lemma_chain_stays_within(patterns, world, set, chain, i - 1);
        assert(names_next(patterns, world, chain, i - 1));
    }
}

/// A chain in a finite set without cycles is no longer than the set is large.
proof fn lemma_chain_is_short(
    patterns: PatternsView,
    world: World,
    set: Set<Seq<char>>,
    chain: Seq<Seq<char>>,
)
    requires
        set.finite(),
        is_closed(patterns, world, set),
        is_acyclic(patterns, world, set),
        is_chain(patterns, world, chain),
        chain.len() > 0,
        set.contains(chain.first()),
    ensures
        chain.len() <= set.len(),
{
    assert forall|i: int, j: int| 0 <= i < j < chain.len() implies chain[i] != chain[j] by {
        let part = chain.subrange(i, j + 1);
        assert forall|k: int| 0 <= k < part.len() - 1 implies #[trigger] names_next(
            patterns,
            world,
            part,
            k,
        ) by {
            assert(names_next(patterns, world, chain, i + k));
        }
        assert(is_chain(patterns, world, part));
        lemma_chain_stays_within(patterns, world, set, chain, i);
        assert(part.first() == chain[i] && part.last() == chain[j]);
    }
    assert(chain.no_duplicates());
    chain.unique_seq_to_set();
    assert forall|x: Seq<char>| #[trigger] chain.to_set().contains(x) implies set.contains(x) by {
        let i = choose|i: int| 0 <= i < chain.len() && chain[i] == x;
        lemma_chain_stays_within(patterns, world, set, chain, i);
    }
    vstd::set_lib::lemma_len_subset(chain.to_set(), set);
}

/// Whether a chain of a length starts with a file.
spec fn has_chain(patterns: PatternsView, world: World, file: Seq<char>, len: nat) -> bool {
    exists|chain: Seq<Seq<char>>| #[trigger]
        is_chain(patterns, world, chain) && chain.len() == len && len > 0 && chain.first() == file
}

/// The length of the longest chain that starts with a file, up to a limit.
spec fn longest(patterns: PatternsView, world: World, file: Seq<char>, limit: nat) -> nat
    decreases limit,
{
    if limit == 0 {
        0
    } else if has_chain(patterns, world, file, limit) {
        limit
    } else {
        longest(patterns, world, file, (limit - 1) as nat)
    }
}

proof fn lemma_longest(
    patterns: PatternsView,
    world: World,
    file: Seq<char>,
    limit: nat,
    len: nat,
)
    requires
        len <= limit,
        has_chain(patterns, world, file, len),
    ensures
        len <= longest(patterns, world, file, limit) <= limit,
        has_chain(patterns, world, file, longest(patterns, world, file, limit)),
    decreases limit,
{
    if !has_chain(patterns, world, file, limit) {
        lemma_longest(patterns, world, file, (limit - 1) as nat, len);
    }
}

/// Where a directory names finitely many files, and none of them leads back to itself, a scan comes to
/// its end; and to a fingerprint, where none of the files would end it before.
pub proof fn law_scan_ends(
    patterns: PatternsView,
    world: World,
    files: Seq<FoundFile>,
    set: Set<Seq<char>>,
) -> (n: nat)
    requires
        initial_state(patterns, files) is Some,
        set.finite(),
        roots(patterns, files).subset_of(set),
        is_closed(patterns, world, set),
        is_acyclic(patterns, world, set),
    ensures
        is_last(scanned(patterns, world, initial_state(patterns, files)->0, n).1),
        (forall|x: Seq<char>| #[trigger] set.contains(x) ==> is_fine(patterns, world, x))
            ==> scanned(patterns, world, initial_state(patterns, files)->0, n).1 is Hash,
{
    let start = initial_state(patterns, files)->0;
    lemma_initial_state(patterns, files);
    let limit = set.len();
    let rank = |x: Seq<char>| longest(patterns, world, x, limit);
    assert forall|x: Seq<char>| #[trigger] set.contains(x) implies 0 < rank(x) <= limit && has_chain(
        patterns,
        world,
        x,
        rank(x),
    ) by {
        let chain = seq![x];
        assert(is_chain(patterns, world, chain) && chain.first() == x);
        lemma_chain_is_short(patterns, world, set, chain);
        lemma_longest(patterns, world, x, limit, 1);
    }
    assert forall|path: Seq<char>, file: Seq<char>|
        set.contains(path) && #[trigger] named_by(patterns, world, path).contains(
            file,
        ) implies rank(file) < rank(path) by {
        assert(set.contains(file));
        let len = rank(file);
        let rest = choose|chain: Seq<Seq<char>>| #[trigger]
            is_chain(patterns, world, chain) && chain.len() == len && len > 0 && chain.first()
                == file;
        let chain = seq![path] + rest;
        assert forall|i: int| 0 <= i < chain.len() - 1 implies #[trigger] names_next(
            patterns,
            world,
            chain,
            i,
        ) by {
            if i > 0 {
                assert(names_next(patterns, world, rest, i - 1));
            }
        }
        assert(is_chain(patterns, world, chain) && chain.first() == path);
        lemma_chain_is_short(patterns, world, set, chain);
        lemma_longest(patterns, world, path, limit, len + 1);
    }
    assert forall|x: Seq<char>| #[trigger] start.queue.contains(x) implies set.contains(x) by {
        assert(roots(patterns, files).contains(x));
    }
    lemma_ends(patterns, world, start, set, rank, limit + 1, 0)
}

// ---------------------------------------------------------------------------------------------
// Where the directory is, and in which order its files are listed
// ---------------------------------------------------------------------------------------------

/// A file system below a directory. What it says of a file is given by the rest of its path behind
/// the directory, and no name leads out of the directory.
pub open spec fn below(dir: Seq<char>, tree: World) -> World {
    World {
        extension: |path: Seq<char>| (tree.extension)(path.skip(dir.len() as int)),
        text: |path: Seq<char>| (tree.text)(path.skip(dir.len() as int)),
        found: |path: Seq<char>, name: Seq<char>|
            match (tree.found)(path.skip(dir.len() as int), name) {
                Some(rest) => Some(dir + rest),
                None => None,
            },
    }
}

/// What a list of files says: the path and the relative path of each.
pub open spec fn listing(files: Seq<FoundFile>) -> Seq<(Seq<char>, Option<Seq<char>>)> {
    files.map_values(|f: FoundFile| (f.path@, opt_text(f.relative)))
}

/// Whether a list holds the files of a tree below a directory, in whatever order. The files of the
/// tree are given by the rests of their paths and by their relative paths.
pub open spec fn lists(
    dir: Seq<char>,
    tree: Seq<(Seq<char>, Option<Seq<char>>)>,
    files: Seq<FoundFile>,
) -> bool {
    listing(files).to_multiset() == tree.map_values(
        |t: (Seq<char>, Option<Seq<char>>)| (dir + t.0, t.1),
    ).to_multiset()
}

proof fn lemma_rest(dir: Seq<char>, rest: Seq<char>)
    ensures
        (dir + rest).skip(dir.len() as int) == rest,
{
    assert((dir + rest).skip(dir.len() as int) =~= rest);
}

/// A file is listed below one directory as it is below the other.
proof fn lemma_listed(
    dir: Seq<char>,
    tree: Seq<(Seq<char>, Option<Seq<char>>)>,
    files: Seq<FoundFile>,
    patterns: PatternsView,
    path: Seq<char>,
    class: Option<FileClass>,
)
    requires
        lists(dir, tree, files),
    ensures
        (exists|i: int|
            0 <= i < files.len() && (#[trigger] files[i]).path@ == path && found_class(
                patterns,
                files[i],
            ) == class) <==> (exists|k: int|
            0 <= k < tree.len() && path == dir + (#[trigger] tree[k]).0 && class_in_tree(
                patterns,
                tree[k].1,
            ) == class),
{
    let all = listing(files);
    let moved = tree.map_values(|t: (Seq<char>, Option<Seq<char>>)| (dir + t.0, t.1));
    if exists|i: int|
        0 <= i < files.len() && (#[trigger] files[i]).path@ == path && found_class(
            patterns,
            files[i],
        ) == class {
        let i = choose|i: int|
            0 <= i < files.len() && (#[trigger] files[i]).path@ == path && found_class(
                patterns,
                files[i],
            ) == class;
        assert(all.contains(all[i]));
        vstd::seq_lib::to_multiset_contains(all, all[i]);
        vstd::seq_lib::to_multiset_contains(moved, all[i]);
        let k = choose|k: int| 0 <= k < moved.len() && moved[k] == all[i];
        assert(moved[k] == (dir + tree[k].0, tree[k].1));
    }
    if exists|k: int|
        0 <= k < tree.len() && path == dir + (#[trigger] tree[k]).0 && class_in_tree(
            patterns,
            tree[k].1,
        ) == class {
        let k = choose|k: int|
            0 <= k < tree.len() && path == dir + (#[trigger] tree[k]).0 && class_in_tree(
                patterns,
                tree[k].1,
            ) == class;
        assert(moved[k] == (path, tree[k].1));
        assert(moved.contains(moved[k]));
        vstd::seq_lib::to_multiset_contains(moved, moved[k]);
        vstd::seq_lib::to_multiset_contains(all, moved[k]);
        let i = choose|i: int| 0 <= i < all.len() && all[i] == moved[k];
        assert(all[i] == (files[i].path@, opt_text(files[i].relative)));
        assert(files[i].path@ == path);
    }
}

/// The class of a file, given its relative path.
pub open spec fn class_in_tree(patterns: PatternsView, relative: Option<Seq<char>>) -> Option<
    FileClass,
> {
    match relative {
        None => None,
        Some(text) => class_of(patterns, text),
    }
}

/// Names below a directory mean what they mean in the tree.
proof fn lemma_found_below(
    dir: Seq<char>,
    tree: World,
    rest: Seq<char>,
    names: Seq<Seq<char>>,
)
    ensures
        all_found(below(dir, tree), dir + rest, names) == (match all_found(tree, rest, names) {
            Some(files) => Some(files.map_values(|f: Seq<char>| dir + f)),
            None => None,
        }),
    decreases names.len(),
{
    let moved = |f: Seq<char>| dir + f;
    if names.len() == 0 {
        assert(Seq::<Seq<char>>::empty().map_values(moved) == Seq::<Seq<char>>::empty());
    } else {
        lemma_rest(dir, rest);
        lemma_found_below(dir, tree, rest, names.drop_last());
        if let (Some(before), Some(file)) = (
            all_found(tree, rest, names.drop_last()),
            (tree.found)(rest, names.last()),
        ) {
            assert(before.push(file).map_values(moved) == before.map_values(moved).push(
                dir + file,
            ));
        }
    }
}

/// A file below a directory names what it names in the tree.
proof fn lemma_named_below(
    patterns: PatternsView,
    dir: Seq<char>,
    tree: World,
    rest: Seq<char>,
)
    ensures
        named_by(patterns, below(dir, tree), dir + rest) == named_by(
            patterns,
            tree,
            rest,
        ).map_values(|f: Seq<char>| dir + f),
        is_fine(patterns, below(dir, tree), dir + rest) == is_fine(patterns, tree, rest),
{
    let moved = |f: Seq<char>| dir + f;
    lemma_rest(dir, rest);
    assert(rules_of(patterns, below(dir, tree), dir + rest) == rules_of(patterns, tree, rest));
    assert(Seq::<Seq<char>>::empty().map_values(moved) == Seq::<Seq<char>>::empty());
    if let Some(rules) = rules_of(patterns, tree, rest) {
        lemma_found_below(dir, tree, rest, named_in_text(rules, (tree.text)(rest)).names);
    }
}

/// What is reached below one directory, moved to another.
spec fn moved_set(from: Seq<char>, to: Seq<char>, files: Set<Seq<char>>) -> Set<Seq<char>> {
    Set::new(
        |x: Seq<char>| exists|rest: Seq<char>| x == to + rest && files.contains(#[trigger] (from + rest)),
    )
}

proof fn lemma_moved_is_closed(
    patterns: PatternsView,
    from: Seq<char>,
    to: Seq<char>,
    tree: World,
    files: Set<Seq<char>>,
)
    requires
        is_closed(patterns, below(from, tree), files),
    ensures
        is_closed(patterns, below(to, tree), moved_set(from, to, files)),
{
    let other = moved_set(from, to, files);
    assert forall|path: Seq<char>, file: Seq<char>|
        other.contains(path) && #[trigger] named_by(patterns, below(to, tree), path).contains(
            file,
        ) implies other.contains(file) by {
        let rest = choose|rest: Seq<char>|
            path == to + rest && files.contains(#[trigger] (from + rest));
        lemma_named_below(patterns, from, tree, rest);
        lemma_named_below(patterns, to, tree, rest);
        let names = named_by(patterns, tree, rest);
        let there = names.map_values(|f: Seq<char>| to + f);
        let here = names.map_values(|f: Seq<char>| from + f);
        let k = choose|k: int| 0 <= k < there.len() && there[k] == file;
        assert(file == to + names[k]);
        assert(here[k] == from + names[k]);
        assert(here.contains(from + names[k]));
        assert(named_by(patterns, below(from, tree), from + rest).contains(from + names[k]));
        assert(files.contains(from + names[k]));
    }
}

proof fn lemma_moved_roots(
    patterns: PatternsView,
    from: Seq<char>,
    to: Seq<char>,
    tree: Seq<(Seq<char>, Option<Seq<char>>)>,
    files_from: Seq<FoundFile>,
    files_to: Seq<FoundFile>,
    set: Set<Seq<char>>,
)
    requires
        lists(from, tree, files_from),
        lists(to, tree, files_to),
        roots(patterns, files_from).subset_of(set),
    ensures
        roots(patterns, files_to).subset_of(moved_set(from, to, set)),
{
    let class = Some(FileClass::Searched);
    assert forall|x: Seq<char>| #[trigger] roots(patterns, files_to).contains(x) implies moved_set(
        from,
        to,
        set,
    ).contains(x) by {
        lemma_listed(to, tree, files_to, patterns, x, class);
        let k = choose|k: int|
            0 <= k < tree.len() && x == to + (#[trigger] tree[k]).0 && class_in_tree(
                patterns,
                tree[k].1,
            ) == class;
        let rest = tree[k].0;
        lemma_listed(from, tree, files_from, patterns, from + rest, class);
        assert(from + rest == from + tree[k].0);
        assert(roots(patterns, files_from).contains(from + rest));
        assert(set.contains(from + rest));
    }
}

/// The files of one least set, moved, hold those of the other.
proof fn lemma_least_moved(
    patterns: PatternsView,
    from: Seq<char>,
    to: Seq<char>,
    tree: World,
    listed: Seq<(Seq<char>, Option<Seq<char>>)>,
    files_from: Seq<FoundFile>,
    files_to: Seq<FoundFile>,
    least_from: Set<Seq<char>>,
    least_to: Set<Seq<char>>,
)
    requires
        lists(from, listed, files_from),
        lists(to, listed, files_to),
        is_least(patterns, below(from, tree), roots(patterns, files_from), least_from),
        is_least(patterns, below(to, tree), roots(patterns, files_to), least_to),
    ensures
        forall|x: Seq<char>| #[trigger]
            least_to.contains(x) ==> exists|rest: Seq<char>|
                x == to + rest && least_from.contains(#[trigger] (from + rest)),
{
    lemma_moved_is_closed(patterns, from, to, tree, least_from);
    lemma_moved_roots(patterns, from, to, listed, files_from, files_to, least_from);
    let other = moved_set(from, to, least_from);
    assert(least_to.subset_of(other));
    assert forall|x: Seq<char>| #[trigger] least_to.contains(x) implies exists|rest: Seq<char>|
        x == to + rest && least_from.contains(#[trigger] (from + rest)) by {
        assert(other.contains(x));
    }
}

/// The rests of the paths of hashed files.
pub open spec fn rests(dir: Seq<char>, hashed: Seq<Seq<char>>) -> Seq<Seq<char>> {
    hashed.map_values(|path: Seq<char>| path.skip(dir.len() as int))
}

proof fn lemma_same_items<A>(a: Seq<A>, b: Seq<A>)
    requires
        a.no_duplicates(),
        b.no_duplicates(),
        forall|x: A| #[trigger] a.contains(x) <==> b.contains(x),
    ensures
        a.to_multiset() == b.to_multiset(),
{
    a.lemma_multiset_has_no_duplicates();
    b.lemma_multiset_has_no_duplicates();
    assert forall|x: A| #[trigger] a.to_multiset().count(x) == b.to_multiset().count(x) by {
        vstd::seq_lib::to_multiset_contains(a, x);
        vstd::seq_lib::to_multiset_contains(b, x);
        assert(a.contains(x) <==> b.contains(x));
        assert(a.to_multiset().contains(x) <==> a.to_multiset().count(x) > 0);
        assert(b.to_multiset().contains(x) <==> b.to_multiset().count(x) > 0);
    }
    assert(a.to_multiset() =~= b.to_multiset());
}

/// A file that is hashed below one directory is hashed below the other.
proof fn lemma_hashed_moved(
    patterns: PatternsView,
    from: Seq<char>,
    to: Seq<char>,
    listed: Seq<(Seq<char>, Option<Seq<char>>)>,
    files_from: Seq<FoundFile>,
    files_to: Seq<FoundFile>,
    least_from: Set<Seq<char>>,
    least_to: Set<Seq<char>>,
    hashed_from: Seq<Seq<char>>,
    hashed_to: Seq<Seq<char>>,
    x: Seq<char>,
)
    requires
        lists(from, listed, files_from),
        lists(to, listed, files_to),
        forall|x: Seq<char>| #[trigger]
            least_from.contains(x) ==> exists|rest: Seq<char>|
                x == from + rest && least_to.contains(#[trigger] (to + rest)),
        forall|x: Seq<char>| #[trigger]
            hashed_from.contains(x) <==> least_from.contains(x) || has_class(
                patterns,
                files_from,
                x,
                FileClass::Counted,
            ),
        forall|x: Seq<char>| #[trigger]
            hashed_to.contains(x) <==> least_to.contains(x) || has_class(
                patterns,
                files_to,
                x,
                FileClass::Counted,
            ),
        hashed_from.contains(x),
    ensures
        x == from + x.skip(from.len() as int),
        hashed_to.contains(to + x.skip(from.len() as int)),
{
    if least_from.contains(x) {
        let rest = choose|rest: Seq<char>|
            x == from + rest && least_to.contains(#[trigger] (to + rest));
        lemma_rest(from, rest);
        assert(hashed_to.contains(to + rest));
    } else {
        let class = Some(FileClass::Counted);
        lemma_listed(from, listed, files_from, patterns, x, class);
        let k = choose|k: int|
            0 <= k < listed.len() && x == from + (#[trigger] listed[k]).0 && class_in_tree(
                patterns,
                listed[k].1,
            ) == class;
        let rest = listed[k].0;
        lemma_rest(from, rest);
        lemma_listed(to, listed, files_to, patterns, to + rest, class);
        assert(to + rest == to + listed[k].0);
        assert(has_class(patterns, files_to, to + rest, FileClass::Counted));
        assert(hashed_to.contains(to + rest));
    }
}

proof fn lemma_rests(from: Seq<char>, hashed: Seq<Seq<char>>)
    requires
        hashed.no_duplicates(),
        forall|x: Seq<char>| #[trigger]
            hashed.contains(x) ==> x == from + x.skip(from.len() as int),
    ensures
        rests(from, hashed).no_duplicates(),
        forall|r: Seq<char>| #[trigger]
            rests(from, hashed).contains(r) <==> hashed.contains(from + r),
{
    let list = rests(from, hashed);
    assert forall|i: int, j: int| 0 <= i < list.len() && 0 <= j < list.len() && i != j implies list[i]
        != list[j] by {
        assert(hashed.contains(hashed[i]));
        assert(hashed.contains(hashed[j]));
        assert(list[i] == hashed[i].skip(from.len() as int));
        assert(list[j] == hashed[j].skip(from.len() as int));
    }
    assert forall|r: Seq<char>| #[trigger] list.contains(r) <==> hashed.contains(from + r) by {
        if list.contains(r) {
            let i = choose|i: int| 0 <= i < list.len() && list[i] == r;
            assert(hashed.contains(hashed[i]));
            assert(hashed[i] == from + r);
        }
        if hashed.contains(from + r) {
            let i = choose|i: int| 0 <= i < hashed.len() && hashed[i] == from + r;
            lemma_rest(from, r);
            assert(list[i] == r);
        }
    }
}

/// The contents of hashed files, given by the rests of their paths.
pub open spec fn contents_of(
    dir: Seq<char>,
    hashed: Seq<Seq<char>>,
    contents: spec_fn(Seq<char>) -> Seq<u8>,
) -> Seq<Seq<u8>> {
    rests(dir, hashed).map_values(contents)
}

/// The fingerprint of a directory depends neither on where the directory is nor on the order in which
/// its files are listed: two scans of the same tree, below two directories and with its files listed
/// in any order, hash files with the same contents.
pub proof fn law_same_tree_same_fingerprint(
    patterns: PatternsView,
    tree: World,
    listed: Seq<(Seq<char>, Option<Seq<char>>)>,
    contents: spec_fn(Seq<char>) -> Seq<u8>,
    a: Seq<char>,
    files_a: Seq<FoundFile>,
    n: nat,
    hashed_a: Seq<Seq<char>>,
    b: Seq<char>,
    files_b: Seq<FoundFile>,
    m: nat,
    hashed_b: Seq<Seq<char>>,
)
    requires
        lists(a, listed, files_a),
        lists(b, listed, files_b),
        initial_state(patterns, files_a) is Some,
        initial_state(patterns, files_b) is Some,
        scanned(patterns, below(a, tree), initial_state(patterns, files_a)->0, n).1
            == ActionView::Hash(hashed_a),
        scanned(patterns, below(b, tree), initial_state(patterns, files_b)->0, m).1
            == ActionView::Hash(hashed_b),
    ensures
        contents_of(a, hashed_a, contents).to_multiset() == contents_of(
            b,
            hashed_b,
            contents,
        ).to_multiset(),
        files_fingerprint(contents_of(a, hashed_a, contents)) == files_fingerprint(
            contents_of(b, hashed_b, contents),
        ),
{
    let least_a = law_least_set_is_hashed(patterns, below(a, tree), files_a, n, hashed_a);
    let least_b = law_least_set_is_hashed(patterns, below(b, tree), files_b, m, hashed_b);
    lemma_least_moved(patterns, a, b, tree, listed, files_a, files_b, least_a, least_b);
    lemma_least_moved(patterns, b, a, tree, listed, files_b, files_a, least_b, least_a);
    assert forall|x: Seq<char>| #[trigger] hashed_a.contains(x) implies x == a + x.skip(
        a.len() as int,
    ) && hashed_b.contains(b + x.skip(a.len() as int)) by {
        lemma_hashed_moved(
            patterns,
            a,
            b,
            listed,
            files_a,
            files_b,
            least_a,
            least_b,
            hashed_a,
            hashed_b,
            x,
        );
    }
    assert forall|x: Seq<char>| #[trigger] hashed_b.contains(x) implies x == b + x.skip(
        b.len() as int,
    ) && hashed_a.contains(a + x.skip(b.len() as int)) by {
        lemma_hashed_moved(
            patterns,
            b,
            a,
            listed,
            files_b,
            files_a,
            least_b,
            least_a,
            hashed_b,
            hashed_a,
            x,
        );
    }
    lemma_rests(a, hashed_a);
    lemma_rests(b, hashed_b);
    let rests_a = rests(a, hashed_a);
    let rests_b = rests(b, hashed_b);
    assert forall|r: Seq<char>| #[trigger] rests_a.contains(r) <==> rests_b.contains(r) by {
        lemma_rest(a, r);
        lemma_rest(b, r);
        if hashed_a.contains(a + r) {
            assert(hashed_b.contains(b + (a + r).skip(a.len() as int)));
        }
        if hashed_b.contains(b + r) {
            assert(hashed_a.contains(a + (b + r).skip(b.len() as int)));
        }
    }
    lemma_same_items(rests_a, rests_b);
    lemma_same_items_mapped(rests_a, rests_b, contents);
    law_order_of_files(contents_of(a, hashed_a, contents), contents_of(b, hashed_b, contents));
}

// ---------------------------------------------------------------------------------------------
// Whether a scan comes to its end
// ---------------------------------------------------------------------------------------------

/// The files that a scan has turned to, and behind them those that wait.
spec fn in_turn(patterns: PatternsView, world: World, start: ScanState, n: nat) -> Seq<Seq<char>> {
    searched(patterns, world, start, n) + scanned(patterns, world, start, n).0.queue
}

/// Whether a file that a file names comes behind it.
spec fn comes_later(list: Seq<Seq<char>>, i: int, file: Seq<char>) -> bool {
    exists|j: int| i < j < list.len() && #[trigger] list[j] == file
}

/// What a file names comes behind it, once it is done with.
proof fn lemma_names_come_later(patterns: PatternsView, world: World, start: ScanState, n: nat)
    requires
        start.stage is Ready,
    ensures
        ({
            let files = searched(patterns, world, start, n);
            let action = scanned(patterns, world, start, n).1;
            forall|i: int, file: Seq<char>|
                0 <= i < files.len() && (i < files.len() - 1 || action is Hash)
                    && #[trigger] named_by(patterns, world, files[i]).contains(file)
                    ==> comes_later(in_turn(patterns, world, start, n), i, file)
        }),
    decreases n,
{
    let files = searched(patterns, world, start, n);
    let (next, asked) = scanned(patterns, world, start, n);
    let list = in_turn(patterns, world, start, n);
    if n > 0 {
        let before = (n - 1) as nat;
        lemma_names_come_later(patterns, world, start, before);
        lemma_keeps(patterns, world, start, before);
        lemma_keeps(patterns, world, start, n);
        let (s, action) = scanned(patterns, world, start, before);
        let old_files = searched(patterns, world, start, before);
        let old_list = in_turn(patterns, world, start, before);
        let queue = match (is_last(action), answer_to(world, action)) {
            (false, EventView::Found(Some(paths))) => s.queue + paths,
            _ => s.queue,
        };
        assert(list == old_files + queue) by {
            if asked is TellExtension && !is_last(action) {
                assert(files == old_files.push(queue.first()));
                assert(next.queue == queue.drop_first());
                assert(old_files.push(queue.first()) + queue.drop_first() == old_files + queue);
            } else {
                assert(files == old_files);
                assert(next.queue == queue);
            }
        }
        assert forall|i: int, file: Seq<char>|
            0 <= i < files.len() && (i < files.len() - 1 || asked is Hash) && #[trigger] named_by(
                patterns,
                world,
                files[i],
            ).contains(file) implies comes_later(list, i, file) by {
            assert(i < old_files.len());
            assert(files[i] == old_files[i]);
            if i < old_files.len() - 1 || action is Hash {
                assert(named_by(patterns, world, old_files[i]).contains(file));
                let j = choose|j: int| i < j < old_list.len() && #[trigger] old_list[j] == file;
                assert(list[j] == old_list[j]);
            } else {
                match action {
                    ActionView::FindFiles(path, names) => {
                        let paths = all_found(world, path, names)->0;
                        assert(named_by(patterns, world, path) == paths);
                        let k = choose|k: int| 0 <= k < paths.len() && paths[k] == file;
                        let j = old_files.len() + s.queue.len() + k;
                        assert(list[j] == file);
                    },
                    _ => {
                        assert(named_by(patterns, world, files[i]).len() == 0);
                    },
                }
            }
        }
    }
}

/// How far the last place of a file is from the end of a list; 0 where it does not occur.
pub open spec fn rank_in(list: Seq<Seq<char>>, file: Seq<char>) -> nat
    decreases list.len(),
{
    if list.len() == 0 {
        0
    } else if list.first() == file && !list.drop_first().contains(file) {
        list.len()
    } else {
        rank_in(list.drop_first(), file)
    }
}

proof fn lemma_rank(list: Seq<Seq<char>>, i: int, file: Seq<char>)
    requires
        0 <= i < list.len(),
        list[i] == file,
    ensures
        rank_in(list, file) <= list.len() - i,
        exists|k: int|
            i <= k < list.len() && #[trigger] list[k] == file && rank_in(list, file) == list.len()
                - k,
    decreases list.len(),
{
    let rest = list.drop_first();
    if list.first() == file && !rest.contains(file) {
        if i > 0 {
            assert(rest[i - 1] == file);
        }
        assert(list[0] == file);
    } else if i > 0 {
        assert(rest[i - 1] == file);
        lemma_rank(rest, i - 1, file);
        let k = choose|k: int|
            i - 1 <= k < rest.len() && #[trigger] rest[k] == file && rank_in(rest, file)
                == rest.len() - k;
        assert(list[k + 1] == file);
    } else {
        let j = choose|j: int| 0 <= j < rest.len() && rest[j] == file;
        lemma_rank(rest, j, file);
        let k = choose|k: int|
            j <= k < rest.len() && #[trigger] rest[k] == file && rank_in(rest, file) == rest.len()
                - k;
        assert(list[k + 1] == file);
    }
}

proof fn lemma_no_class(patterns: PatternsView, files: Seq<FoundFile>)
    ensures
        initial_state(patterns, files) is None <==> exists|i: int|
            0 <= i < files.len() && found_class(patterns, #[trigger] files[i]) is None,
    decreases files.len(),
{
    if files.len() > 0 {
        let shorter = files.drop_last();
        lemma_no_class(patterns, shorter);
        if exists|i: int| 0 <= i < shorter.len() && found_class(patterns, #[trigger] shorter[i]) is None {
            let i = choose|i: int|
                0 <= i < shorter.len() && found_class(patterns, #[trigger] shorter[i]) is None;
            assert(found_class(patterns, files[i]) is None);
        }
        if found_class(patterns, files.last()) is None {
            assert(found_class(patterns, files[files.len() - 1]) is None);
        }
        if exists|i: int| 0 <= i < files.len() && found_class(patterns, #[trigger] files[i]) is None {
            let i = choose|i: int|
                0 <= i < files.len() && found_class(patterns, #[trigger] files[i]) is None;
            if i < shorter.len() {
                assert(found_class(patterns, shorter[i]) is None);
            }
        }
    }
}

/// Where one scan of a tree comes to a fingerprint, so does every other: below another directory, and
/// with the files listed in another order.
pub proof fn law_same_tree_same_end(
    patterns: PatternsView,
    tree: World,
    listed: Seq<(Seq<char>, Option<Seq<char>>)>,
    a: Seq<char>,
    files_a: Seq<FoundFile>,
    n: nat,
    b: Seq<char>,
    files_b: Seq<FoundFile>,
)
    requires
        lists(a, listed, files_a),
        lists(b, listed, files_b),
        initial_state(patterns, files_a) is Some,
        scanned(patterns, below(a, tree), initial_state(patterns, files_a)->0, n).1 is Hash,
    ensures
        initial_state(patterns, files_b) is Some,
        exists|m: nat|
            (#[trigger] scanned(
                patterns,
                below(b, tree),
                initial_state(patterns, files_b)->0,
                m,
            )).1 is Hash,
{
    lemma_no_class(patterns, files_a);
    lemma_no_class(patterns, files_b);
    if initial_state(patterns, files_b) is None {
        let i = choose|i: int|
            0 <= i < files_b.len() && found_class(patterns, #[trigger] files_b[i]) is None;
        lemma_listed(b, listed, files_b, patterns, files_b[i].path@, None);
        let k = choose|k: int|
            0 <= k < listed.len() && files_b[i].path@ == b + (#[trigger] listed[k]).0
                && class_in_tree(patterns, listed[k].1) == None::<FileClass>;
        lemma_listed(a, listed, files_a, patterns, a + listed[k].0, None);
    }
    let world_a = below(a, tree);
    let world_b = below(b, tree);
    let start_a = initial_state(patterns, files_a)->0;
    let start_b = initial_state(patterns, files_b)->0;
    lemma_initial_state(patterns, files_a);
    lemma_initial_state(patterns, files_b);
    // Every file below `a` that is reached is one that the scan has turned to.
    let done = searched(patterns, world_a, start_a, n);
    let reached = Set::new(|x: Seq<char>| done.contains(x));
    lemma_keeps(patterns, world_a, start_a, n);
    lemma_names_come_later(patterns, world_a, start_a, n);
    assert(in_turn(patterns, world_a, start_a, n) == done);
    assert(is_closed(patterns, world_a, reached)) by {
        assert forall|path: Seq<char>, file: Seq<char>|
            reached.contains(path) && #[trigger] named_by(patterns, world_a, path).contains(
                file,
            ) implies reached.contains(file) by {
            let i = choose|i: int| 0 <= i < done.len() && done[i] == path;
            assert(named_by(patterns, world_a, done[i]).contains(file));
            assert(comes_later(done, i, file));
        }
    }
    assert forall|x: Seq<char>| #[trigger] roots(patterns, files_a).contains(x) implies reached.contains(
        x,
    ) by {
        assert(start_a.queue.contains(x));
    }
    // The same files below `b`.
    let set = moved_set(a, b, reached);
    lemma_moved_is_closed(patterns, a, b, tree, reached);
    lemma_moved_roots(patterns, a, b, listed, files_a, files_b, reached);
    let rank = |x: Seq<char>| rank_in(done, a + x.skip(b.len() as int));
    let depth = done.len() + 1;
    assert forall|x: Seq<char>| #[trigger] set.contains(x) implies rank(x) <= depth && is_fine(
        patterns,
        world_b,
        x,
    ) by {
        let rest = choose|rest: Seq<char>| x == b + rest && reached.contains(#[trigger] (a + rest));
        lemma_rest(b, rest);
        let i = choose|i: int| 0 <= i < done.len() && done[i] == a + rest;
        lemma_rank(done, i, a + rest);
        assert(is_fine(patterns, world_a, done[i]));
        lemma_named_below(patterns, a, tree, rest);
        lemma_named_below(patterns, b, tree, rest);
    }
    assert forall|path: Seq<char>, file: Seq<char>|
        set.contains(path) && #[trigger] named_by(patterns, world_b, path).contains(
            file,
        ) implies rank(file) < rank(path) by {
        let rest = choose|rest: Seq<char>|
            path == b + rest && reached.contains(#[trigger] (a + rest));
        lemma_rest(b, rest);
        lemma_named_below(patterns, a, tree, rest);
        lemma_named_below(patterns, b, tree, rest);
        let names = named_by(patterns, tree, rest);
        let there = names.map_values(|f: Seq<char>| b + f);
        let here = names.map_values(|f: Seq<char>| a + f);
        let k = choose|k: int| 0 <= k < there.len() && there[k] == file;
        lemma_rest(b, names[k]);
        assert(here[k] == a + names[k]);
        assert(here.contains(a + names[k]));
        let i = choose|i: int| 0 <= i < done.len() && done[i] == a + rest;
        lemma_rank(done, i, a + rest);
        let last = choose|last: int|
            i <= last < done.len() && #[trigger] done[last] == a + rest && rank_in(done, a + rest)
                == done.len() - last;
        assert(named_by(patterns, world_a, done[last]).contains(a + names[k]));
        assert(comes_later(done, last, a + names[k]));
        let j = choose|j: int| last < j < done.len() && #[trigger] done[j] == a + names[k];
        lemma_rank(done, j, a + names[k]);
    }
    assert forall|x: Seq<char>| #[trigger] start_b.queue.contains(x) implies set.contains(x) by {
        assert(roots(patterns, files_b).contains(x));
    }
    let m = lemma_ends(patterns, world_b, start_b, set, rank, depth, 0);
    assert(scanned(patterns, world_b, start_b, m).1 is Hash);
}

} // verus!
