//! Finds a file whose path is given in the wrong case.
//!
//! A [`FileSearch`] climbs from the wanted path to the first directory that exists and then
//! descends again, at each level into the child whose name differs in nothing but ASCII case.

use vstd::prelude::*;

use crate::addon::opt_text;
use crate::text::{law_lower, lowered, same, texts, to_lower};

verus! {

/// What a search waits for.
#[derive(Debug, Clone, Copy, PartialEq, Eq)]
pub enum FindStage {
    /// News of the current path.
    Climbing,
    /// The children of the current directory.
    Listing,
    /// Word that the current path is now the chosen child.
    Entering,
    /// Nothing more.
    Over,
}

/// What a search is told.
#[derive(Debug, PartialEq)]
pub enum FindEvent {
    /// The current path exists.
    Exists,
    /// The current path does not exist; its last part, where it is a name.
    Missing(Option<String>),
    /// The names of the children of the current directory, as far as they are text; `None` where
    /// it cannot be listed.
    Children(Option<Vec<Option<String>>>),
    /// The current path is now the chosen child.
    Entered,
}

/// What a search asks for.
#[derive(Debug, Clone, Copy, PartialEq, Eq)]
pub enum FindAction {
    /// Go on with the directory above.
    GoUp,
    /// List the current directory.
    List,
    /// Go on with the child at this place of the list.
    Enter(usize),
    /// The current path is the file: the search is over.
    Found,
    /// There is no such file.
    GiveUp,
}

pub enum FindEventView {
    Exists,
    Missing(Option<Seq<char>>),
    Children(Option<Seq<Option<Seq<char>>>>),
    Entered,
}

/// The names in a list of children.
pub open spec fn child_names(children: Seq<Option<String>>) -> Seq<Option<Seq<char>>> {
    children.map_values(|name: Option<String>| opt_text(name))
}

impl View for FindEvent {
    type V = FindEventView;

    open spec fn view(&self) -> FindEventView {
        match *self {
            FindEvent::Exists => FindEventView::Exists,
            FindEvent::Missing(None) => FindEventView::Missing(None),
            FindEvent::Missing(Some(name)) => FindEventView::Missing(Some(name@)),
            FindEvent::Children(None) => FindEventView::Children(None),
            FindEvent::Children(Some(list)) => FindEventView::Children(Some(child_names(list@))),
            FindEvent::Entered => FindEventView::Entered,
        }
    }
}

/// The state of a search.
pub struct FileSearch {
    missing: Vec<String>,
    stage: FindStage,
}

/// What a [`FileSearch`] knows.
pub struct FindState {
    /// The names that are still to be found, the innermost first.
    pub missing: Seq<Seq<char>>,
    pub stage: FindStage,
}

/// A search lists a directory only while a name is to be found in it.
pub open spec fn is_sound(s: FindState) -> bool {
    s.stage is Listing ==> s.missing.len() > 0
}

/// Whether two names differ in nothing but ASCII case.
pub open spec fn same_name(a: Seq<char>, b: Seq<char>) -> bool {
    lowered(a) == lowered(b)
}

/// The place of the first child with a name.
pub open spec fn child_at(children: Seq<Option<Seq<char>>>, name: Seq<char>) -> Option<int>
    decreases children.len(),
{
    if children.len() == 0 {
        None
    } else {
        match child_at(children.drop_last(), name) {
            Some(i) => Some(i),
            None => match children.last() {
                Some(child) if same_name(child, name) => Some(children.len() - 1),
                _ => None,
            },
        }
    }
}

/// Turns to the next name, from the outermost on.
pub open spec fn descended(s: FindState) -> (FindState, FindAction) {
    if s.missing.len() == 0 {
        (FindState { stage: FindStage::Over, ..s }, FindAction::Found)
    } else {
        (FindState { stage: FindStage::Listing, ..s }, FindAction::List)
    }
}

/// Whether an event is what a search waits for.
pub open spec fn awaited(stage: FindStage, event: FindEventView) -> bool {
    match stage {
        FindStage::Climbing => event is Exists || event is Missing,
        FindStage::Listing => event is Children,
        FindStage::Entering => event is Entered,
        FindStage::Over => false,
    }
}

/// One step of a search.
pub open spec fn find_stepped(s: FindState, event: FindEventView) -> (FindState, FindAction) {
    let given_up = (FindState { stage: FindStage::Over, ..s }, FindAction::GiveUp);
    match (s.stage, event) {
        (FindStage::Climbing, FindEventView::Exists) => descended(s),
        (FindStage::Climbing, FindEventView::Missing(Some(name))) => (
            FindState { missing: s.missing.push(name), ..s },
            FindAction::GoUp,
        ),
        (FindStage::Listing, FindEventView::Children(Some(children))) => match child_at(
            children,
            s.missing.last(),
        ) {
            Some(i) => (
                FindState { missing: s.missing.drop_last(), stage: FindStage::Entering },
                FindAction::Enter(i as usize),
            ),
            None => given_up,
        },
        (FindStage::Entering, FindEventView::Entered) => descended(s),
        _ => given_up,
    }
}

/// The place of the first child whose name differs from `name` in nothing but ASCII case.
pub fn find_child(children: &Vec<Option<String>>, name: &str) -> (r: Option<usize>)
    ensures
        match r {
            Some(i) => child_at(child_names(children@), name@) == Some(i as int),
            None => child_at(child_names(children@), name@) is None,
        },
{
    let wanted = to_lower(name);
    let ghost all = child_names(children@);
    let mut i: usize = 0;
    while i < children.len()
        invariant
            i <= children@.len(),
            all == child_names(children@),
            wanted@ == lowered(name@),
            child_at(all.take(i as int), name@) is None,
        decreases children@.len() - i,
    {
        proof {
            assert(all.take(i + 1).drop_last() == all.take(i as int));
            assert(all[i as int] == opt_text(children@[i as int]));
        }
        if let Some(child) = &children[i] {
            let small = to_lower(child.as_str());
            if same(small.as_str(), wanted.as_str()) {
                proof {
                    lemma_child_stays(all, name@, i + 1);
                }
                return Some(i);
            }
        }
        i = i + 1;
    }
    assert(all.take(all.len() as int) == all);
    None
}

proof fn lemma_child_stays(children: Seq<Option<Seq<char>>>, name: Seq<char>, n: int)
    requires
        0 <= n <= children.len(),
        child_at(children.take(n), name) is Some,
    ensures
        child_at(children, name) == child_at(children.take(n), name),
    decreases children.len() - n,
{
    if n < children.len() {
        assert(children.take(n + 1).drop_last() == children.take(n));
        lemma_child_stays(children, name, n + 1);
    } else {
        assert(children.take(n) == children);
    }
}

impl FileSearch {
    /// The state of the search.
    pub closed spec fn state(&self) -> FindState {
        FindState { missing: texts(self.missing@), stage: self.stage }
    }

    /// Begins a search at the wanted path.
    pub fn new() -> (r: FileSearch)
        ensures
            is_sound(r.state()),
            r.state() == (FindState {
                missing: Seq::<Seq<char>>::empty(),
                stage: FindStage::Climbing,
            }),
    {
        let r = FileSearch { missing: Vec::new(), stage: FindStage::Climbing };
        assert(texts(r.missing@) == Seq::<Seq<char>>::empty());
        r
    }

    fn descend(&mut self) -> (r: FindAction)
        ensures
            (final(self).state(), r) == descended(old(self).state()),
    {
        if self.missing.len() == 0 {
            self.stage = FindStage::Over;
            FindAction::Found
        } else {
            self.stage = FindStage::Listing;
            FindAction::List
        }
    }

    /// Takes an event and says what is asked for next.
    pub fn step(&mut self, event: FindEvent) -> (r: FindAction)
        requires
            is_sound(old(self).state()),
            awaited(old(self).state().stage, event@),
        ensures
            is_sound(final(self).state()),
            (final(self).state(), r) == find_stepped(old(self).state(), event@),
    {
        let ghost before = self.missing@;
        match event {
            FindEvent::Exists => self.descend(),
            FindEvent::Missing(Some(name)) => {
                self.missing.push(name);
                assert(texts(self.missing@) == texts(before).push(name@));
                FindAction::GoUp
            },
            FindEvent::Children(Some(children)) => match self.missing.pop() {
                None => {
                    self.stage = FindStage::Over;
                    FindAction::GiveUp
                },
                Some(name) => match find_child(&children, name.as_str()) {
                    Some(i) => {
                        assert(texts(self.missing@)
                            == texts(before).drop_last());
                        self.stage = FindStage::Entering;
                        FindAction::Enter(i)
                    },
                    None => {
                        self.missing.push(name);
                        assert(self.missing@ == before);
                        self.stage = FindStage::Over;
                        FindAction::GiveUp
                    },
                },
            },
            FindEvent::Entered => self.descend(),
            _ => {
                self.stage = FindStage::Over;
                FindAction::GiveUp
            },
        }
    }
}

// ---------------------------------------------------------------------------------------------
// Whole searches
// ---------------------------------------------------------------------------------------------

/// The state of a search before its first event.
pub open spec fn find_start() -> FindState {
    FindState { missing: Seq::<Seq<char>>::empty(), stage: FindStage::Climbing }
}

/// The state after a sequence of events, and the action after each of them.
pub open spec fn find_run(events: Seq<FindEventView>) -> (FindState, Seq<FindAction>)
    decreases events.len(),
{
    if events.len() == 0 {
        (find_start(), Seq::<FindAction>::empty())
    } else {
        let (s, actions) = find_run(events.drop_last());
        let (next, action) = find_stepped(s, events.last());
        (next, actions.push(action))
    }
}

/// Whether each event is what the search waits for.
pub open spec fn all_awaited(events: Seq<FindEventView>) -> bool
    decreases events.len(),
{
    events.len() > 0 ==> {
        &&& all_awaited(events.drop_last())
        &&& awaited(find_run(events.drop_last()).0.stage, events.last())
    }
}

/// The names that the search climbed over, the innermost first.
pub open spec fn climbed(events: Seq<FindEventView>) -> Seq<Seq<char>>
    decreases events.len(),
{
    if events.len() == 0 {
        Seq::<Seq<char>>::empty()
    } else {
        match events.last() {
            FindEventView::Missing(Some(name)) => climbed(events.drop_last()).push(name),
            _ => climbed(events.drop_last()),
        }
    }
}

/// The names of the children that the search entered, the outermost first.
pub open spec fn entered(events: Seq<FindEventView>) -> Seq<Seq<char>>
    decreases events.len(),
{
    if events.len() == 0 {
        Seq::<Seq<char>>::empty()
    } else {
        match (events.last(), find_run(events).1.last()) {
            (FindEventView::Children(Some(children)), FindAction::Enter(i)) => entered(
                events.drop_last(),
            ).push(children[i as int]->0),
            _ => entered(events.drop_last()),
        }
    }
}

/// Names with ASCII capitals made small.
pub open spec fn all_lowered(names: Seq<Seq<char>>) -> Seq<Seq<char>> {
    names.map_values(|name: Seq<char>| lowered(name))
}

/// A search enters the first child with the wanted name, and none only where there is none.
pub proof fn law_first_child_is_entered(children: Seq<Option<Seq<char>>>, name: Seq<char>)
    ensures
        child_at(children, name) matches Some(i) ==> 0 <= i < children.len() && (
        children[i] matches Some(child) && same_name(child, name)) && (forall|j: int|
            0 <= j < i ==> !(#[trigger] children[j] matches Some(child) && same_name(child, name))),
        child_at(children, name) is None ==> forall|j: int|
            0 <= j < children.len() ==> !(#[trigger] children[j] matches Some(child) && same_name(
                child,
                name,
            )),
    decreases children.len(),
{
    if children.len() > 0 {
        law_first_child_is_entered(children.drop_last(), name);
        assert forall|j: int| 0 <= j < children.len() - 1 implies children.drop_last()[j]
            == #[trigger] children[j] by {}
    }
}

proof fn lemma_find_run(events: Seq<FindEventView>)
    requires
        all_awaited(events),
        forall|k: int|
            0 <= k < events.len() ==> (#[trigger] events[k] matches FindEventView::Children(
                Some(children),
            ) ==> children.len() <= usize::MAX),
    ensures
        ({
            let s = find_run(events).0;
            &&& is_sound(s)
            &&& s.stage is Climbing ==> entered(events).len() == 0
            &&& all_lowered(s.missing) + all_lowered(entered(events)).reverse() == all_lowered(
                climbed(events),
            )
        }),
    decreases events.len(),
{
    if events.len() == 0 {
        assert(all_lowered(find_start().missing) + all_lowered(entered(events)).reverse()
            == all_lowered(climbed(events)));
    } else {
        let shorter = events.drop_last();
        assert forall|k: int| 0 <= k < shorter.len() implies (
        #[trigger] shorter[k] matches FindEventView::Children(Some(children)) ==> children.len()
            <= usize::MAX) by {
            assert(shorter[k] == events[k]);
        }
        lemma_find_run(shorter);
        let (s, actions) = find_run(shorter);
        let (next, action) = find_stepped(s, events.last());
        assert(actions.push(action).last() == action);
        assert(events[events.len() - 1] == events.last());
        match (s.stage, events.last()) {
            (FindStage::Climbing, FindEventView::Missing(Some(name))) => {
                assert(entered(events) == entered(shorter));
                assert(all_lowered(s.missing) == all_lowered(climbed(shorter)));
                assert(all_lowered(next.missing) == all_lowered(s.missing).push(lowered(name)));
                assert(all_lowered(climbed(events)) == all_lowered(climbed(shorter)).push(
                    lowered(name),
                ));
                assert(all_lowered(next.missing) + all_lowered(entered(events)).reverse()
                    == all_lowered(climbed(events)));
            },
            (FindStage::Listing, FindEventView::Children(Some(children))) => {
                law_first_child_is_entered(children, s.missing.last());
                if let FindAction::Enter(i) = action {
                    let child = children[i as int]->0;
                    let before = all_lowered(entered(shorter));
                    assert(entered(events) == entered(shorter).push(child));
                    assert(all_lowered(entered(events)) == before.push(lowered(child)));
                    assert(before.push(lowered(child)).reverse() == seq![lowered(child)]
                        + before.reverse());
                    assert(all_lowered(s.missing) == all_lowered(next.missing).push(
                        lowered(child),
                    ));
                    assert(all_lowered(next.missing) + all_lowered(entered(events)).reverse()
                        == all_lowered(climbed(events)));
                }
            },
            _ => {},
        }
    }
}

/// A file that is found has the wanted path in all but ASCII case: the names that the search
/// entered are the names that it climbed over, from the outermost to the innermost.
pub proof fn law_found_path_is_the_wanted_one(events: Seq<FindEventView>)
    requires
        all_awaited(events),
        forall|k: int|
            0 <= k < events.len() ==> (#[trigger] events[k] matches FindEventView::Children(
                Some(children),
            ) ==> children.len() <= usize::MAX),
        events.len() > 0,
        find_run(events).1.last() == FindAction::Found,
    ensures
        all_lowered(entered(events)) == all_lowered(climbed(events)).reverse(),
{
    lemma_find_run(events);
    let found = all_lowered(entered(events));
    assert(find_run(events).0.missing.len() == 0);
    assert(all_lowered(climbed(events)) == found.reverse());
    assert(found.reverse().reverse() == found);
}

// ---------------------------------------------------------------------------------------------
// Searches in a tree of directories
// ---------------------------------------------------------------------------------------------

/// A tree of directories. A path is the list of its names, from the root on.
pub struct Tree {
    /// Whether there is a file or a directory at a path.
    pub exists: spec_fn(Seq<Seq<char>>) -> bool,
    /// The names of the children of a directory, as far as they are text; `None` where there is
    /// nothing to list.
    pub children: spec_fn(Seq<Seq<char>>) -> Option<Seq<Option<Seq<char>>>>,
}

/// Whether a path is that of a child that is listed.
pub open spec fn is_listed(tree: Tree, dir: Seq<Seq<char>>, name: Seq<char>) -> bool {
    (tree.children)(dir) matches Some(list) && list.contains(Some(name))
}

/// Whether a tree hangs together: the root exists, and so does exactly what an existing directory
/// lists. No directory lists two names that differ in nothing but ASCII case.
pub open spec fn is_tree(tree: Tree) -> bool {
    &&& (tree.exists)(Seq::<Seq<char>>::empty())
    &&& forall|dir: Seq<Seq<char>>, name: Seq<char>|
        #[trigger] (tree.exists)(dir.push(name)) <==> (tree.exists)(dir) && is_listed(
            tree,
            dir,
            name,
        )
    &&& forall|dir: Seq<Seq<char>>, a: Seq<char>, b: Seq<char>|
        #[trigger] is_listed(tree, dir, a) && #[trigger] is_listed(tree, dir, b) && same_name(a, b)
            ==> a == b
    &&& forall|dir: Seq<Seq<char>>|
        (#[trigger] (tree.children)(dir) matches Some(list)) ==> (tree.children)(dir)->0.len()
            <= usize::MAX
}

/// Whether two paths differ in nothing but ASCII case.
pub open spec fn same_path(a: Seq<Seq<char>>, b: Seq<Seq<char>>) -> bool {
    all_lowered(a) == all_lowered(b)
}

/// How far a search has come.
pub struct Walk {
    pub state: FindState,
    /// The current path.
    pub at: Seq<Seq<char>>,
    /// What the search asks for.
    pub action: FindAction,
}

/// What is to be told about a path on the way up.
pub open spec fn news(tree: Tree, at: Seq<Seq<char>>) -> FindEventView {
    if (tree.exists)(at) {
        FindEventView::Exists
    } else if at.len() == 0 {
        FindEventView::Missing(None)
    } else {
        FindEventView::Missing(Some(at.last()))
    }
}

/// A search that is told an event at a path.
pub open spec fn told(state: FindState, at: Seq<Seq<char>>, event: FindEventView) -> Walk {
    let (next, action) = find_stepped(state, event);
    Walk { state: next, at, action }
}

/// A search that gets what it asks for, from the tree. Once it is over nothing changes.
pub open spec fn walked(tree: Tree, w: Walk) -> Walk {
    match w.action {
        FindAction::GoUp => told(w.state, w.at.drop_last(), news(tree, w.at.drop_last())),
        FindAction::List => told(w.state, w.at, FindEventView::Children((tree.children)(w.at))),
        FindAction::Enter(i) => told(
            w.state,
            w.at.push((tree.children)(w.at)->0[i as int]->0),
            FindEventView::Entered,
        ),
        FindAction::Found => w,
        FindAction::GiveUp => w,
    }
}

/// The search for a path in a tree, after its first event and `n` more.
pub open spec fn walk(tree: Tree, wanted: Seq<Seq<char>>, n: nat) -> Walk
    decreases n,
{
    if n == 0 {
        told(find_start(), wanted, news(tree, wanted))
    } else {
        walked(tree, walk(tree, wanted, (n - 1) as nat))
    }
}

/// A search that goes by a tree is told what it waits for at every step.
pub proof fn law_walk_is_awaited(tree: Tree, wanted: Seq<Seq<char>>, n: nat)
    ensures
        awaited(find_start().stage, news(tree, wanted)),
        ({
            let w = walk(tree, wanted, n);
            &&& is_sound(w.state)
            &&& w.action is GoUp ==> w.state.stage is Climbing
            &&& w.action is List ==> w.state.stage is Listing
            &&& w.action is Enter ==> w.state.stage is Entering
            &&& w.action is Found || w.action is GiveUp ==> w.state.stage is Over
        }),
    decreases n,
{
    if n > 0 {
        law_walk_is_awaited(tree, wanted, (n - 1) as nat);
    }
}

proof fn lemma_prefix_exists(tree: Tree, path: Seq<Seq<char>>, n: int)
    requires
        is_tree(tree),
        (tree.exists)(path),
        0 <= n <= path.len(),
    ensures
        (tree.exists)(path.take(n)),
    decreases path.len() - n,
{
    if n < path.len() {
        lemma_prefix_exists(tree, path, n + 1);
        assert(path.take(n + 1) == path.take(n).push(path[n]));
    } else {
        assert(path.take(n) == path);
    }
}

proof fn lemma_path_is_unique(tree: Tree, a: Seq<Seq<char>>, b: Seq<Seq<char>>)
    requires
        is_tree(tree),
        (tree.exists)(a),
        (tree.exists)(b),
        same_path(a, b),
    ensures
        a == b,
    decreases a.len(),
{
    assert(all_lowered(a).len() == all_lowered(b).len());
    if a.len() > 0 {
        assert(a == a.drop_last().push(a.last()));
        assert(b == b.drop_last().push(b.last()));
        assert(all_lowered(a.drop_last()) == all_lowered(a).drop_last());
        assert(all_lowered(b.drop_last()) == all_lowered(b).drop_last());
        lemma_path_is_unique(tree, a.drop_last(), b.drop_last());
        assert(all_lowered(a).last() == lowered(a.last()));
        assert(all_lowered(b).last() == lowered(b.last()));
        assert(is_listed(tree, a.drop_last(), a.last()));
        assert(is_listed(tree, a.drop_last(), b.last()));
    }
}

/// On the way up: after `k` steps the search is `k` levels above the wanted path.
proof fn lemma_climb(tree: Tree, wanted: Seq<Seq<char>>, k: nat)
    requires
        is_tree(tree),
        k <= wanted.len(),
        forall|j: int|
            wanted.len() - k < j <= wanted.len() ==> !(tree.exists)(#[trigger] wanted.take(j)),
    ensures
        ({
            let w = walk(tree, wanted, k);
            let m = wanted.len() - k;
            &&& w.at == wanted.take(m)
            &&& (tree.exists)(w.at) ==> w.state.missing == wanted.skip(m).reverse() && w.action == (
            if k == 0 {
                FindAction::Found
            } else {
                FindAction::List
            })
            &&& !(tree.exists)(w.at) ==> m > 0 && w.action is GoUp && w.state.missing == wanted.skip(
                m - 1,
            ).reverse() && w.state.stage is Climbing
        }),
    decreases k,
{
    let m = wanted.len() - k;
    assert(wanted.take(wanted.len() as int) == wanted);
    if m == 0 {
        assert(wanted.take(0) == Seq::<Seq<char>>::empty());
    }
    if k == 0 {
        assert(wanted.skip(wanted.len() as int).reverse() == Seq::<Seq<char>>::empty());
        if !(tree.exists)(wanted) {
            assert(wanted.skip(m - 1).reverse() == Seq::<Seq<char>>::empty().push(wanted.last()));
        }
    } else {
        lemma_climb(tree, wanted, (k - 1) as nat);
        assert(!(tree.exists)(wanted.take(m + 1)));
        assert(wanted.take(m + 1).drop_last() == wanted.take(m));
        assert(wanted.skip(m).reverse().len() > 0);
        if !(tree.exists)(wanted.take(m)) {
            assert(wanted.skip(m - 1).reverse() == wanted.skip(m).reverse().push(wanted[m - 1]));
            assert(wanted.take(m).last() == wanted[m - 1]);
        }
    }
}

/// Whether a search has come to the right end: it found the only path that exists and differs from
/// the wanted one in nothing but ASCII case, or it gave up and there is none.
pub open spec fn ends_right(tree: Tree, wanted: Seq<Seq<char>>, w: Walk) -> bool {
    match w.action {
        FindAction::Found => (tree.exists)(w.at) && same_path(w.at, wanted) && forall|
            q: Seq<Seq<char>>,
        |
            #[trigger] (tree.exists)(q) && same_path(q, wanted) ==> q == w.at,
        FindAction::GiveUp => forall|q: Seq<Seq<char>>|
            #[trigger] (tree.exists)(q) ==> !same_path(q, wanted),
        _ => false,
    }
}

/// A path that exists lists the wanted name, in some case, at the level that a search has reached.
proof fn lemma_next_name(
    tree: Tree,
    wanted: Seq<Seq<char>>,
    at: Seq<Seq<char>>,
    q: Seq<Seq<char>>,
)
    requires
        is_tree(tree),
        (tree.exists)(at),
        at.len() < wanted.len(),
        same_path(at, wanted.take(at.len() as int)),
        (tree.exists)(q),
        same_path(q, wanted),
    ensures
        is_listed(tree, at, q[at.len() as int]),
        same_name(q[at.len() as int], wanted[at.len() as int]),
{
    let j = at.len() as int;
    assert(all_lowered(q).len() == all_lowered(wanted).len());
    lemma_prefix_exists(tree, q, j);
    lemma_prefix_exists(tree, q, j + 1);
    assert(q.take(j + 1) == q.take(j).push(q[j]));
    assert(all_lowered(q.take(j)) == all_lowered(q).take(j));
    assert(all_lowered(wanted.take(j)) == all_lowered(wanted).take(j));
    lemma_path_is_unique(tree, at, q.take(j));
    assert(all_lowered(q)[j] == lowered(q[j]));
    assert(all_lowered(wanted)[j] == lowered(wanted[j]));
}

/// On the way down the search comes to its right end.
proof fn lemma_descend(tree: Tree, wanted: Seq<Seq<char>>, n: nat) -> (m: nat)
    requires
        is_tree(tree),
        ({
            let w = walk(tree, wanted, n);
            &&& w.action is List
            &&& (tree.exists)(w.at)
            &&& w.at.len() < wanted.len()
            &&& same_path(w.at, wanted.take(w.at.len() as int))
            &&& w.state.missing == wanted.skip(w.at.len() as int).reverse()
        }),
    ensures
        ends_right(tree, wanted, walk(tree, wanted, m)),
    decreases wanted.len() - walk(tree, wanted, n).at.len(),
{
    let w = walk(tree, wanted, n);
    let j = w.at.len() as int;
    let name = wanted[j];
    law_walk_is_awaited(tree, wanted, n);
    assert(w.state.missing.last() == name);
    let listed = walk(tree, wanted, n + 1);
    assert(listed == told(w.state, w.at, FindEventView::Children((tree.children)(w.at))));
    match (tree.children)(w.at) {
        None => {
            assert forall|q: Seq<Seq<char>>| #[trigger]
                (tree.exists)(q) implies !same_path(q, wanted) by {
                if same_path(q, wanted) {
                    lemma_next_name(tree, wanted, w.at, q);
                }
            }
            n + 1
        },
        Some(children) => {
            law_first_child_is_entered(children, name);
            match child_at(children, name) {
                None => {
                    assert forall|q: Seq<Seq<char>>| #[trigger]
                        (tree.exists)(q) implies !same_path(q, wanted) by {
                        if same_path(q, wanted) {
                            lemma_next_name(tree, wanted, w.at, q);
                            let i = choose|i: int|
                                0 <= i < children.len() && children[i] == Some(q[j]);
                            assert(children[i] matches Some(child) && same_name(child, name));
                        }
                    }
                    n + 1
                },
                Some(i) => {
                    let child = children[i]->0;
                    let below = w.at.push(child);
                    assert(listed.action == FindAction::Enter(i as usize));
                    assert(children[i as usize as int] == children[i]);
                    let next = walk(tree, wanted, n + 2);
                    assert(next == walked(tree, listed));
                    assert(next.at == below);
                    assert(children.contains(Some(child)));
                    assert(is_listed(tree, w.at, child));
                    assert((tree.exists)(below));
                    assert(w.state.missing.drop_last() == wanted.skip(j + 1).reverse());
                    assert(all_lowered(below) == all_lowered(w.at).push(lowered(child)));
                    assert(all_lowered(wanted.take(j + 1)) == all_lowered(wanted.take(j)).push(
                        lowered(name),
                    ));
                    if j + 1 == wanted.len() {
                        assert(wanted.take(j + 1) == wanted);
                        assert forall|q: Seq<Seq<char>>| #[trigger]
                            (tree.exists)(q) && same_path(q, wanted) implies q == below by {
                            lemma_path_is_unique(tree, q, below);
                        }
                        n + 2
                    } else {
                        lemma_descend(tree, wanted, n + 2)
                    }
                },
            }
        },
    }
}

/// The level at which the way up ends: the highest number of names, up to `n`, that exists.
proof fn lemma_first_existing(tree: Tree, wanted: Seq<Seq<char>>, k: nat) -> (r: nat)
    requires
        is_tree(tree),
        k <= wanted.len(),
        forall|j: int|
            wanted.len() - k < j <= wanted.len() ==> !(tree.exists)(#[trigger] wanted.take(j)),
    ensures
        r <= wanted.len(),
        (tree.exists)(wanted.take(wanted.len() - r)),
        forall|j: int|
            wanted.len() - r < j <= wanted.len() ==> !(tree.exists)(#[trigger] wanted.take(j)),
    decreases wanted.len() - k,
{
    if (tree.exists)(wanted.take(wanted.len() - k)) {
        k
    } else {
        if k == wanted.len() {
            assert(wanted.take(0) == Seq::<Seq<char>>::empty());
        }
        lemma_first_existing(tree, wanted, k + 1)
    }
}

/// A search in a tree comes to an end, and to the right one: it finds a path exactly when one exists
/// that differs from the wanted one in nothing but ASCII case, and then it is that one.
pub proof fn law_existing_path_is_found(tree: Tree, wanted: Seq<Seq<char>>)
    requires
        is_tree(tree),
    ensures
        exists|n: nat| ends_right(tree, wanted, #[trigger] walk(tree, wanted, n)),
{
    let k = lemma_first_existing(tree, wanted, 0);
    lemma_climb(tree, wanted, k);
    let w = walk(tree, wanted, k);
    if k == 0 {
        assert(wanted.take(wanted.len() as int) == wanted);
        assert forall|q: Seq<Seq<char>>| #[trigger]
            (tree.exists)(q) && same_path(q, wanted) implies q == w.at by {
            lemma_path_is_unique(tree, q, w.at);
        }
        assert(ends_right(tree, wanted, walk(tree, wanted, 0)));
    } else {
        let m = lemma_descend(tree, wanted, k);
        assert(ends_right(tree, wanted, walk(tree, wanted, m)));
    }
}

/// Every way of writing a path that exists, in whatever ASCII case, leads to it.
pub proof fn law_every_case_is_found(tree: Tree, path: Seq<Seq<char>>, wanted: Seq<Seq<char>>)
    requires
        is_tree(tree),
        (tree.exists)(path),
        same_path(wanted, path),
    ensures
        exists|n: nat|
            (#[trigger] walk(tree, wanted, n)).action is Found && walk(tree, wanted, n).at == path,
{
    law_existing_path_is_found(tree, wanted);
    let n = choose|n: nat| ends_right(tree, wanted, #[trigger] walk(tree, wanted, n));
    assert(walk(tree, wanted, n).action is Found);
}

/// Two names are the same exactly where they are equally long and at every place have the same
/// character, or a capital of the alphabet (65 to 90) and its small letter, 32 places on.
pub proof fn law_same_name(a: Seq<char>, b: Seq<char>)
    ensures
        same_name(a, b) <==> a.len() == b.len() && forall|i: int|
            0 <= i < a.len() ==> (#[trigger] a[i] == b[i] || (65 <= a[i] as int <= 90 && b[i] as int
                == a[i] as int + 32) || (65 <= b[i] as int <= 90 && a[i] as int == b[i] as int + 32)),
{
    law_lower(a);
    law_lower(b);
    if same_name(a, b) {
        assert(lowered(a).len() == lowered(b).len());
        assert forall|i: int| 0 <= i < a.len() implies (#[trigger] a[i] == b[i] || (65 <= a[i] as int
            <= 90 && b[i] as int == a[i] as int + 32) || (65 <= b[i] as int <= 90 && a[i] as int
            == b[i] as int + 32)) by {
            assert(lowered(a)[i] == lowered(b)[i]);
        }
    }
    if a.len() == b.len() && forall|i: int|
        0 <= i < a.len() ==> (#[trigger] a[i] == b[i] || (65 <= a[i] as int <= 90 && b[i] as int
            == a[i] as int + 32) || (65 <= b[i] as int <= 90 && a[i] as int == b[i] as int + 32)) {
        assert forall|i: int| 0 <= i < a.len() implies #[trigger] lowered(a)[i]
            == lowered(b)[i] by {
            assert(a[i] == b[i] || (65 <= a[i] as int <= 90 && b[i] as int == a[i] as int + 32) || (
            65 <= b[i] as int <= 90 && a[i] as int == b[i] as int + 32));
            assert(lowered(a)[i] as int == lowered(b)[i] as int);
        }
        assert(lowered(a) == lowered(b));
    }
}

/// The case of the letters from A to Z does not matter: however they are written in a name, the same
/// child is found.
pub proof fn law_case_does_not_matter(
    children: Seq<Option<Seq<char>>>,
    a: Seq<char>,
    b: Seq<char>,
)
    requires
        a.len() == b.len(),
        forall|i: int|
            0 <= i < a.len() ==> (#[trigger] a[i] == b[i] || (65 <= a[i] as int <= 90 && b[i] as int
                == a[i] as int + 32) || (65 <= b[i] as int <= 90 && a[i] as int == b[i] as int + 32)),
    ensures
        child_at(children, a) == child_at(children, b),
        children.contains(Some(a)) ==> child_at(children, b) is Some,
    decreases children.len(),
{
    law_same_name(a, b);
    if children.contains(Some(a)) {
        let i = choose|i: int| 0 <= i < children.len() && children[i] == Some(a);
        law_first_child_is_entered(children, b);
        assert(children[i] matches Some(child) && same_name(child, b));
    }
    if children.len() > 0 {
        law_case_does_not_matter(children.drop_last(), a, b);
    }
}

/// On the way up a search notes every name that is missing, and turns around where the path exists. On
/// the way down it enters the child that is to be found next. It gives up where there is no name above,
/// no list of children or no such child.
pub proof fn law_search_steps(
    missing: Seq<Seq<char>>,
    name: Seq<char>,
    children: Seq<Option<Seq<char>>>,
)
    ensures
        ({
            let up = FindState { missing, stage: FindStage::Climbing };
            let down = FindState { missing: missing.push(name), stage: FindStage::Listing };
            let inside = FindState { missing, stage: FindStage::Entering };
            let turned = if missing.len() == 0 {
                (FindState { missing, stage: FindStage::Over }, FindAction::Found)
            } else {
                (FindState { missing, stage: FindStage::Listing }, FindAction::List)
            };
            &&& find_stepped(up, FindEventView::Exists) == turned
            &&& find_stepped(up, FindEventView::Missing(Some(name))) == (
                FindState { missing: missing.push(name), stage: FindStage::Climbing },
                FindAction::GoUp,
            )
            &&& find_stepped(up, FindEventView::Missing(None)).1 is GiveUp
            &&& find_stepped(down, FindEventView::Children(None)).1 is GiveUp
            &&& child_at(children, name) is None ==> find_stepped(
                down,
                FindEventView::Children(Some(children)),
            ).1 is GiveUp
            &&& child_at(children, name) matches Some(i) ==> find_stepped(
                down,
                FindEventView::Children(Some(children)),
            ) == (inside, FindAction::Enter(i as usize))
            &&& find_stepped(inside, FindEventView::Entered) == turned
        }),
{
    assert(missing.push(name).drop_last() == missing);
}

} // verus!
