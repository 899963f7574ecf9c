//! What an addon directory holds, put together from its TOC files and from what the repositories
//! know about it.
//!
//! The repositories are asked about the addons that the TOC files describe. What they answer is
//! told here as plain values: which packages came back, and by which numbers they are known. How
//! a package is applied to an addon is up to the caller, who hands in a function for it.

use vstd::prelude::*;

use crate::addon::{addon_views, Addon, AddonView};
use crate::fingerprint::{entries, FingerprintCollection, FingerprintView};
use crate::link::{
    depends, law_links_do_not_repeat, law_links_go_both_ways, link_dependencies_bidirectional, linked,
};
use crate::text::{same, texts};
use crate::toc::{described, parse_toc_path};

verus! {

// ---------------------------------------------------------------------------------------------
// From TOC files to addons
// ---------------------------------------------------------------------------------------------

/// The name of the TOC file of an addon.
pub open spec fn toc_name(title: Seq<char>) -> Seq<char> {
    title + ".toc"@
}

/// The name of the TOC file of an addon.
pub fn toc_file_name(title: &str) -> (r: String)
    ensures
        r@ == title@ + ".toc"@,
        r@ == toc_name(title@),
{
    let mut r = title.to_owned();
    r.append(".toc");
    r
}

/// A TOC file that was read.
#[derive(Debug, PartialEq)]
pub struct TocFile {
    /// The name of the addon's directory.
    pub id: String,
    /// The addon's directory.
    pub path: String,
    pub lines: Vec<String>,
}

/// The addon of a fingerprint, where it has a TOC file that describes one.
pub open spec fn addon_of(entry: FingerprintView, toc: Option<TocFile>) -> Option<AddonView> {
    match toc {
        None => None,
        Some(file) => match described(file.id@, file.path@, texts(file.lines@)) {
            None => None,
            Some(addon) => Some(AddonView { fingerprint: entry.hash, ..addon }),
        },
    }
}

/// The addons of several fingerprints.
pub open spec fn addons_of(
    list: Seq<FingerprintView>,
    tocs: Seq<Option<TocFile>>,
) -> Seq<AddonView>
    decreases list.len(),
{
    if list.len() == 0 {
        Seq::<AddonView>::empty()
    } else {
        let before = addons_of(list.drop_last(), tocs.drop_last());
        match addon_of(list.last(), tocs.last()) {
            Some(addon) => before.push(addon),
            None => before,
        }
    }
}

/// Describes the addons of a collection. `tocs` holds the TOC file of each of them, where it could
/// be read.
pub fn read_addons(collection: &FingerprintCollection, tocs: Vec<Option<TocFile>>) -> (r: Vec<
    Addon,
>)
    requires
        collection@.len() == tocs@.len(),
    ensures
        addon_views(r@) == addons_of(entries(collection@), tocs@),
{
    let ghost list = entries(collection@);
    let ghost all = tocs@;
    let count = collection.len();
    let mut r: Vec<Addon> = Vec::new();
    let mut i: usize = 0;
    assert(addon_views(r@) == Seq::<AddonView>::empty());
    for toc in it: tocs
        invariant
            it.seq() == all,
            i == it.index(),
            all.len() == collection@.len() == count,
            list == entries(collection@),
            addon_views(r@) == addons_of(list.take(i as int), all.take(i as int)),
    {
        proof {
            assert(toc == all[i as int]);
            assert(list[i as int] == collection@[i as int]@);
            assert(list.take(i + 1).drop_last() == list.take(i as int));
            assert(all.take(i + 1).drop_last() == all.take(i as int));
        }
        if let Some(file) = toc {
            if let Some(addon) = parse_toc_path(file.id, file.path, &file.lines) {
                let mut addon = addon;
                addon.fingerprint = collection[i].hash;
                let ghost before = r@;
                r.push(addon);
                assert(addon_views(r@) == addon_views(before).push(addon@));
            }
        }
        i = i + 1;
    }
    assert(list.take(list.len() as int) == list);
    assert(all.take(all.len() as int) == all);
    r
}

// ---------------------------------------------------------------------------------------------
// What the repositories are asked
// ---------------------------------------------------------------------------------------------

/// The Tukui ids of addons, in their order.
pub open spec fn all_tukui_ids(addons: Seq<AddonView>) -> Seq<Seq<char>> {
    addons.filter_map(|a: AddonView| a.tukui_id)
}

/// The fingerprints of the addons without a Tukui id, in their order.
pub open spec fn all_fingerprint_hashes(addons: Seq<AddonView>) -> Seq<u32> {
    addons.filter_map(
        |a: AddonView|
            if a.tukui_id is Some {
                None
            } else {
                a.fingerprint
            },
    )
}

/// The Curse ids of the addons without a Tukui id, in their order.
pub open spec fn all_curse_ids(addons: Seq<AddonView>) -> Seq<u32> {
    addons.filter_map(
        |a: AddonView|
            if a.tukui_id is None {
                a.curse_id
            } else {
                None
            },
    )
}

/// The ids for which Tukui is asked for a package.
pub fn tukui_ids(addons: &Vec<Addon>) -> (r: Vec<String>)
    ensures
        texts(r@) == all_tukui_ids(addon_views(addons@)),
{
    let ghost all = addon_views(addons@);
    let ghost f = |a: AddonView| a.tukui_id;
    let mut r: Vec<String> = Vec::new();
    let mut i: usize = 0;
    while i < addons.len()
        invariant
            i <= addons@.len(),
            all == addon_views(addons@),
            f == (|a: AddonView| a.tukui_id),
            texts(r@) == all.take(i as int).filter_map(f),
        decreases addons@.len() - i,
    {
        proof {
            all.lemma_filter_map_take_succ(f, i as int);
            assert(all[i as int] == addons@[i as int]@);
        }
        if let Some(id) = &addons[i].tukui_id {
            let ghost before = r@;
            r.push(id.clone());
            assert(texts(r@) == texts(before).push(id@));
        }
        i = i + 1;
    }
    assert(all.take(all.len() as int) == all);
    r
}

/// The fingerprints for which Curse is asked for packages.
pub fn fingerprint_hashes(addons: &Vec<Addon>) -> (r: Vec<u32>)
    ensures
        r@ == all_fingerprint_hashes(addon_views(addons@)),
{
    let ghost all = addon_views(addons@);
    let ghost f = |a: AddonView|
        if a.tukui_id is Some {
            None
        } else {
            a.fingerprint
        };
    let mut r: Vec<u32> = Vec::new();
    let mut i: usize = 0;
    while i < addons.len()
        invariant
            i <= addons@.len(),
            all == addon_views(addons@),
            f == (|a: AddonView|
                if a.tukui_id is Some {
                    None
                } else {
                    a.fingerprint
                }),
            r@ == all.take(i as int).filter_map(f),
        decreases addons@.len() - i,
    {
        proof {
            all.lemma_filter_map_take_succ(f, i as int);
            assert(all[i as int] == addons@[i as int]@);
        }
        if addons[i].tukui_id.is_none() {
            if let Some(hash) = addons[i].fingerprint {
                r.push(hash);
            }
        }
        i = i + 1;
    }
    assert(all.take(all.len() as int) == all);
    r
}

/// The ids for which Curse is asked for packages.
pub fn curse_ids(addons: &Vec<Addon>) -> (r: Vec<u32>)
    ensures
        r@ == all_curse_ids(addon_views(addons@)),
{
    let ghost all = addon_views(addons@);
    let ghost f = |a: AddonView|
        if a.tukui_id is None {
            a.curse_id
        } else {
            None
        };
    let mut r: Vec<u32> = Vec::new();
    let mut i: usize = 0;
    while i < addons.len()
        invariant
            i <= addons@.len(),
            all == addon_views(addons@),
            f == (|a: AddonView|
                if a.tukui_id is None {
                    a.curse_id
                } else {
                    None
                }),
            r@ == all.take(i as int).filter_map(f),
        decreases addons@.len() - i,
    {
        proof {
            all.lemma_filter_map_take_succ(f, i as int);
            assert(all[i as int] == addons@[i as int]@);
        }
        if addons[i].tukui_id.is_none() {
            if let Some(id) = addons[i].curse_id {
                r.push(id);
            }
        }
        i = i + 1;
    }
    assert(all.take(all.len() as int) == all);
    r
}

// ---------------------------------------------------------------------------------------------
// What they answer
// ---------------------------------------------------------------------------------------------

/// The place of the first addon with a property.
pub open spec fn first_place(
    addons: Seq<AddonView>,
    property: spec_fn(AddonView) -> bool,
) -> Option<int>
    decreases addons.len(),
{
    if addons.len() == 0 {
        None
    } else {
        match first_place(addons.drop_last(), property) {
            Some(i) => Some(i),
            None => if property(addons.last()) {
                Some(addons.len() - 1)
            } else {
                None
            },
        }
    }
}

proof fn lemma_place_stays(addons: Seq<AddonView>, property: spec_fn(AddonView) -> bool, n: int)
    requires
        0 <= n <= addons.len(),
        first_place(addons.take(n), property) is Some,
    ensures
        first_place(addons, property) == first_place(addons.take(n), property),
    decreases addons.len() - n,
{
    if n < addons.len() {
        assert(addons.take(n + 1).drop_last() == addons.take(n));
        lemma_place_stays(addons, property, n + 1);
    } else {
        assert(addons.take(n) == addons);
    }
}

/// What [`first_place`] finds is the first addon with the property, and it finds one whenever
/// there is one.
pub proof fn law_first_place(addons: Seq<AddonView>, property: spec_fn(AddonView) -> bool)
    ensures
        first_place(addons, property) matches Some(i) ==> 0 <= i < addons.len() && property(
            addons[i],
        ) && forall|j: int| 0 <= j < i ==> !property(#[trigger] addons[j]),
        first_place(addons, property) is None ==> forall|j: int|
            0 <= j < addons.len() ==> !property(#[trigger] addons[j]),
    decreases addons.len(),
{
    if addons.len() > 0 {
        law_first_place(addons.drop_last(), property);
        assert forall|j: int| 0 <= j < addons.len() - 1 implies addons.drop_last()[j]
            == #[trigger] addons[j] by {}
    }
}

/// A place told as an exec value.
pub open spec fn is_place(r: Option<usize>, place: Option<int>) -> bool {
    match r {
        Some(i) => place == Some(i as int),
        None => place is None,
    }
}

/// The place of the first addon with a Tukui id.
pub fn find_by_tukui_id(addons: &Vec<Addon>, id: &str) -> (r: Option<usize>)
    ensures
        is_place(
            r,
            first_place(addon_views(addons@), |a: AddonView| a.tukui_id == Some(id@)),
        ),
        r matches Some(i) ==> i < addons@.len(),
{
    let ghost all = addon_views(addons@);
    let ghost p = |a: AddonView| a.tukui_id == Some(id@);
    let mut i: usize = 0;
    while i < addons.len()
        invariant
            i <= addons@.len(),
            all == addon_views(addons@),
            p == (|a: AddonView| a.tukui_id == Some(id@)),
            first_place(all.take(i as int), p) is None,
        decreases addons@.len() - i,
    {
        proof {
            assert(all.take(i + 1).drop_last() == all.take(i as int));
            assert(all[i as int] == addons@[i as int]@);
        }
        if let Some(own) = &addons[i].tukui_id {
            if same(own.as_str(), id) {
                proof {
                    lemma_place_stays(all, p, i + 1);
                }
                return Some(i);
            }
        }
        i = i + 1;
    }
    assert(all.take(all.len() as int) == all);
    None
}

/// The place of the first addon with a Curse id.
pub fn find_by_curse_id(addons: &Vec<Addon>, id: u32) -> (r: Option<usize>)
    ensures
        is_place(r, first_place(addon_views(addons@), |a: AddonView| a.curse_id == Some(id))),
        r matches Some(i) ==> i < addons@.len(),
{
    let ghost all = addon_views(addons@);
    let ghost p = |a: AddonView| a.curse_id == Some(id);
    let mut i: usize = 0;
    while i < addons.len()
        invariant
            i <= addons@.len(),
            all == addon_views(addons@),
            p == (|a: AddonView| a.curse_id == Some(id)),
            first_place(all.take(i as int), p) is None,
        decreases addons@.len() - i,
    {
        proof {
            assert(all.take(i + 1).drop_last() == all.take(i as int));
            assert(all[i as int] == addons@[i as int]@);
        }
        if let Some(own) = addons[i].curse_id {
            if own == id {
                proof {
                    lemma_place_stays(all, p, i + 1);
                }
                return Some(i);
            }
        }
        i = i + 1;
    }
    assert(all.take(all.len() as int) == all);
    None
}

/// What Curse tells about an addon whose fingerprint it knows.
#[derive(Debug, PartialEq)]
pub struct ExactMatch {
    /// The Curse id of the addon.
    pub id: u32,
    /// The fingerprints of all directories that belong to the addon.
    pub module_fingerprints: Vec<u32>,
}

/// Whether the fingerprint of an addon is among those of a match.
pub open spec fn is_module(a: AddonView, fingerprints: Seq<u32>) -> bool {
    a.fingerprint matches Some(hash) && fingerprints.contains(hash)
}

/// The place of the addon that a match is about: the first one with its Curse id, else the first
/// one with one of its fingerprints.
pub open spec fn matched_place(
    addons: Seq<AddonView>,
    id: u32,
    fingerprints: Seq<u32>,
) -> Option<int> {
    match first_place(addons, |a: AddonView| a.curse_id == Some(id)) {
        Some(i) => Some(i),
        None => first_place(addons, |a: AddonView| is_module(a, fingerprints)),
    }
}

fn has_number(list: &Vec<u32>, n: u32) -> (r: bool)
    ensures
        r == list@.contains(n),
{
    let mut i: usize = 0;
    while i < list.len()
        invariant
            i <= list@.len(),
            forall|j: int| 0 <= j < i ==> list@[j] != n,
        decreases list@.len() - i,
    {
        if list[i] == n {
            return true;
        }
        i = i + 1;
    }
    false
}

/// The place of the addon that a match is about.
pub fn find_match(addons: &Vec<Addon>, info: &ExactMatch) -> (r: Option<usize>)
    ensures
        is_place(r, matched_place(addon_views(addons@), info.id, info.module_fingerprints@)),
        r matches Some(i) ==> i < addons@.len(),
{
    let by_id = find_by_curse_id(addons, info.id);
    if by_id.is_some() {
        return by_id;
    }
    let ghost all = addon_views(addons@);
    let ghost p = |a: AddonView| is_module(a, info.module_fingerprints@);
    let mut i: usize = 0;
    while i < addons.len()
        invariant
            i <= addons@.len(),
            all == addon_views(addons@),
            p == (|a: AddonView| is_module(a, info.module_fingerprints@)),
            first_place(all, |a: AddonView| a.curse_id == Some(info.id)) is None,
            first_place(all.take(i as int), p) is None,
        decreases addons@.len() - i,
    {
        proof {
            assert(all.take(i + 1).drop_last() == all.take(i as int));
            assert(all[i as int] == addons@[i as int]@);
        }
        if let Some(hash) = addons[i].fingerprint {
            if has_number(&info.module_fingerprints, hash) {
                proof {
                    lemma_place_stays(all, p, i + 1);
                }
                return Some(i);
            }
        }
        i = i + 1;
    }
    assert(all.take(all.len() as int) == all);
    None
}

// ---------------------------------------------------------------------------------------------
// Applying packages
// ---------------------------------------------------------------------------------------------

/// Whether `out` is what comes of a plan: each addon of it with its package applied. A plan says
/// which packages are applied to which addons; it is a list of pairs of the place of an addon and
/// the number of a package.
pub open spec fn follows<F: Fn(&Addon, usize) -> Addon>(
    apply: F,
    addons: Seq<Addon>,
    plan: Seq<(int, int)>,
    out: Seq<Addon>,
) -> bool {
    &&& out.len() == plan.len()
    &&& forall|k: int|
        0 <= k < out.len() ==> call_ensures(
            apply,
            (&addons[plan[k].0], plan[k].1 as usize),
            #[trigger] out[k],
        )
}

/// For each of the first `n` Tukui ids whose package was fetched: the first addon with that id, and
/// the package.
pub open spec fn tukui_plan(
    addons: Seq<AddonView>,
    ids: Seq<Seq<char>>,
    fetched: Seq<bool>,
    n: nat,
) -> Seq<(int, int)>
    decreases n,
{
    if n == 0 {
        Seq::<(int, int)>::empty()
    } else {
        let before = tukui_plan(addons, ids, fetched, (n - 1) as nat);
        match first_place(addons, |a: AddonView| a.tukui_id == Some(ids[n - 1])) {
            Some(i) if fetched[n - 1] => before.push((i, n - 1)),
            _ => before,
        }
    }
}

/// For each of the first `n` matches that is about an addon: that addon, and the match.
pub open spec fn match_plan(
    addons: Seq<AddonView>,
    infos: Seq<ExactMatch>,
    n: nat,
) -> Seq<(int, int)>
    decreases n,
{
    if n == 0 {
        Seq::<(int, int)>::empty()
    } else {
        let before = match_plan(addons, infos, (n - 1) as nat);
        match matched_place(addons, infos[n - 1].id, infos[n - 1].module_fingerprints@) {
            Some(i) => before.push((i, n - 1)),
            None => before,
        }
    }
}

/// Applies the Tukui packages. `fetched` tells for each of the [`tukui_ids`] whether its package
/// was fetched; `apply` applies the package with a number to an addon.
pub fn apply_tukui_packages<F: Fn(&Addon, usize) -> Addon>(
    addons: &Vec<Addon>,
    fetched: &Vec<bool>,
    apply: F,
) -> (r: Vec<Addon>)
    requires
        fetched@.len() == all_tukui_ids(addon_views(addons@)).len(),
        forall|a: Addon, j: usize| j < fetched@.len() ==> #[trigger] call_requires(apply, (&a, j)),
    ensures
        follows(
            apply,
            addons@,
            tukui_plan(
                addon_views(addons@),
                all_tukui_ids(addon_views(addons@)),
                fetched@,
                fetched@.len(),
            ),
            r@,
        ),
{
    let ids = tukui_ids(addons);
    let ghost all = addon_views(addons@);
    let ghost wanted = all_tukui_ids(all);
    let mut r: Vec<Addon> = Vec::new();
    let mut j: usize = 0;
    while j < ids.len()
        invariant
            j <= ids@.len() == fetched@.len(),
            all == addon_views(addons@),
            wanted == texts(ids@),
            forall|a: Addon, j: usize|
                j < fetched@.len() ==> #[trigger] call_requires(apply, (&a, j)),
            follows(apply, addons@, tukui_plan(all, wanted, fetched@, j as nat), r@),
        decreases ids@.len() - j,
    {
        assert(wanted[j as int] == ids@[j as int]@);
        if let Some(i) = find_by_tukui_id(addons, ids[j].as_str()) {
            if fetched[j] {
                r.push(apply(&addons[i], j));
            }
        }
        j = j + 1;
    }
    r
}

/// Applies the packages that Curse matched by fingerprint. `apply` applies the match with a number
/// to an addon.
pub fn apply_exact_matches<F: Fn(&Addon, usize) -> Addon>(
    addons: &Vec<Addon>,
    infos: &Vec<ExactMatch>,
    apply: F,
) -> (r: Vec<Addon>)
    requires
        forall|a: Addon, j: usize| j < infos@.len() ==> #[trigger] call_requires(apply, (&a, j)),
    ensures
        follows(
            apply,
            addons@,
            match_plan(addon_views(addons@), infos@, infos@.len()),
            r@,
        ),
{
    let ghost all = addon_views(addons@);
    let mut r: Vec<Addon> = Vec::new();
    let mut j: usize = 0;
    while j < infos.len()
        invariant
            j <= infos@.len(),
            all == addon_views(addons@),
            forall|a: Addon, j: usize|
                j < infos@.len() ==> #[trigger] call_requires(apply, (&a, j)),
            follows(apply, addons@, match_plan(all, infos@, j as nat), r@),
        decreases infos@.len() - j,
    {
        if let Some(i) = find_match(addons, &infos[j]) {
            r.push(apply(&addons[i], j));
        }
        j = j + 1;
    }
    r
}

/// Whether none of some addons has an id.
pub open spec fn is_new(addons: Seq<AddonView>, id: Seq<char>) -> bool {
    forall|i: int| 0 <= i < addons.len() ==> (#[trigger] addons[i]).id != id
}

/// The addons that Curse did not match by fingerprint but knows by their id.
pub open spec fn known_by_id_only(
    addons: Seq<AddonView>,
    fingerprinted: Seq<AddonView>,
) -> Seq<AddonView> {
    addons.filter(
        |a: AddonView| is_new(fingerprinted, a.id) && a.tukui_id is None && a.curse_id is Some,
    )
}

fn has_id(addons: &Vec<Addon>, id: &String) -> (r: bool)
    ensures
        r == !is_new(addon_views(addons@), id@),
{
    let ghost all = addon_views(addons@);
    let mut i: usize = 0;
    while i < addons.len()
        invariant
            i <= addons@.len(),
            all == addon_views(addons@),
            forall|j: int| 0 <= j < i ==> (#[trigger] all[j]).id != id@,
        decreases addons@.len() - i,
    {
        assert(all[i as int] == addons@[i as int]@);
        if addons[i].id == *id {
            return true;
        }
        i = i + 1;
    }
    false
}

/// The addons that Curse did not match by fingerprint but may know by their id.
pub fn curse_id_only_addons(addons: &Vec<Addon>, fingerprint_addons: &Vec<Addon>) -> (r: Vec<Addon>)
    ensures
        addon_views(r@) == known_by_id_only(
            addon_views(addons@),
            addon_views(fingerprint_addons@),
        ),
{
    let ghost all = addon_views(addons@);
    let ghost known = addon_views(fingerprint_addons@);
    let ghost p = |a: AddonView| is_new(known, a.id) && a.tukui_id is None && a.curse_id is Some;
    let mut r: Vec<Addon> = Vec::new();
    let mut i: usize = 0;
    assert(addon_views(r@) == all.take(0).filter(p)) by {
        reveal(Seq::filter);
    }
    while i < addons.len()
        invariant
            i <= addons@.len(),
            all == addon_views(addons@),
            known == addon_views(fingerprint_addons@),
            p == (|a: AddonView|
                is_new(known, a.id) && a.tukui_id is None && a.curse_id is Some),
            addon_views(r@) == all.take(i as int).filter(p),
        decreases addons@.len() - i,
    {
        proof {
            reveal_with_fuel(Seq::filter, 2);
            assert(all.take(i + 1).drop_last() == all.take(i as int));
            assert(all[i as int] == addons@[i as int]@);
        }
        if !has_id(fingerprint_addons, &addons[i].id) && addons[i].tukui_id.is_none()
            && addons[i].curse_id.is_some() {
            let ghost before = r@;
            r.push(addons[i].clone());
            assert(addon_views(r@) == addon_views(before).push(all[i as int]));
        }
        i = i + 1;
    }
    assert(all.take(all.len() as int) == all);
    r
}

/// Whether `after` is `before` with one Curse package applied to the first addon that has its id;
/// without such an addon nothing changes.
pub open spec fn curse_step<F: Fn(&Addon, usize, bool) -> Addon>(
    apply: F,
    before: Seq<Addon>,
    id: u32,
    number: usize,
    by_fingerprint: bool,
    after: Seq<Addon>,
) -> bool {
    match first_place(addon_views(before), |a: AddonView| a.curse_id == Some(id)) {
        None => after == before,
        Some(i) => {
            &&& after.len() == before.len()
            &&& forall|j: int| 0 <= j < before.len() && j != i ==> after[j] == before[j]
            &&& call_ensures(apply, (&before[i], number, by_fingerprint), after[i])
        },
    }
}

/// Whether `states` leads from one list of addons to the next, one Curse package at a time.
pub open spec fn curse_steps<F: Fn(&Addon, usize, bool) -> Addon>(
    apply: F,
    ids: Seq<u32>,
    by_fingerprint: bool,
    states: Seq<Seq<Addon>>,
) -> bool {
    &&& states.len() == ids.len() + 1
    &&& forall|k: int|
        0 <= k < ids.len() ==> curse_step(
            apply,
            #[trigger] states[k],
            ids[k],
            k as usize,
            by_fingerprint,
            states[k + 1],
        )
}

/// Whether `after` is `before` with all Curse packages applied, one after the other.
pub open spec fn curse_applied<F: Fn(&Addon, usize, bool) -> Addon>(
    apply: F,
    ids: Seq<u32>,
    by_fingerprint: bool,
    before: Seq<Addon>,
    after: Seq<Addon>,
) -> bool {
    exists|states: Seq<Seq<Addon>>|
        #[trigger] curse_steps(apply, ids, by_fingerprint, states) && states.first() == before
            && states.last() == after
}

/// Applies Curse packages, each to the first addon that has its id. `apply` applies the package
/// with a number to an addon, and is told whether the addon was matched by fingerprint.
pub fn apply_curse_packages<F: Fn(&Addon, usize, bool) -> Addon>(
    addons: &mut Vec<Addon>,
    ids: &Vec<u32>,
    by_fingerprint: bool,
    apply: &F,
)
    requires
        forall|a: Addon, j: usize|
            j < ids@.len() ==> #[trigger] call_requires(*apply, (&a, j, by_fingerprint)),
    ensures
        curse_applied(*apply, ids@, by_fingerprint, old(addons)@, final(addons)@),
{
    let ghost mut states: Seq<Seq<Addon>> = seq![addons@];
    let mut k: usize = 0;
    while k < ids.len()
        invariant
            k <= ids@.len(),
            forall|a: Addon, j: usize|
                j < ids@.len() ==> #[trigger] call_requires(*apply, (&a, j, by_fingerprint)),
            curse_steps(*apply, ids@.take(k as int), by_fingerprint, states),
            states.first() == old(addons)@,
            states.last() == addons@,
        decreases ids@.len() - k,
    {
        let ghost before = addons@;
        if let Some(i) = find_by_curse_id(addons, ids[k]) {
            let changed = (*apply)(&addons[i], k, by_fingerprint);
            addons.set(i, changed);
        }
        proof {
            let longer = states.push(addons@);
            assert(curse_step(*apply, before, ids@[k as int], k, by_fingerprint, addons@));
            assert forall|m: int| 0 <= m < k + 1 implies curse_step(
                *apply,
                #[trigger] longer[m],
                ids@.take(k + 1)[m],
                m as usize,
                by_fingerprint,
                longer[m + 1],
            ) by {
                if m < k {
                    assert(longer[m] == states[m]);
                    assert(longer[m + 1] == states[m + 1]);
                    assert(ids@.take(k as int)[m] == ids@.take(k + 1)[m]);
                }
            }
            states = longer;
        }
        k = k + 1;
    }
    assert(ids@.take(ids@.len() as int) == ids@);
}

// ---------------------------------------------------------------------------------------------
// The whole directory
// ---------------------------------------------------------------------------------------------

/// What the repositories answered.
#[derive(Debug, PartialEq)]
pub struct Answers {
    /// For each of the [`tukui_ids`], whether its package was fetched.
    pub tukui_fetched: Vec<bool>,
    /// The addons that Curse matched by fingerprint.
    pub exact_matches: Vec<ExactMatch>,
    /// The ids of the packages that Curse sent for the [`curse_ids`], unless it failed.
    pub curse_packages: Option<Vec<u32>>,
}

/// Whether `after` is `before` with the Curse packages applied that came, if any came.
pub open spec fn curse_answered<F: Fn(&Addon, usize, bool) -> Addon>(
    apply: F,
    packages: Option<Vec<u32>>,
    by_fingerprint: bool,
    before: Seq<Addon>,
    after: Seq<Addon>,
) -> bool {
    match packages {
        None => after == before,
        Some(ids) => curse_applied(apply, ids@, by_fingerprint, before, after),
    }
}

/// The steps from the described addons to the full list: Tukui packages are applied, and those
/// addons are linked to the addons that depend on them; exact matches are applied; the addons that
/// Curse knows only by id are picked; Curse packages are applied to the last two groups.
pub struct Reading {
    pub tukui: Seq<Addon>,
    pub tukui_linked: Seq<Addon>,
    pub matched: Seq<Addon>,
    pub matched_done: Seq<Addon>,
    pub id_only: Seq<Addon>,
    pub id_only_done: Seq<Addon>,
}

/// Whether the steps of a reading follow from the addons and the answers.
pub open spec fn is_reading<
    T: Fn(&Addon, usize) -> Addon,
    M: Fn(&Addon, usize) -> Addon,
    C: Fn(&Addon, usize, bool) -> Addon,
>(
    addons: Seq<Addon>,
    answers: Answers,
    apply_tukui: T,
    apply_match: M,
    apply_curse: C,
    reading: Reading,
) -> bool {
    let all = addon_views(addons);
    &&& follows(
        apply_tukui,
        addons,
        tukui_plan(
            all,
            all_tukui_ids(all),
            answers.tukui_fetched@,
            answers.tukui_fetched@.len(),
        ),
        reading.tukui,
    )
    &&& addon_views(reading.tukui_linked) == addon_views(reading.tukui).map_values(
        |a: AddonView| linked(a, all),
    )
    &&& follows(
        apply_match,
        addons,
        match_plan(all, answers.exact_matches@, answers.exact_matches@.len()),
        reading.matched,
    )
    &&& addon_views(reading.id_only) == known_by_id_only(all, addon_views(reading.matched))
    &&& curse_answered(
        apply_curse,
        answers.curse_packages,
        true,
        reading.matched,
        reading.matched_done,
    )
    &&& curse_answered(
        apply_curse,
        answers.curse_packages,
        false,
        reading.id_only,
        reading.id_only_done,
    )
}

/// The addons of a reading: first those that Curse matched by fingerprint, then those of Tukui, then
/// those that Curse knows only by id.
pub open spec fn all_read(reading: Reading) -> Seq<Addon> {
    reading.matched_done + reading.tukui_linked + reading.id_only_done
}

/// Puts the addons of a directory together: first those that Curse matched by fingerprint, then
/// those of Tukui, then those that Curse knows only by id.
///
/// `addons` are the addons that the TOC files describe, `answers` is what the repositories told
/// about them. The three functions apply a package, known by its number, to an addon.
pub fn read_addon_directory<
    T: Fn(&Addon, usize) -> Addon,
    M: Fn(&Addon, usize) -> Addon,
    C: Fn(&Addon, usize, bool) -> Addon,
>(
    addons: &Vec<Addon>,
    answers: &Answers,
    apply_tukui: T,
    apply_match: M,
    apply_curse: C,
) -> (r: Vec<Addon>)
    requires
        answers.tukui_fetched@.len() == all_tukui_ids(addon_views(addons@)).len(),
        forall|a: Addon, j: usize|
            j < answers.tukui_fetched@.len() ==> #[trigger] call_requires(apply_tukui, (&a, j)),
        forall|a: Addon, j: usize|
            j < answers.exact_matches@.len() ==> #[trigger] call_requires(apply_match, (&a, j)),
        forall|a: Addon, j: usize, by_fingerprint: bool|
            (answers.curse_packages matches Some(ids) && j < ids@.len()) ==> #[trigger] call_requires(
                apply_curse,
                (&a, j, by_fingerprint),
            ),
    ensures
        exists|reading: Reading|
            #[trigger] is_reading(
                addons@,
                *answers,
                apply_tukui,
                apply_match,
                apply_curse,
                reading,
            ) && r@ == reading.matched_done + reading.tukui_linked + reading.id_only_done && r@ == all_read(
                reading,
            ),
{
    let mut tukui_addons = apply_tukui_packages(addons, &answers.tukui_fetched, apply_tukui);
    let ghost tukui = tukui_addons@;
    link_dependencies_bidirectional(&mut tukui_addons, addons);
    let ghost tukui_linked = tukui_addons@;
    let mut fingerprint_addons = apply_exact_matches(addons, &answers.exact_matches, apply_match);
    let ghost matched = fingerprint_addons@;
    let mut id_only_addons = curse_id_only_addons(addons, &fingerprint_addons);
    let ghost id_only = id_only_addons@;
    if let Some(ids) = &answers.curse_packages {
        apply_curse_packages(&mut fingerprint_addons, ids, true, &apply_curse);
        apply_curse_packages(&mut id_only_addons, ids, false, &apply_curse);
    }
    proof {
        let reading = Reading {
            tukui,
            tukui_linked,
            matched,
            matched_done: fingerprint_addons@,
            id_only,
            id_only_done: id_only_addons@,
        };
        assert(is_reading(
            addons@,
            *answers,
            apply_tukui,
            apply_match,
            apply_curse,
            reading,
        ));
    }
    let mut r = fingerprint_addons;
    r.append(&mut tukui_addons);
    r.append(&mut id_only_addons);
    r
}

// ---------------------------------------------------------------------------------------------
// Laws
// ---------------------------------------------------------------------------------------------

proof fn lemma_filter_map<A, B>(list: Seq<A>, f: spec_fn(A) -> Option<B>, item: B)
    ensures
        list.filter_map(f).contains(item) <==> exists|i: int|
            0 <= i < list.len() && f(#[trigger] list[i]) == Some(item),
    decreases list.len(),
{
    if list.len() > 0 {
        let shorter = list.drop_last();
        lemma_filter_map(shorter, f, item);
        let more = match f(list.last()) {
            Some(b) => seq![b],
            None => Seq::<B>::empty(),
        };
        assert(list.filter_map(f) == shorter.filter_map(f) + more);
        vstd::seq_lib::lemma_seq_concat_contains_all_elements(shorter.filter_map(f), more, item);
        if exists|i: int| 0 <= i < shorter.len() && f(#[trigger] shorter[i]) == Some(item) {
            let i = choose|i: int| 0 <= i < shorter.len() && f(#[trigger] shorter[i]) == Some(item);
            assert(f(list[i]) == Some(item));
        }
        if more.contains(item) {
            assert(f(list[list.len() - 1]) == Some(item));
        }
        if exists|i: int| 0 <= i < list.len() && f(#[trigger] list[i]) == Some(item) {
            let i = choose|i: int| 0 <= i < list.len() && f(#[trigger] list[i]) == Some(item);
            if i < shorter.len() {
                assert(f(shorter[i]) == Some(item));
            } else {
                assert(more[0] == item);
            }
        }
    }
}

/// Tukui is asked for exactly the Tukui ids of the addons.
pub proof fn law_tukui_is_asked(addons: Seq<AddonView>, id: Seq<char>)
    ensures
        all_tukui_ids(addons).contains(id) <==> exists|i: int|
            0 <= i < addons.len() && (#[trigger] addons[i]).tukui_id == Some(id),
{
    let f = |a: AddonView| a.tukui_id;
    lemma_filter_map(addons, f, id);
    if exists|i: int| 0 <= i < addons.len() && (#[trigger] addons[i]).tukui_id == Some(id) {
        let i = choose|i: int| 0 <= i < addons.len() && (#[trigger] addons[i]).tukui_id == Some(id);
        assert(f(addons[i]) == Some(id));
    }
}

/// Curse is asked for exactly the fingerprints and the ids of the addons that have no Tukui id.
pub proof fn law_curse_is_asked(addons: Seq<AddonView>, n: u32)
    ensures
        all_fingerprint_hashes(addons).contains(n) <==> exists|i: int|
            0 <= i < addons.len() && (#[trigger] addons[i]).tukui_id is None
                && addons[i].fingerprint == Some(n),
        all_curse_ids(addons).contains(n) <==> exists|i: int|
            0 <= i < addons.len() && (#[trigger] addons[i]).tukui_id is None && addons[i].curse_id
                == Some(n),
{
    let by_hash = |a: AddonView|
        if a.tukui_id is Some {
            None
        } else {
            a.fingerprint
        };
    let by_id = |a: AddonView|
        if a.tukui_id is None {
            a.curse_id
        } else {
            None
        };
    lemma_filter_map(addons, by_hash, n);
    lemma_filter_map(addons, by_id, n);
    if exists|i: int|
        0 <= i < addons.len() && (#[trigger] addons[i]).tukui_id is None && addons[i].fingerprint
            == Some(n) {
        let i = choose|i: int|
            0 <= i < addons.len() && (#[trigger] addons[i]).tukui_id is None
                && addons[i].fingerprint == Some(n);
        assert(by_hash(addons[i]) == Some(n));
    }
    if exists|i: int|
        0 <= i < addons.len() && (#[trigger] addons[i]).tukui_id is None && addons[i].curse_id
            == Some(n) {
        let i = choose|i: int|
            0 <= i < addons.len() && (#[trigger] addons[i]).tukui_id is None && addons[i].curse_id
                == Some(n);
        assert(by_id(addons[i]) == Some(n));
    }
}

/// An addon is listed as known only by id exactly when it has a Curse id, no Tukui id, and no
/// addon of its name was matched by fingerprint.
pub proof fn law_known_by_id_only(
    addons: Seq<AddonView>,
    fingerprinted: Seq<AddonView>,
    a: AddonView,
)
    ensures
        known_by_id_only(addons, fingerprinted).contains(a) <==> addons.contains(a) && is_new(
            fingerprinted,
            a.id,
        ) && a.tukui_id is None && a.curse_id is Some,
{
    broadcast use vstd::seq_lib::group_filter_ensures;

    let p = |a: AddonView|
        is_new(fingerprinted, a.id) && a.tukui_id is None && a.curse_id is Some;
    let kept = known_by_id_only(addons, fingerprinted);
    assert(kept == addons.filter(p));
    if kept.contains(a) {
        addons.lemma_filter_contains_rev(p, a);
        let k = choose|k: int| 0 <= k < kept.len() && kept[k] == a;
        assert(p(addons.filter(p)[k]));
    }
    if addons.contains(a) && p(a) {
        let i = choose|i: int| 0 <= i < addons.len() && addons[i] == a;
        assert(addons.filter(p).contains(addons[i]));
    }
}

/// Every Tukui package that was fetched is applied, to the first addon that has its id; nothing
/// else is.
pub proof fn law_fetched_packages_are_applied(
    addons: Seq<AddonView>,
    fetched: Seq<bool>,
    n: nat,
    i: int,
    j: int,
)
    requires
        n <= fetched.len() == all_tukui_ids(addons).len(),
    ensures
        tukui_plan(addons, all_tukui_ids(addons), fetched, n).contains((i, j)) <==> 0 <= j < n
            && fetched[j] && first_place(
            addons,
            |a: AddonView| a.tukui_id == Some(all_tukui_ids(addons)[j]),
        ) == Some(i),
        0 <= j < n ==> first_place(
            addons,
            |a: AddonView| a.tukui_id == Some(all_tukui_ids(addons)[j]),
        ) is Some,
    decreases n,
{
    broadcast use vstd::seq_lib::lemma_seq_contains_after_push;

    let ids = all_tukui_ids(addons);
    if n > 0 {
        law_fetched_packages_are_applied(addons, fetched, (n - 1) as nat, i, j);
        let p = |a: AddonView| a.tukui_id == Some(ids[n - 1]);
        assert(ids.contains(ids[n - 1]));
        law_tukui_is_asked(addons, ids[n - 1]);
        law_first_place(addons, p);
        let k = choose|k: int|
            0 <= k < addons.len() && (#[trigger] addons[k]).tukui_id == Some(ids[n - 1]);
        assert(p(addons[k]));
    }
}

/// Every exact match that is about an addon is applied to that addon; nothing else is.
pub proof fn law_matches_are_applied(
    addons: Seq<AddonView>,
    infos: Seq<ExactMatch>,
    n: nat,
    i: int,
    j: int,
)
    requires
        n <= infos.len(),
    ensures
        match_plan(addons, infos, n).contains((i, j)) <==> 0 <= j < n && matched_place(
            addons,
            infos[j].id,
            infos[j].module_fingerprints@,
        ) == Some(i),
    decreases n,
{
    broadcast use vstd::seq_lib::lemma_seq_contains_after_push;

    if n > 0 {
        law_matches_are_applied(addons, infos, (n - 1) as nat, i, j);
    }
}

/// Curse packages change addons in their places: none is added and none is dropped.
pub proof fn law_curse_packages_keep_places<F: Fn(&Addon, usize, bool) -> Addon>(
    apply: F,
    ids: Seq<u32>,
    by_fingerprint: bool,
    before: Seq<Addon>,
    after: Seq<Addon>,
)
    requires
        curse_applied(apply, ids, by_fingerprint, before, after),
    ensures
        after.len() == before.len(),
{
    let states = choose|states: Seq<Seq<Addon>>|
        #[trigger] curse_steps(apply, ids, by_fingerprint, states) && states.first() == before
            && states.last() == after;
    lemma_steps_keep_len(apply, ids, by_fingerprint, states, ids.len() as int);
}

proof fn lemma_steps_keep_len<F: Fn(&Addon, usize, bool) -> Addon>(
    apply: F,
    ids: Seq<u32>,
    by_fingerprint: bool,
    states: Seq<Seq<Addon>>,
    k: int,
)
    requires
        curse_steps(apply, ids, by_fingerprint, states),
        0 <= k <= ids.len(),
    ensures
        states[k].len() == states[0].len(),
    decreases k,
{
    if k > 0 {
        lemma_steps_keep_len(apply, ids, by_fingerprint, states, k - 1);
        assert(curse_step(
            apply,
            states[k - 1],
            ids[k - 1],
            (k - 1) as usize,
            by_fingerprint,
            states[k - 1 + 1],
        ));
    }
}

/// A reading has one addon for each applied exact match, then one for each applied Tukui package,
/// then one for each addon that Curse knows only by id.
pub proof fn law_reading_is_complete<
    T: Fn(&Addon, usize) -> Addon,
    M: Fn(&Addon, usize) -> Addon,
    C: Fn(&Addon, usize, bool) -> Addon,
>(
    addons: Seq<Addon>,
    answers: Answers,
    apply_tukui: T,
    apply_match: M,
    apply_curse: C,
    reading: Reading,
)
    requires
        is_reading(addons, answers, apply_tukui, apply_match, apply_curse, reading),
    ensures
        reading.matched_done.len() == match_plan(
            addon_views(addons),
            answers.exact_matches@,
            answers.exact_matches@.len(),
        ).len(),
        reading.tukui_linked.len() == tukui_plan(
            addon_views(addons),
            all_tukui_ids(addon_views(addons)),
            answers.tukui_fetched@,
            answers.tukui_fetched@.len(),
        ).len(),
        reading.id_only_done.len() == known_by_id_only(
            addon_views(addons),
            addon_views(reading.matched),
        ).len(),
{
    if let Some(ids) = answers.curse_packages {
        law_curse_packages_keep_places(
            apply_curse,
            ids@,
            true,
            reading.matched,
            reading.matched_done,
        );
        law_curse_packages_keep_places(
            apply_curse,
            ids@,
            false,
            reading.id_only,
            reading.id_only_done,
        );
    }
    assert(addon_views(reading.tukui_linked).len() == addon_views(reading.tukui).len());
    assert(addon_views(reading.id_only).len() == reading.id_only.len());
}

/// The addon of an entry is the one that its TOC file describes, with the hash of the entry as its
/// fingerprint. The addons stand in the order of the entries; an entry without a TOC file, or with one
/// that describes no addon, has none.
pub proof fn law_one_more_entry(
    list: Seq<FingerprintView>,
    tocs: Seq<Option<TocFile>>,
    entry: FingerprintView,
    toc: Option<TocFile>,
)
    requires
        list.len() == tocs.len(),
    ensures
        addons_of(Seq::<FingerprintView>::empty(), Seq::<Option<TocFile>>::empty()).len() == 0,
        toc is None ==> addons_of(list.push(entry), tocs.push(toc)) == addons_of(list, tocs),
        toc matches Some(file) ==> match described(file.id@, file.path@, texts(file.lines@)) {
            None => addons_of(list.push(entry), tocs.push(toc)) == addons_of(list, tocs),
            Some(addon) => {
                let before = addons_of(list, tocs);
                let after = addons_of(list.push(entry), tocs.push(toc));
                &&& after.len() == before.len() + 1
                &&& after.drop_last() == before
                &&& after.last().fingerprint == entry.hash
                &&& after.last() == (AddonView { fingerprint: after.last().fingerprint, ..addon })
            },
        },
{
    assert(list.push(entry).drop_last() == list);
    assert(tocs.push(toc).drop_last() == tocs);
    if let Some(file) = toc {
        if let Some(addon) = described(file.id@, file.path@, texts(file.lines@)) {
            let after = addons_of(list.push(entry), tocs.push(toc));
            assert(after.drop_last() == addons_of(list, tocs));
        }
    }
}

proof fn lemma_filter_map_push<A, B>(list: Seq<A>, item: A, f: spec_fn(A) -> Option<B>)
    ensures
        list.push(item).filter_map(f) == (match f(item) {
            Some(b) => list.filter_map(f).push(b),
            None => list.filter_map(f),
        }),
{
    let longer = list.push(item);
    longer.lemma_filter_map_take_succ(f, list.len() as int);
    assert(longer.take(list.len() as int) == list);
    assert(longer.take(list.len() as int + 1) == longer);
}

/// What the repositories are asked about one more addon, behind all others: Tukui for its Tukui id,
/// where it has one; else Curse for its fingerprint and for its Curse id, where it has them.
pub proof fn law_one_more_question(addons: Seq<AddonView>, a: AddonView)
    ensures
        all_tukui_ids(Seq::<AddonView>::empty()).len() == 0,
        all_fingerprint_hashes(Seq::<AddonView>::empty()).len() == 0,
        all_curse_ids(Seq::<AddonView>::empty()).len() == 0,
        a.tukui_id matches Some(id) ==> all_tukui_ids(addons.push(a)) == all_tukui_ids(addons).push(id)
            && all_fingerprint_hashes(addons.push(a)) == all_fingerprint_hashes(addons)
            && all_curse_ids(addons.push(a)) == all_curse_ids(addons),
        a.tukui_id is None ==> all_tukui_ids(addons.push(a)) == all_tukui_ids(addons),
        (a.tukui_id is None && a.fingerprint is Some) ==> all_fingerprint_hashes(addons.push(a))
            == all_fingerprint_hashes(addons).push(a.fingerprint->0),
        (a.tukui_id is None && a.fingerprint is None) ==> all_fingerprint_hashes(addons.push(a))
            == all_fingerprint_hashes(addons),
        (a.tukui_id is None && a.curse_id is Some) ==> all_curse_ids(addons.push(a)) == all_curse_ids(
            addons,
        ).push(a.curse_id->0),
        (a.tukui_id is None && a.curse_id is None) ==> all_curse_ids(addons.push(a)) == all_curse_ids(
            addons,
        ),
{
    reveal_with_fuel(Seq::filter_map, 1);
    let by_hash = |a: AddonView|
        if a.tukui_id is Some {
            None
        } else {
            a.fingerprint
        };
    let by_id = |a: AddonView|
        if a.tukui_id is None {
            a.curse_id
        } else {
            None
        };
    lemma_filter_map_push(addons, a, |a: AddonView| a.tukui_id);
    lemma_filter_map_push(addons, a, by_hash);
    lemma_filter_map_push(addons, a, by_id);
}

/// A match is about the first addon with its Curse id. Where no addon has that id, it is about the
/// first addon whose fingerprint is any of those of its modules, and about none where there is none.
pub proof fn law_matched_place(addons: Seq<AddonView>, id: u32, fingerprints: Seq<u32>)
    ensures
        forall|i: int|
            0 <= i < addons.len() && (#[trigger] addons[i]).curse_id == Some(id) && (forall|j: int|
                0 <= j < i ==> (#[trigger] addons[j]).curse_id != Some(id)) ==> matched_place(
                addons,
                id,
                fingerprints,
            ) == Some(i),
        (forall|j: int| 0 <= j < addons.len() ==> (#[trigger] addons[j]).curse_id != Some(id)) ==> {
            &&& forall|i: int, k: int|
                0 <= i < addons.len() && 0 <= k < fingerprints.len() && (
                #[trigger] addons[i]).fingerprint == Some(#[trigger] fingerprints[k]) && (forall|
                    j: int,
                    m: int,
                |
                    0 <= j < i && 0 <= m < fingerprints.len() ==> (#[trigger] addons[j]).fingerprint
                        != Some(#[trigger] fingerprints[m])) ==> matched_place(
                    addons,
                    id,
                    fingerprints,
                ) == Some(i)
            &&& (forall|j: int, m: int|
                0 <= j < addons.len() && 0 <= m < fingerprints.len() ==> (
                #[trigger] addons[j]).fingerprint != Some(#[trigger] fingerprints[m]))
                ==> matched_place(addons, id, fingerprints) is None
        },
        matched_place(addons, id, fingerprints) matches Some(i) ==> 0 <= i < addons.len() && (
        addons[i].curse_id == Some(id) || exists|k: int|
            0 <= k < fingerprints.len() && addons[i].fingerprint == Some(#[trigger] fingerprints[k])),
{
    let by_id = |a: AddonView| a.curse_id == Some(id);
    let by_module = |a: AddonView| is_module(a, fingerprints);
    law_first_place(addons, by_id);
    law_first_place(addons, by_module);
    assert forall|i: int|
        0 <= i < addons.len() && (#[trigger] addons[i]).curse_id == Some(id) && (forall|j: int|
            0 <= j < i ==> (#[trigger] addons[j]).curse_id != Some(id)) implies matched_place(
        addons,
        id,
        fingerprints,
    ) == Some(i) by {
        assert(by_id(addons[i]));
        let r = first_place(addons, by_id)->0;
        if r < i {
            assert(by_id(addons[r]));
        }
    }
    if forall|j: int| 0 <= j < addons.len() ==> (#[trigger] addons[j]).curse_id != Some(id) {
        if let Some(r) = first_place(addons, by_id) {
            assert(by_id(addons[r]));
        }
        assert forall|i: int, k: int|
            0 <= i < addons.len() && 0 <= k < fingerprints.len() && (#[trigger] addons[i]).fingerprint
                == Some(#[trigger] fingerprints[k]) && (forall|j: int, m: int|
                0 <= j < i && 0 <= m < fingerprints.len() ==> (#[trigger] addons[j]).fingerprint
                    != Some(#[trigger] fingerprints[m])) implies matched_place(
            addons,
            id,
            fingerprints,
        ) == Some(i) by {
            assert(fingerprints.contains(fingerprints[k]));
            assert(by_module(addons[i]));
            let r = first_place(addons, by_module)->0;
            if r < i {
                assert(by_module(addons[r]));
                let m = choose|m: int|
                    0 <= m < fingerprints.len() && fingerprints[m] == addons[r].fingerprint->0;
                assert(addons[r].fingerprint != Some(fingerprints[m]));
            }
        }
        if forall|j: int, m: int|
            0 <= j < addons.len() && 0 <= m < fingerprints.len() ==> (
            #[trigger] addons[j]).fingerprint != Some(#[trigger] fingerprints[m]) {
            if let Some(r) = first_place(addons, by_module) {
                assert(by_module(addons[r]));
                let m = choose|m: int|
                    0 <= m < fingerprints.len() && fingerprints[m] == addons[r].fingerprint->0;
                assert(addons[r].fingerprint != Some(fingerprints[m]));
            }
        }
    }
    if let Some(i) = matched_place(addons, id, fingerprints) {
        if first_place(addons, by_id) is Some {
            assert(by_id(addons[i]));
        } else {
            assert(by_module(addons[i]));
            let k = choose|k: int|
                0 <= k < fingerprints.len() && fingerprints[k] == addons[i].fingerprint->0;
            assert(addons[i].fingerprint == Some(fingerprints[k]));
        }
    }
}

/// The order of the modules of a match does not matter, nor how often one of them is told.
pub proof fn law_order_of_modules(addons: Seq<AddonView>, id: u32, a: Seq<u32>, b: Seq<u32>)
    requires
        forall|n: u32| #[trigger] a.contains(n) <==> b.contains(n),
    ensures
        matched_place(addons, id, a) == matched_place(addons, id, b),
{
    let in_a = |x: AddonView| is_module(x, a);
    let in_b = |x: AddonView| is_module(x, b);
    assert forall|x: AddonView| #[trigger] in_a(x) == in_b(x) by {}
    assert(in_a =~= in_b);
}

/// Packages are applied in the order in which they came, each at most once.
pub proof fn law_plans_in_order(
    addons: Seq<AddonView>,
    ids: Seq<Seq<char>>,
    fetched: Seq<bool>,
    infos: Seq<ExactMatch>,
    n: nat,
)
    ensures
        forall|k: int|
            0 <= k < tukui_plan(addons, ids, fetched, n).len() ==> 0 <= (
            #[trigger] tukui_plan(addons, ids, fetched, n)[k]).1 < n,
        forall|k: int, m: int|
            0 <= k < m < tukui_plan(addons, ids, fetched, n).len() ==> (
            #[trigger] tukui_plan(addons, ids, fetched, n)[k]).1 < (
            #[trigger] tukui_plan(addons, ids, fetched, n)[m]).1,
        forall|k: int|
            0 <= k < match_plan(addons, infos, n).len() ==> 0 <= (
            #[trigger] match_plan(addons, infos, n)[k]).1 < n,
        forall|k: int, m: int|
            0 <= k < m < match_plan(addons, infos, n).len() ==> (
            #[trigger] match_plan(addons, infos, n)[k]).1 < (
            #[trigger] match_plan(addons, infos, n)[m]).1,
    decreases n,
{
    if n > 0 {
        let m = (n - 1) as nat;
        law_plans_in_order(addons, ids, fetched, infos, m);
        let (a, b) = (tukui_plan(addons, ids, fetched, m), tukui_plan(addons, ids, fetched, n));
        assert(a.len() <= b.len() <= a.len() + 1);
        assert forall|k: int| 0 <= k < a.len() implies b[k] == #[trigger] a[k] by {}
        assert(b.len() > a.len() ==> b[a.len() as int].1 == m);
        assert forall|k: int| 0 <= k < b.len() implies 0 <= (#[trigger] b[k]).1 < n && (k < a.len()
            ==> b[k].1 < m) by {
            if k < a.len() {
                assert(a[k].1 < m);
            }
        }
        assert forall|k: int, l: int| 0 <= k < l < b.len() implies (#[trigger] b[k]).1 < (
        #[trigger] b[l]).1 by {
            if l < a.len() {
                assert(a[k].1 < a[l].1);
            }
        }
        let (c, d) = (match_plan(addons, infos, m), match_plan(addons, infos, n));
        assert(c.len() <= d.len() <= c.len() + 1);
        assert forall|k: int| 0 <= k < c.len() implies d[k] == #[trigger] c[k] by {}
        assert(d.len() > c.len() ==> d[c.len() as int].1 == m);
        assert forall|k: int| 0 <= k < d.len() implies 0 <= (#[trigger] d[k]).1 < n && (k < c.len()
            ==> d[k].1 < m) by {
            if k < c.len() {
                assert(c[k].1 < m);
            }
        }
        assert forall|k: int, l: int| 0 <= k < l < d.len() implies (#[trigger] d[k]).1 < (
        #[trigger] d[l]).1 by {
            if l < c.len() {
                assert(c[k].1 < c[l].1);
            }
        }
    }
}

/// What comes of a plan: for each of its pairs, in their order, the addon at that place with the
/// package of that number applied.
pub proof fn law_plan_is_followed<F: Fn(&Addon, usize) -> Addon>(
    apply: F,
    addons: Seq<Addon>,
    plan: Seq<(int, int)>,
    out: Seq<Addon>,
    i: int,
    j: int,
)
    requires
        follows(apply, addons, plan, out),
    ensures
        out.len() == plan.len(),
        plan.contains((i, j)) ==> exists|k: int|
            0 <= k < out.len() && plan[k] == (i, j) && call_ensures(
                apply,
                (&addons[i], j as usize),
                #[trigger] out[k],
            ),
{
    if plan.contains((i, j)) {
        let k = choose|k: int| 0 <= k < plan.len() && plan[k] == (i, j);
        assert(call_ensures(apply, (&addons[plan[k].0], plan[k].1 as usize), out[k]));
    }
}

/// One more addon is known only by its id exactly where it has a Curse id and no Tukui id and no
/// matched addon has its name; then it comes behind all others, as it is.
pub proof fn law_one_more_known_by_id(
    addons: Seq<AddonView>,
    fingerprinted: Seq<AddonView>,
    a: AddonView,
)
    ensures
        known_by_id_only(Seq::<AddonView>::empty(), fingerprinted).len() == 0,
        known_by_id_only(addons.push(a), fingerprinted) == (if a.curse_id is Some && a.tukui_id is None
            && (forall|i: int|
            0 <= i < fingerprinted.len() ==> (#[trigger] fingerprinted[i]).id != a.id) {
            known_by_id_only(addons, fingerprinted).push(a)
        } else {
            known_by_id_only(addons, fingerprinted)
        }),
{
    reveal_with_fuel(Seq::filter, 2);
    assert(addons.push(a).drop_last() == addons);
}

/// Whether the first addon with a Curse id, and it alone, has a package applied to it.
pub open spec fn is_applied_to_first<F: Fn(&Addon, usize, bool) -> Addon>(
    apply: F,
    before: Seq<Addon>,
    id: u32,
    number: usize,
    by_fingerprint: bool,
    after: Seq<Addon>,
) -> bool {
    &&& after.len() == before.len()
    &&& forall|i: int|
        0 <= i < before.len() && (#[trigger] before[i]).curse_id == Some(id) && (forall|j: int|
            0 <= j < i ==> (#[trigger] before[j]).curse_id != Some(id)) ==> call_ensures(
            apply,
            (&before[i], number, by_fingerprint),
            after[i],
        ) && (forall|j: int| 0 <= j < before.len() && j != i ==> #[trigger] after[j] == before[j])
    &&& (forall|j: int| 0 <= j < before.len() ==> (#[trigger] before[j]).curse_id != Some(id))
        ==> after == before
}

proof fn lemma_applied_to_first<F: Fn(&Addon, usize, bool) -> Addon>(
    apply: F,
    before: Seq<Addon>,
    id: u32,
    number: usize,
    by_fingerprint: bool,
    after: Seq<Addon>,
)
    requires
        curse_step(apply, before, id, number, by_fingerprint, after),
    ensures
        is_applied_to_first(apply, before, id, number, by_fingerprint, after),
{
    let p = |a: AddonView| a.curse_id == Some(id);
    let views = addon_views(before);
    law_first_place(views, p);
    assert forall|i: int| 0 <= i < before.len() implies p(views[i]) == ((
    #[trigger] before[i]).curse_id == Some(id)) by {}
    match first_place(views, p) {
        None => {
            assert forall|i: int| 0 <= i < before.len() implies (#[trigger] before[i]).curse_id
                != Some(id) by {
                assert(!p(views[i]));
            }
        },
        Some(r) => {
            assert(p(views[r]));
            assert(before[r].curse_id == Some(id));
            assert forall|i: int|
                0 <= i < before.len() && (#[trigger] before[i]).curse_id == Some(id) && (forall|
                    j: int,
                |
                    0 <= j < i ==> (#[trigger] before[j]).curse_id != Some(id)) implies i == r by {
                if i < r {
                    assert(!p(views[i]));
                }
            }
        },
    }
}

/// The last Curse package is applied, under its number, to the first addon that has its id; all other
/// addons stay, and so do all where none has that id.
pub proof fn law_one_more_curse_package<F: Fn(&Addon, usize, bool) -> Addon>(
    apply: F,
    ids: Seq<u32>,
    id: u32,
    by_fingerprint: bool,
    before: Seq<Addon>,
    after: Seq<Addon>,
) -> (between: Seq<Addon>)
    requires
        curse_applied(apply, ids.push(id), by_fingerprint, before, after),
    ensures
        curse_applied(apply, ids, by_fingerprint, before, between),
        is_applied_to_first(apply, between, id, ids.len() as usize, by_fingerprint, after),
{
    let states = choose|states: Seq<Seq<Addon>>|
        #[trigger] curse_steps(apply, ids.push(id), by_fingerprint, states) && states.first()
            == before && states.last() == after;
    lemma_steps_before_last(apply, ids, id, by_fingerprint, states);
    lemma_last_step(apply, ids, id, by_fingerprint, states);
    let less = states.take(ids.len() as int + 1);
    assert(less.first() == before && less.last() == states[ids.len() as int]);
    states[ids.len() as int]
}

proof fn lemma_steps_before_last<F: Fn(&Addon, usize, bool) -> Addon>(
    apply: F,
    ids: Seq<u32>,
    id: u32,
    by_fingerprint: bool,
    states: Seq<Seq<Addon>>,
)
    requires
        curse_steps(apply, ids.push(id), by_fingerprint, states),
    ensures
        curse_steps(apply, ids, by_fingerprint, states.take(ids.len() as int + 1)),
{
    let longer = ids.push(id);
    let less = states.take(ids.len() as int + 1);
    assert forall|k: int| 0 <= k < ids.len() implies curse_step(
        apply,
        #[trigger] less[k],
        ids[k],
        k as usize,
        by_fingerprint,
        less[k + 1],
    ) by {
        assert(curse_step(
            apply,
            states[k],
            longer[k],
            k as usize,
            by_fingerprint,
            states[k + 1],
        ));
    }
}

proof fn lemma_last_step<F: Fn(&Addon, usize, bool) -> Addon>(
    apply: F,
    ids: Seq<u32>,
    id: u32,
    by_fingerprint: bool,
    states: Seq<Seq<Addon>>,
)
    requires
        curse_steps(apply, ids.push(id), by_fingerprint, states),
    ensures
        is_applied_to_first(
            apply,
            states[ids.len() as int],
            id,
            ids.len() as usize,
            by_fingerprint,
            states.last(),
        ),
{
    let n = ids.len() as int;
    assert(curse_step(
        apply,
        states[n],
        ids.push(id)[n],
        n as usize,
        by_fingerprint,
        states[n + 1],
    ));
    lemma_applied_to_first(apply, states[n], id, n as usize, by_fingerprint, states.last());
}

/// No Curse package changes nothing.
pub proof fn law_no_curse_package<F: Fn(&Addon, usize, bool) -> Addon>(
    apply: F,
    by_fingerprint: bool,
    before: Seq<Addon>,
    after: Seq<Addon>,
)
    requires
        curse_applied(apply, Seq::<u32>::empty(), by_fingerprint, before, after),
    ensures
        after == before,
{
}

/// In a reading the Curse packages are applied twice, where they came: to the matched addons, which are
/// told to be matched by fingerprint, and to those known only by id, which are not.
pub proof fn law_curse_packages_of_reading<
    T: Fn(&Addon, usize) -> Addon,
    M: Fn(&Addon, usize) -> Addon,
    C: Fn(&Addon, usize, bool) -> Addon,
>(
    addons: Seq<Addon>,
    answers: Answers,
    apply_tukui: T,
    apply_match: M,
    apply_curse: C,
    reading: Reading,
)
    requires
        is_reading(addons, answers, apply_tukui, apply_match, apply_curse, reading),
    ensures
        answers.curse_packages is None ==> reading.matched_done == reading.matched
            && reading.id_only_done == reading.id_only,
        answers.curse_packages matches Some(ids) ==> curse_applied(
            apply_curse,
            ids@,
            true,
            reading.matched,
            reading.matched_done,
        ) && curse_applied(apply_curse, ids@, false, reading.id_only, reading.id_only_done),
{
}

/// In a reading the Tukui addons get the names of all installed addons that depend on them, and keep
/// the rest.
pub proof fn law_links_of_reading<
    T: Fn(&Addon, usize) -> Addon,
    M: Fn(&Addon, usize) -> Addon,
    C: Fn(&Addon, usize, bool) -> Addon,
>(
    addons: Seq<Addon>,
    answers: Answers,
    apply_tukui: T,
    apply_match: M,
    apply_curse: C,
    reading: Reading,
    k: int,
    item: Seq<char>,
)
    requires
        is_reading(addons, answers, apply_tukui, apply_match, apply_curse, reading),
        0 <= k < reading.tukui.len(),
    ensures
        reading.tukui_linked.len() == reading.tukui.len(),
        reading.tukui_linked[k]@.dependencies.contains(item) <==> reading.tukui[k]@.dependencies.contains(
            item,
        ) || exists|j: int|
            0 <= j < addons.len() && (#[trigger] addons[j])@.id == item
                && addons[j]@.dependencies.contains(reading.tukui[k]@.id),
        reading.tukui_linked[k]@ == (AddonView {
            dependencies: reading.tukui_linked[k]@.dependencies,
            ..reading.tukui[k]@
        }),
{
    let all = addon_views(addons);
    let own = reading.tukui[k]@;
    assert(addon_views(reading.tukui)[k] == own);
    assert(addon_views(reading.tukui_linked).len() == addon_views(reading.tukui).len());
    assert(addon_views(reading.tukui_linked)[k] == reading.tukui_linked[k]@);
    assert(reading.tukui_linked[k]@ == linked(own, all));
    law_links_go_both_ways(own, all, item);
    law_links_do_not_repeat(own, all);
    if depends(all, item, own.id) {
        let j = choose|j: int|
            0 <= j < all.len() && (#[trigger] all[j]).id == item && all[j].dependencies.contains(
                own.id,
            );
        assert(addons[j]@ == all[j]);
    }
    if exists|j: int|
        0 <= j < addons.len() && (#[trigger] addons[j])@.id == item && addons[j]@.dependencies.contains(
            own.id,
        ) {
        let j = choose|j: int|
            0 <= j < addons.len() && (#[trigger] addons[j])@.id == item
                && addons[j]@.dependencies.contains(own.id);
        assert(all[j] == addons[j]@);
    }
}

/// The list of a reading holds every addon of its three groups once, one group behind the other.
pub proof fn law_list_of_reading(reading: Reading)
    ensures
        ({
            let m = reading.matched_done.len() as int;
            let t = reading.tukui_linked.len() as int;
            let d = reading.id_only_done.len() as int;
            &&& all_read(reading).len() == m + t + d
            &&& forall|k: int| 0 <= k < m ==> all_read(reading)[k] == #[trigger] reading.matched_done[k]
            &&& forall|k: int|
                0 <= k < t ==> all_read(reading)[m + k] == #[trigger] reading.tukui_linked[k]
            &&& forall|k: int|
                0 <= k < d ==> all_read(reading)[m + t + k] == #[trigger] reading.id_only_done[k]
        }),
{
}

/// In a reading every fetched Tukui package is applied to the first addon that has its id, and every
/// exact match to the addon that it is about. Those known only by id are picked from all installed
/// addons, by the names of the matched ones.
pub proof fn law_packages_of_reading<
    T: Fn(&Addon, usize) -> Addon,
    M: Fn(&Addon, usize) -> Addon,
    C: Fn(&Addon, usize, bool) -> Addon,
>(
    addons: Seq<Addon>,
    answers: Answers,
    apply_tukui: T,
    apply_match: M,
    apply_curse: C,
    reading: Reading,
    i: int,
    j: int,
)
    requires
        is_reading(addons, answers, apply_tukui, apply_match, apply_curse, reading),
        answers.tukui_fetched@.len() == all_tukui_ids(addon_views(addons)).len(),
    ensures
        (0 <= j < answers.tukui_fetched@.len() && answers.tukui_fetched@[j] && 0 <= i < addons.len()
            && addons[i]@.tukui_id == Some(all_tukui_ids(addon_views(addons))[j]) && (forall|m: int|
            0 <= m < i ==> (#[trigger] addons[m])@.tukui_id != Some(
                all_tukui_ids(addon_views(addons))[j],
            ))) ==> exists|k: int|
            0 <= k < reading.tukui.len() && call_ensures(
                apply_tukui,
                (&addons[i], j as usize),
                #[trigger] reading.tukui[k],
            ),
        (0 <= j < answers.exact_matches@.len() && matched_place(
            addon_views(addons),
            answers.exact_matches@[j].id,
            answers.exact_matches@[j].module_fingerprints@,
        ) == Some(i)) ==> exists|k: int|
            0 <= k < reading.matched.len() && call_ensures(
                apply_match,
                (&addons[i], j as usize),
                #[trigger] reading.matched[k],
            ),
        addon_views(reading.id_only) == known_by_id_only(
            addon_views(addons),
            addon_views(reading.matched),
        ),
{
    let all = addon_views(addons);
    let ids = all_tukui_ids(all);
    let fetched = answers.tukui_fetched@;
    if 0 <= j < fetched.len() && fetched[j] && 0 <= i < addons.len() && addons[i]@.tukui_id == Some(
        ids[j],
    ) && (forall|m: int| 0 <= m < i ==> (#[trigger] addons[m])@.tukui_id != Some(ids[j])) {
        let p = |a: AddonView| a.tukui_id == Some(ids[j]);
        law_first_place(all, p);
        assert(p(all[i]));
        let r = first_place(all, p)->0;
        if r < i {
            assert(p(all[r]));
            assert(addons[r]@.tukui_id == Some(ids[j]));
        }
        law_fetched_packages_are_applied(all, fetched, fetched.len(), i, j);
        law_plan_is_followed(
            apply_tukui,
            addons,
            tukui_plan(all, ids, fetched, fetched.len()),
            reading.tukui,
            i,
            j,
        );
    }
    let infos = answers.exact_matches@;
    if 0 <= j < infos.len() && matched_place(all, infos[j].id, infos[j].module_fingerprints@) == Some(
        i,
    ) {
        law_matches_are_applied(all, infos, infos.len(), i, j);
        law_plan_is_followed(
            apply_match,
            addons,
            match_plan(all, infos, infos.len()),
            reading.matched,
            i,
            j,
        );
    }
}

/// The name of a TOC file is the title as it is written, and four characters behind it.
pub proof fn law_toc_name(title: Seq<char>)
    ensures
        toc_name(title).len() == title.len() + 4,
        toc_name(title).take(title.len() as int) == title,
        toc_name(title).skip(title.len() as int) == seq!['.', 't', 'o', 'c'],
{
    reveal_strlit(".toc");
    assert(toc_name(title).take(title.len() as int) == title);
    assert(toc_name(title).skip(title.len() as int) == seq!['.', 't', 'o', 'c']);
}

} // verus!
