//! Dependencies between addons, seen from both sides.

use vstd::prelude::*;

use crate::addon::{addon_views, Addon, AddonView};
use crate::text::texts;

verus! {

/// The id of an addon, as often as it names `id` among its dependencies.
pub open spec fn names(
    addon_id: Seq<char>,
    dependencies: Seq<Seq<char>>,
    id: Seq<char>,
) -> Seq<Seq<char>>
    decreases dependencies.len(),
{
    if dependencies.len() == 0 {
        Seq::<Seq<char>>::empty()
    } else {
        let before = names(addon_id, dependencies.drop_last(), id);
        if dependencies.last() == id {
            before.push(addon_id)
        } else {
            before
        }
    }
}

/// The ids of the addons that depend on `id`, in their order.
pub open spec fn dependents(all: Seq<AddonView>, id: Seq<char>) -> Seq<Seq<char>>
    decreases all.len(),
{
    if all.len() == 0 {
        Seq::<Seq<char>>::empty()
    } else {
        dependents(all.drop_last(), id) + names(all.last().id, all.last().dependencies, id)
    }
}

/// A list in which no item follows its equal: of each run only the first item is left.
pub open spec fn without_repeats(list: Seq<Seq<char>>) -> Seq<Seq<char>>
    decreases list.len(),
{
    if list.len() < 2 {
        list
    } else {
        let before = without_repeats(list.drop_last());
        if list[list.len() - 2] == list.last() {
            before
        } else {
            before.push(list.last())
        }
    }
}

/// An addon together with the addons that depend on it.
pub open spec fn linked(addon: AddonView, all: Seq<AddonView>) -> AddonView {
    AddonView {
        dependencies: without_repeats(addon.dependencies + dependents(all, addon.id)),
        ..addon
    }
}

/// A run of equal items is left with its first item, so the last one stays the last one.
proof fn lemma_last_stays(list: Seq<Seq<char>>)
    requires
        list.len() > 0,
    ensures
        without_repeats(list).len() > 0,
        without_repeats(list).last() == list.last(),
    decreases list.len(),
{
    if list.len() >= 2 {
        lemma_last_stays(list.drop_last());
    }
}

fn remove_repeats(list: &Vec<String>) -> (r: Vec<String>)
    ensures
        texts(r@) == without_repeats(texts(list@)),
{
    let mut r: Vec<String> = Vec::new();
    let ghost all = texts(list@);
    let mut i: usize = 0;
    while i < list.len()
        invariant
            i <= list@.len(),
            all == texts(list@),
            texts(r@) == without_repeats(all.take(i as int)),
        decreases list@.len() - i,
    {
        proof {
            assert(all.take(i + 1).drop_last() == all.take(i as int));
            assert(texts(r@.push(list@[i as int])) == texts(r@).push(list@[i as int]@));
            assert(all[i as int] == list@[i as int]@);
        }
        if i == 0 || list[i - 1] != list[i] {
            r.push(list[i].clone());
        }
        i = i + 1;
    }
    assert(all.take(all.len() as int) == all);
    r
}

/// Puts the ids of all addons that depend on `id` behind `out`.
fn push_dependents(out: &mut Vec<String>, all: &Vec<Addon>, id: &String)
    ensures
        texts(final(out)@) == texts(old(out)@) + dependents(addon_views(all@), id@),
{
    let ghost start = texts(out@);
    let ghost views = addon_views(all@);
    let mut i: usize = 0;
    assert(start == start + dependents(views.take(0), id@));
    while i < all.len()
        invariant
            i <= all@.len(),
            views == addon_views(all@),
            texts(out@) == start + dependents(views.take(i as int), id@),
        decreases all@.len() - i,
    {
        let ghost before = texts(out@);
        let ghost listed = texts(all@[i as int].dependencies@);
        let mut j: usize = 0;
        assert(before == before + names(all@[i as int].id@, listed.take(0), id@));
        while j < all[i].dependencies.len()
            invariant
                i < all@.len(),
                j <= all@[i as int].dependencies@.len(),
                listed == texts(all@[i as int].dependencies@),
                texts(out@) == before + names(all@[i as int].id@, listed.take(j as int), id@),
            decreases all@[i as int].dependencies@.len() - j,
        {
            proof {
                assert(listed.take(j + 1).drop_last() == listed.take(j as int));
                assert(listed[j as int] == all@[i as int].dependencies@[j as int]@);
            }
            if all[i].dependencies[j] == *id {
                let ghost held = out@;
                out.push(all[i].id.clone());
                assert(texts(out@) == texts(held).push(all@[i as int].id@));
            }
            j = j + 1;
        }
        proof {
            assert(listed.take(listed.len() as int) == listed);
            assert(views.take(i + 1).drop_last() == views.take(i as int));
        }
        i = i + 1;
    }
    assert(views.take(views.len() as int) == views);
}

/// Adds to each of `sliced_addons` the addons among `all_addons` that depend on it.
pub fn link_dependencies_bidirectional(sliced_addons: &mut Vec<Addon>, all_addons: &Vec<Addon>)
    ensures
        addon_views(final(sliced_addons)@) == addon_views(old(sliced_addons)@).map_values(
            |a: AddonView| linked(a, addon_views(all_addons@)),
        ),
{
    let ghost before = addon_views(sliced_addons@);
    let ghost after = before.map_values(|a: AddonView| linked(a, addon_views(all_addons@)));
    let mut i: usize = 0;
    while i < sliced_addons.len()
        invariant
            i <= sliced_addons@.len() == before.len(),
            before == addon_views(old(sliced_addons)@),
            after == before.map_values(|a: AddonView| linked(a, addon_views(all_addons@))),
            addon_views(sliced_addons@) == after.take(i as int) + before.skip(i as int),
        decreases sliced_addons@.len() - i,
    {
        let ghost held = sliced_addons@;
        assert(addon_views(held)[i as int] == before[i as int]);
        let mut addon = sliced_addons[i].clone();
        let mut dependencies: Vec<String> = Vec::new();
        std::mem::swap(&mut dependencies, &mut addon.dependencies);
        push_dependents(&mut dependencies, all_addons, &addon.id);
        addon.dependencies = remove_repeats(&dependencies);
        assert(addon@ == after[i as int]);
        sliced_addons.set(i, addon);
        i = i + 1;
        assert forall|j: int| 0 <= j < before.len() implies #[trigger] addon_views(
            sliced_addons@,
        )[j] == (after.take(i as int) + before.skip(i as int))[j] by {
            assert(j != i - 1 ==> addon_views(sliced_addons@)[j] == addon_views(held)[j]);
            assert(addon_views(sliced_addons@)[i - 1] == after[i - 1]);
        }
        assert(addon_views(sliced_addons@) == after.take(i as int) + before.skip(i as int));
    }
}

proof fn lemma_repeats_keep_items(list: Seq<Seq<char>>, item: Seq<char>)
    ensures
        without_repeats(list).contains(item) <==> list.contains(item),
    decreases list.len(),
{
    if list.len() >= 2 {
        let shorter = list.drop_last();
        lemma_repeats_keep_items(shorter, item);
        let before = without_repeats(shorter);
        assert(list == shorter.push(list.last()));
        broadcast use vstd::seq_lib::lemma_seq_contains_after_push;

        assert(list.contains(item) <==> shorter.contains(item) || item == list.last());
        if list[list.len() - 2] == list.last() {
            assert(shorter[shorter.len() - 1] == list.last());
            assert(shorter.contains(list.last()));
        } else {
            assert(before.push(list.last()).contains(item) <==> before.contains(item) || item
                == list.last());
        }
    }
}

proof fn lemma_names(addon_id: Seq<char>, dependencies: Seq<Seq<char>>, id: Seq<char>)
    ensures
        forall|item: Seq<char>|
            #[trigger] names(addon_id, dependencies, id).contains(item) <==> item == addon_id
                && dependencies.contains(id),
    decreases dependencies.len(),
{
    if dependencies.len() > 0 {
        let shorter = dependencies.drop_last();
        lemma_names(addon_id, shorter, id);
        broadcast use vstd::seq_lib::lemma_seq_contains_after_push;

        assert(dependencies == shorter.push(dependencies.last()));
        assert(dependencies.contains(id) <==> shorter.contains(id) || id == dependencies.last());
        assert forall|item: Seq<char>|
            #[trigger] names(addon_id, dependencies, id).contains(item) <==> item == addon_id
                && dependencies.contains(id) by {
            assert(names(addon_id, shorter, id).contains(item) <==> item == addon_id
                && shorter.contains(id));
        }
    }
}

/// Whether one of the addons is called `item` and depends on `id`.
pub open spec fn depends(all: Seq<AddonView>, item: Seq<char>, id: Seq<char>) -> bool {
    exists|j: int|
        0 <= j < all.len() && (#[trigger] all[j]).id == item && all[j].dependencies.contains(id)
}

proof fn lemma_dependents(all: Seq<AddonView>, id: Seq<char>, item: Seq<char>)
    ensures
        dependents(all, id).contains(item) <==> depends(all, item, id),
    decreases all.len(),
{
    if all.len() > 0 {
        let shorter = all.drop_last();
        let before = dependents(shorter, id);
        let more = names(all.last().id, all.last().dependencies, id);
        lemma_dependents(shorter, id, item);
        lemma_names(all.last().id, all.last().dependencies, id);
        vstd::seq_lib::lemma_seq_concat_contains_all_elements(before, more, item);
        if depends(shorter, item, id) {
            let j = choose|j: int|
                0 <= j < shorter.len() && (#[trigger] shorter[j]).id == item
                    && shorter[j].dependencies.contains(id);
            assert(all[j] == shorter[j]);
        }
        if more.contains(item) {
            assert(all[all.len() - 1].id == item);
        }
        if depends(all, item, id) {
            let j = choose|j: int|
                0 <= j < all.len() && (#[trigger] all[j]).id == item && all[j].dependencies.contains(
                    id,
                );
            if j < shorter.len() {
                assert(shorter[j] == all[j]);
            } else {
                assert(more.contains(item));
            }
        }
    }
}

/// Linking is bidirectional: a linked addon names exactly those addons that it named before and
/// those that name it.
pub proof fn law_links_go_both_ways(addon: AddonView, all: Seq<AddonView>, item: Seq<char>)
    ensures
        linked(addon, all).dependencies.contains(item) <==> addon.dependencies.contains(item)
            || depends(all, item, addon.id),
{
    let joined = addon.dependencies + dependents(all, addon.id);
    lemma_repeats_keep_items(joined, item);
    lemma_dependents(all, addon.id, item);
    vstd::seq_lib::lemma_seq_concat_contains_all_elements(
        addon.dependencies,
        dependents(all, addon.id),
        item,
    );
}

/// Linking leaves no two equal names next to each other, and changes nothing but the
/// dependencies.
pub proof fn law_links_do_not_repeat(addon: AddonView, all: Seq<AddonView>)
    ensures
        forall|i: int|
            0 <= i < linked(addon, all).dependencies.len() - 1 ==> linked(addon, all).dependencies[i]
                != #[trigger] linked(addon, all).dependencies[i + 1],
        linked(addon, all) == (AddonView {
            dependencies: linked(addon, all).dependencies,
            ..addon
        }),
{
    lemma_no_repeats(addon.dependencies + dependents(all, addon.id));
}

proof fn lemma_no_repeats(list: Seq<Seq<char>>)
    ensures
        forall|i: int|
            0 <= i < without_repeats(list).len() - 1 ==> without_repeats(list)[i]
                != #[trigger] without_repeats(list)[i + 1],
    decreases list.len(),
{
    if list.len() >= 2 {
        lemma_no_repeats(list.drop_last());
        lemma_last_stays(list.drop_last());
    }
}

/// Linking goes through the addons in their order. One that does not depend on the linked addon adds
/// nothing. One that does is named behind all others, unless it is the last one named already.
pub proof fn law_links_in_order(addon: AddonView, all: Seq<AddonView>, other: AddonView)
    ensures
        !other.dependencies.contains(addon.id) ==> linked(addon, all.push(other)) == linked(addon, all),
        other.dependencies.contains(addon.id) ==> {
            let before = linked(addon, all).dependencies;
            let after = linked(addon, all.push(other)).dependencies;
            if before.len() > 0 && before.last() == other.id {
                after == before
            } else {
                after == before.push(other.id)
            }
        },
{
    let own = addon.dependencies + dependents(all, addon.id);
    let more = names(other.id, other.dependencies, addon.id);
    assert(all.push(other).drop_last() == all);
    assert(addon.dependencies + dependents(all.push(other), addon.id) == own + more);
    lemma_names(other.id, other.dependencies, addon.id);
    if !other.dependencies.contains(addon.id) {
        if more.len() > 0 {
            assert(more.contains(more[0]));
        }
        assert(own + more == own);
    } else {
        assert(more.contains(other.id));
        assert forall|i: int| 0 <= i < more.len() implies #[trigger] more[i] == other.id by {
            assert(more.contains(more[i]));
        }
        lemma_run_is_one(own, more, other.id);
    }
}

/// A run of one item behind a list adds that item once, unless the list ends with it.
proof fn lemma_run_is_one(list: Seq<Seq<char>>, run: Seq<Seq<char>>, item: Seq<char>)
    requires
        run.len() > 0,
        forall|i: int| 0 <= i < run.len() ==> #[trigger] run[i] == item,
    ensures
        ({
            let before = without_repeats(list);
            without_repeats(list + run) == (if before.len() > 0 && before.last() == item {
                before
            } else {
                before.push(item)
            })
        }),
    decreases run.len(),
{
    let all = list + run;
    let less = run.drop_last();
    assert(run[run.len() - 1] == item);
    assert(all.drop_last() == list + less);
    assert(all.last() == item);
    if list.len() > 0 {
        lemma_last_stays(list);
    }
    if less.len() > 0 {
        assert forall|i: int| 0 <= i < less.len() implies #[trigger] less[i] == item by {
            assert(less[i] == run[i]);
        }
        lemma_run_is_one(list, less, item);
        assert(run[run.len() - 2] == item);
        assert(all[all.len() - 2] == item);
    } else {
        assert(list + less == list);
        if list.len() == 0 {
            assert(all == seq![item]);
            assert(without_repeats(list) == list);
            assert(without_repeats(list).push(item) == seq![item]);
        }
    }
}

/// Without other addons an addon keeps its own names in their order, and of equal names next to each
/// other one.
pub proof fn law_own_names_are_kept(addon: AddonView, a: Seq<Seq<char>>, x: Seq<char>)
    ensures
        (forall|i: int|
            0 <= i < addon.dependencies.len() - 1 ==> addon.dependencies[i]
                != #[trigger] addon.dependencies[i + 1]) ==> linked(
            addon,
            Seq::<AddonView>::empty(),
        ) == addon,
        addon.dependencies == a.push(x).push(x) ==> linked(addon, Seq::<AddonView>::empty())
            == linked(
            AddonView { dependencies: a.push(x), ..addon },
            Seq::<AddonView>::empty(),
        ),
        addon.dependencies == a.push(x) && (a.len() > 0 ==> a.last() != x) ==> linked(
            addon,
            Seq::<AddonView>::empty(),
        ).dependencies == linked(
            AddonView { dependencies: a, ..addon },
            Seq::<AddonView>::empty(),
        ).dependencies.push(x),
{
    let none = Seq::<AddonView>::empty();
    assert(dependents(none, addon.id) == Seq::<Seq<char>>::empty());
    assert(addon.dependencies + dependents(none, addon.id) == addon.dependencies);
    assert(a + dependents(none, addon.id) == a);
    assert(a.push(x) + dependents(none, addon.id) == a.push(x));
    if forall|i: int|
        0 <= i < addon.dependencies.len() - 1 ==> addon.dependencies[i]
            != #[trigger] addon.dependencies[i + 1] {
        lemma_nothing_to_remove(addon.dependencies);
    }
    if addon.dependencies == a.push(x).push(x) {
        assert(addon.dependencies.drop_last() == a.push(x));
    }
    if addon.dependencies == a.push(x) && (a.len() > 0 ==> a.last() != x) {
        assert(addon.dependencies.drop_last() == a);
        if a.len() == 0 {
            assert(without_repeats(a) == a);
        }
    }
}

proof fn lemma_nothing_to_remove(list: Seq<Seq<char>>)
    requires
        forall|i: int| 0 <= i < list.len() - 1 ==> list[i] != #[trigger] list[i + 1],
    ensures
        without_repeats(list) == list,
    decreases list.len(),
{
    if list.len() >= 2 {
        let less = list.drop_last();
        assert forall|i: int| 0 <= i < less.len() - 1 implies less[i] != #[trigger] less[i + 1] by {
            assert(list[i] != list[i + 1]);
        }
        lemma_nothing_to_remove(less);
        assert(list[list.len() - 2] != list[list.len() - 2 + 1]);
    }
}

} // verus!
