//! Fingerprints of addon directories: how one is computed and how a collection of them is kept.

use vstd::prelude::*;
use vstd::seq_lib::lemma_sorted_unique;

use crate::murmur2::{calculate_hash, hash, law_every_byte_counts};
use crate::text::{decimal, push_decimal, same, texts};

verus! {

/// The fingerprint of one addon directory.
#[derive(Debug, PartialEq)]
pub struct Fingerprint {
    /// The name of the directory.
    pub title: String,
    /// The hash, where it could be computed.
    pub hash: Option<u32>,
}

/// What a [`Fingerprint`] says.
#[verifier::ext_equal]
pub struct FingerprintView {
    pub title: Seq<char>,
    pub hash: Option<u32>,
}

impl View for Fingerprint {
    type V = FingerprintView;

    open spec fn view(&self) -> FingerprintView {
        FingerprintView { title: self.title@, hash: self.hash }
    }
}

impl Clone for Fingerprint {
    fn clone(&self) -> (r: Self)
        ensures
            r@ == self@,
    {
        Fingerprint { title: self.title.clone(), hash: self.hash }
    }
}

/// All known fingerprints.
pub type FingerprintCollection = Vec<Fingerprint>;

/// What a collection says, entry by entry.
pub open spec fn entries(list: Seq<Fingerprint>) -> Seq<FingerprintView> {
    list.map_values(|f: Fingerprint| f@)
}

// ---------------------------------------------------------------------------------------------
// Hashing
// ---------------------------------------------------------------------------------------------

/// The seed of every fingerprint hash.
pub const SEED: u32 = 1;

/// The bytes that a fingerprint leaves out: blank, line feed, carriage return and tab.
pub open spec fn is_blank(b: u8) -> bool {
    b == 32 || b == 10 || b == 13 || b == 9
}

/// The contents of a file without its blanks.
pub open spec fn without_blanks(data: Seq<u8>) -> Seq<u8> {
    data.filter(|b: u8| !is_blank(b))
}

/// The hash of one file.
pub open spec fn file_hash(data: Seq<u8>) -> u32 {
    hash(without_blanks(data), SEED)
}

/// Hashes of several files, one behind the other in decimal.
pub open spec fn joined(hashes: Seq<u32>) -> Seq<u8>
    decreases hashes.len(),
{
    if hashes.len() == 0 {
        Seq::<u8>::empty()
    } else {
        joined(hashes.drop_last()) + decimal(hashes.last() as nat)
    }
}

/// Numbers in ascending order.
pub open spec fn ascending(hashes: Seq<u32>) -> Seq<u32> {
    hashes.sort_by(|a: u32, b: u32| a <= b)
}

/// The fingerprint that file hashes give: they are sorted, written in decimal one behind the
/// other, and hashed again.
pub open spec fn combined(hashes: Seq<u32>) -> u32 {
    hash(joined(ascending(hashes)), SEED)
}

/// The fingerprint of a set of files.
pub open spec fn files_fingerprint(files: Seq<Seq<u8>>) -> u32 {
    combined(files.map_values(|data: Seq<u8>| file_hash(data)))
}

/// The contents of several files.
pub open spec fn contents(files: Seq<Vec<u8>>) -> Seq<Seq<u8>> {
    files.map_values(|data: Vec<u8>| data@)
}

fn blank(b: u8) -> (r: bool)
    ensures
        r == is_blank(b),
{
    b == 32 || b == 10 || b == 13 || b == 9
}

/// Leaves the blanks out.
pub fn remove_blanks(data: &[u8]) -> (r: Vec<u8>)
    ensures
        r@ == without_blanks(data@),
{
    let mut r: Vec<u8> = Vec::new();
    let mut i: usize = 0;
    while i < data.len()
        invariant
            i <= data@.len(),
            r@ == without_blanks(data@.take(i as int)),
        decreases data@.len() - i,
    {
        let b = data[i];
        proof {
            reveal_with_fuel(Seq::filter, 2);
            assert(data@.take(i + 1).drop_last() == data@.take(i as int));
        }
        if !blank(b) {
            r.push(b);
        }
        i = i + 1;
    }
    assert(data@.take(data@.len() as int) == data@);
    r
}

/// Hashes one file.
pub fn hash_file(data: &[u8]) -> (r: u32)
    ensures
        r == file_hash(data@),
{
    let stripped = remove_blanks(data);
    calculate_hash(stripped.as_slice(), SEED)
}

/// `<[u32]>::sort_unstable`: the same numbers, each as often as before, in ascending order.
#[verifier::external_body]
fn sort_unstable(list: &mut Vec<u32>)
    ensures
        final(list)@.to_multiset() == old(list)@.to_multiset(),
        forall|i: int, j: int| 0 <= i <= j < final(list)@.len() ==> final(list)@[i] <= final(list)@[j],
{
    list.sort_unstable();
}

/// Two orders of the same numbers are sorted into the same sequence.
proof fn lemma_ascending(a: Seq<u32>, b: Seq<u32>)
    requires
        a.to_multiset() == b.to_multiset(),
        forall|i: int, j: int| 0 <= i <= j < b.len() ==> b[i] <= b[j],
    ensures
        ascending(a) == b,
{
    let leq = |x: u32, y: u32| x <= y;
    a.lemma_sort_by_ensures(leq);
    assert(vstd::relations::sorted_by(b, leq));
    lemma_sorted_unique(ascending(a), b, leq);
}

/// Combines the hashes of the files of a directory into its fingerprint.
pub fn combine_hashes(hashes: Vec<u32>) -> (r: u32)
    ensures
        r == combined(hashes@),
{
    let mut sorted = hashes;
    sort_unstable(&mut sorted);
    proof {
        lemma_ascending(hashes@, sorted@);
    }
    let mut digits: Vec<u8> = Vec::new();
    let mut i: usize = 0;
    while i < sorted.len()
        invariant
            i <= sorted@.len(),
            digits@ == joined(sorted@.take(i as int)),
        decreases sorted@.len() - i,
    {
        assert(sorted@.take(i + 1).drop_last() == sorted@.take(i as int));
        push_decimal(&mut digits, sorted[i]);
        i = i + 1;
    }
    assert(sorted@.take(sorted@.len() as int) == sorted@);
    calculate_hash(digits.as_slice(), SEED)
}

/// Computes the fingerprint of a set of files from what they contain.
pub fn fingerprint_files(files: &Vec<Vec<u8>>) -> (r: u32)
    ensures
        r == files_fingerprint(contents(files@)),
{
    let mut hashes: Vec<u32> = Vec::new();
    let mut i: usize = 0;
    let ghost want = contents(files@).map_values(|data: Seq<u8>| file_hash(data));
    while i < files.len()
        invariant
            i <= files@.len(),
            want == contents(files@).map_values(|data: Seq<u8>| file_hash(data)),
            hashes@ == want.take(i as int),
        decreases files@.len() - i,
    {
        hashes.push(hash_file(files[i].as_slice()));
        i = i + 1;
    }
    assert(want.take(want.len() as int) == want);
    combine_hashes(hashes)
}

/// The order in which the files of a directory are visited does not change its fingerprint.
pub proof fn law_order_of_files(a: Seq<Seq<u8>>, b: Seq<Seq<u8>>)
    requires
        a.to_multiset() == b.to_multiset(),
    ensures
        files_fingerprint(a) == files_fingerprint(b),
{
    let f = |data: Seq<u8>| file_hash(data);
    lemma_same_items_mapped(a, b, f);
    let leq = |x: u32, y: u32| x <= y;
    a.map_values(f).lemma_sort_by_ensures(leq);
    b.map_values(f).lemma_sort_by_ensures(leq);
    lemma_sorted_unique(ascending(a.map_values(f)), ascending(b.map_values(f)), leq);
}

/// The same items, in whatever order, are mapped to the same items.
pub proof fn lemma_same_items_mapped<A, B>(a: Seq<A>, b: Seq<A>, f: spec_fn(A) -> B)
    requires
        a.to_multiset() == b.to_multiset(),
    ensures
        a.map_values(f).to_multiset() == b.map_values(f).to_multiset(),
    decreases a.len(),
{
    broadcast use vstd::seq_lib::group_to_multiset_ensures;

    if a.len() == 0 {
        a.to_multiset_ensures();
        b.to_multiset_ensures();
        assert(a.map_values(f) == b.map_values(f));
    } else {
        let x = a.last();
        assert(a.contains(x));
        assert(b.to_multiset().count(x) > 0);
        let k = b.index_of(x);
        assert(b.contains(x));
        assert(a.remove(a.len() - 1) == a.drop_last());
        assert(a.drop_last().to_multiset() == b.remove(k).to_multiset());
        lemma_same_items_mapped(a.drop_last(), b.remove(k), f);
        assert(a.map_values(f).remove(a.len() - 1) == a.drop_last().map_values(f));
        assert(b.map_values(f).remove(k) == b.remove(k).map_values(f));
        let ma = a.map_values(f).to_multiset();
        let mb = b.map_values(f).to_multiset();
        assert(ma.remove(f(x)) == mb.remove(f(x)));
        assert(a.map_values(f)[a.len() - 1] == f(x));
        assert(b.map_values(f)[k] == f(x));
        assert(ma.remove(f(x)).insert(f(x)) == ma);
        assert(mb.remove(f(x)).insert(f(x)) == mb);
    }
}

/// Blanks added to or taken from a file do not change the fingerprint.
pub proof fn law_blanks_do_not_count(files: Seq<Seq<u8>>, i: int, data: Seq<u8>)
    requires
        0 <= i < files.len(),
        without_blanks(files[i]) == without_blanks(data),
    ensures
        files_fingerprint(files.update(i, data)) == files_fingerprint(files),
{
    let f = |d: Seq<u8>| file_hash(d);
    assert(files.update(i, data).map_values(f) == files.map_values(f));
}

/// Of a file every byte is kept but blank (32), line feed (10), carriage return (13) and tab (9), each
/// as often as it occurs and in its order: what is kept of two parts of a file is kept of the whole,
/// one behind the other. A file without these four bytes is kept as it is.
pub proof fn law_all_but_blanks_is_kept(a: Seq<u8>, b: Seq<u8>, v: u8)
    ensures
        without_blanks(a + b) == without_blanks(a) + without_blanks(b),
        v == 32 || v == 10 || v == 13 || v == 9 ==> without_blanks(seq![v]).len() == 0,
        v != 32 && v != 10 && v != 13 && v != 9 ==> without_blanks(seq![v]) == seq![v],
        without_blanks(a).to_multiset().count(v) == (if v == 32 || v == 10 || v == 13 || v == 9 {
            0
        } else {
            a.to_multiset().count(v)
        }),
        (forall|i: int|
            0 <= i < a.len() ==> #[trigger] a[i] != 32 && a[i] != 10 && a[i] != 13 && a[i] != 9)
            ==> without_blanks(a) == a,
    decreases a.len(),
{
    broadcast use vstd::seq_lib::group_to_multiset_ensures;

    let keep = |x: u8| !is_blank(x);
    Seq::filter_distributes_over_add(a, b, keep);
    reveal_with_fuel(Seq::filter, 2);
    assert(seq![v].drop_last() == Seq::<u8>::empty());
    assert(seq![v].filter(keep) == (if keep(v) {
        seq![v]
    } else {
        Seq::<u8>::empty()
    }));
    if a.len() > 0 {
        let less = a.drop_last();
        law_all_but_blanks_is_kept(less, b, v);
        assert(a == less.push(a.last()));
        assert(without_blanks(a) == (if keep(a.last()) {
            without_blanks(less).push(a.last())
        } else {
            without_blanks(less)
        }));
        if forall|i: int|
            0 <= i < a.len() ==> #[trigger] a[i] != 32 && a[i] != 10 && a[i] != 13 && a[i] != 9 {
            assert forall|i: int| 0 <= i < less.len() implies #[trigger] less[i] != 32 && less[i]
                != 10 && less[i] != 13 && less[i] != 9 by {
                assert(a[i] != 32 && a[i] != 10 && a[i] != 13 && a[i] != 9);
            }
            assert(a[a.len() - 1] != 32 && a[a.len() - 1] != 10);
        }
    } else {
        assert(without_blanks(a) == a);
    }
}

/// The hash of a file is that of its bytes, with seed 1, where there is no blank, line feed, carriage
/// return or tab. Such a byte can be put in anywhere without changing the hash.
pub proof fn law_hash_of_file(a: Seq<u8>, v: u8, b: Seq<u8>)
    ensures
        (forall|i: int|
            0 <= i < a.len() ==> #[trigger] a[i] != 32 && a[i] != 10 && a[i] != 13 && a[i] != 9)
            ==> file_hash(a) == hash(a, 1),
        v == 32 || v == 10 || v == 13 || v == 9 ==> file_hash(a.push(v) + b) == file_hash(a + b),
{
    law_all_but_blanks_is_kept(a, b, v);
    law_all_but_blanks_is_kept(a, seq![v], v);
    law_all_but_blanks_is_kept(a + seq![v], b, v);
    assert(a.push(v) == a + seq![v]);
    if v == 32 || v == 10 || v == 13 || v == 9 {
        assert(without_blanks(a) + without_blanks(seq![v]) == without_blanks(a));
    }
}

/// A file of which one byte is changed, from one that counts to another one that counts, has another
/// hash.
pub proof fn law_every_byte_of_a_file_counts(a: Seq<u8>, v: u8, w: u8, b: Seq<u8>)
    requires
        v != w,
        v != 32 && v != 10 && v != 13 && v != 9,
        w != 32 && w != 10 && w != 13 && w != 9,
    ensures
        file_hash(a.push(v) + b) != file_hash(a.push(w) + b),
{
    law_all_but_blanks_is_kept(a, seq![v], v);
    law_all_but_blanks_is_kept(a, seq![w], w);
    law_all_but_blanks_is_kept(a + seq![v], b, v);
    law_all_but_blanks_is_kept(a + seq![w], b, w);
    assert(a.push(v) == a + seq![v]);
    assert(a.push(w) == a + seq![w]);
    let (left, right) = (without_blanks(a), without_blanks(b));
    let kept = (left + seq![v]) + right;
    let other = (left + seq![w]) + right;
    assert(other == kept.update(left.len() as int, w));
    law_every_byte_counts(kept, left.len() as int, w, 1, 1);
}

/// Hashes are joined without anything between them, each as its decimal digits.
pub proof fn law_joined(a: Seq<u32>, b: Seq<u32>, h: u32)
    ensures
        joined(Seq::<u32>::empty()).len() == 0,
        joined(seq![h]) == decimal(h as nat),
        joined(a + b) == joined(a) + joined(b),
    decreases b.len(),
{
    assert(seq![h].drop_last() == Seq::<u32>::empty());
    assert(joined(Seq::<u32>::empty()) == Seq::<u8>::empty());
    assert(joined(seq![h]) == Seq::<u8>::empty() + decimal(h as nat));
    if b.len() == 0 {
        assert(a + b == a);
    } else {
        law_joined(a, b.drop_last(), h);
        assert((a + b).drop_last() == a + b.drop_last());
        assert((a + b).last() == b.last());
    }
}

/// The fingerprint of a set of files: their hashes in ascending order, joined, and hashed again with
/// seed 1. Every file goes in once, with all that it contains.
pub proof fn law_fingerprint(files: Seq<Seq<u8>>, sorted: Seq<u32>)
    requires
        sorted.to_multiset() == Seq::new(files.len(), |i: int| file_hash(files[i])).to_multiset(),
        forall|i: int, j: int| 0 <= i <= j < sorted.len() ==> sorted[i] <= sorted[j],
    ensures
        files_fingerprint(files) == hash(joined(sorted), 1),
{
    let hashes = files.map_values(|data: Seq<u8>| file_hash(data));
    assert(hashes == Seq::new(files.len(), |i: int| file_hash(files[i])));
    lemma_ascending(hashes, sorted);
}

/// A single file: its hash in decimal, hashed again.
pub proof fn law_fingerprint_of_one_file(data: Seq<u8>)
    ensures
        files_fingerprint(seq![data]) == hash(decimal(file_hash(data) as nat), 1),
        files_fingerprint(Seq::<Seq<u8>>::empty()) == hash(Seq::<u8>::empty(), 1),
{
    let one = seq![file_hash(data)];
    assert(Seq::new(1, |i: int| file_hash(seq![data][i])) == one);
    law_fingerprint(seq![data], one);
    law_joined(one, one, file_hash(data));
    let none = Seq::<u32>::empty();
    assert(Seq::new(0, |i: int| file_hash(Seq::<Seq<u8>>::empty()[i])) == none);
    law_fingerprint(Seq::<Seq<u8>>::empty(), none);
    assert(joined(none) == Seq::<u8>::empty());
}

// ---------------------------------------------------------------------------------------------
// The collection
// ---------------------------------------------------------------------------------------------

/// The place of the first entry for a directory.
pub open spec fn place_of(list: Seq<FingerprintView>, title: Seq<char>) -> Option<int>
    decreases list.len(),
{
    if list.len() == 0 {
        None
    } else {
        match place_of(list.drop_last(), title) {
            Some(i) => Some(i),
            None => if list.last().title == title {
                Some(list.len() - 1)
            } else {
                None
            },
        }
    }
}

/// The place of the first entry for a directory, where there is one.
pub fn find_fingerprint(collection: &FingerprintCollection, title: &str) -> (r: Option<usize>)
    ensures
        (r matches Some(i) ==> place_of(entries(collection@), title@) == Some(i as int)),
        r is None ==> place_of(entries(collection@), title@) is None,
        r matches Some(i) ==> i < collection@.len() && collection@[i as int].title@ == title@,
{
    let ghost list = entries(collection@);
    let mut i: usize = 0;
    while i < collection.len()
        invariant
            i <= collection@.len(),
            list == entries(collection@),
            place_of(list.take(i as int), title@) is None,
        decreases collection@.len() - i,
    {
        assert(list.take(i + 1).drop_last() == list.take(i as int));
        if same(collection[i].title.as_str(), title) {
            proof {
                lemma_place_stays(list, title@, i + 1);
            }
            return Some(i);
        }
        i = i + 1;
    }
    assert(list.take(list.len() as int) == list);
    None
}

proof fn lemma_place_stays(list: Seq<FingerprintView>, title: Seq<char>, n: int)
    requires
        0 <= n <= list.len(),
        place_of(list.take(n), title) is Some,
    ensures
        place_of(list, title) == place_of(list.take(n), title),
    decreases list.len() - n,
{
    if n < list.len() {
        assert(list.take(n + 1).drop_last() == list.take(n));
        lemma_place_stays(list, title, n + 1);
    } else {
        assert(list.take(n) == list);
    }
}

/// The entry of a directory: the stored one, else one with the hash computed for it.
pub open spec fn entry_for(
    stored: Seq<FingerprintView>,
    title: Seq<char>,
    computed: Option<u32>,
) -> FingerprintView {
    match place_of(stored, title) {
        Some(i) => stored[i],
        None => FingerprintView { title, hash: computed },
    }
}

/// The collection after a look at the directories that are there: one entry for each of them, in
/// their order, without those that have no hash.
pub open spec fn refreshed(
    stored: Seq<FingerprintView>,
    dirs: Seq<Seq<char>>,
    computed: Seq<Option<u32>>,
) -> Seq<FingerprintView> {
    Seq::new(dirs.len(), |i: int| entry_for(stored, dirs[i], computed[i])).filter(
        |f: FingerprintView| f.hash is Some,
    )
}

/// Brings the collection up to date with the directories that are there. `computed` holds for
/// each directory the hash of its files; it is looked at only where no entry is stored.
pub fn refresh_fingerprints(
    collection: &mut FingerprintCollection,
    dirs: &Vec<String>,
    computed: &Vec<Option<u32>>,
)
    requires
        dirs@.len() == computed@.len(),
    ensures
        entries(final(collection)@) == refreshed(entries(old(collection)@), texts(dirs@), computed@),
{
    let ghost stored = entries(collection@);
    let ghost all = Seq::new(
        dirs@.len(),
        |i: int| entry_for(stored, texts(dirs@)[i], computed@[i]),
    );
    let ghost hashed = |f: FingerprintView| f.hash is Some;
    let mut fresh: FingerprintCollection = Vec::new();
    let mut i: usize = 0;
    while i < dirs.len()
        invariant
            i <= dirs@.len() == computed@.len(),
            stored == entries(collection@),
            all == Seq::new(
                dirs@.len(),
                |i: int| entry_for(stored, texts(dirs@)[i], computed@[i]),
            ),
            hashed == (|f: FingerprintView| f.hash is Some),
            entries(fresh@) == all.take(i as int).filter(hashed),
        decreases dirs@.len() - i,
    {
        let entry = match find_fingerprint(collection, dirs[i].as_str()) {
            Some(k) => collection[k].clone(),
            None => Fingerprint { title: dirs[i].clone(), hash: computed[i] },
        };
        proof {
            reveal_with_fuel(Seq::filter, 2);
            assert(entry@ == all[i as int]);
            assert(all.take(i + 1).drop_last() == all.take(i as int));
            assert(entries(fresh@.push(entry)) == entries(fresh@).push(entry@));
        }
        if entry.hash.is_some() {
            fresh.push(entry);
        }
        i = i + 1;
    }
    assert(all.take(all.len() as int) == all);
    assert(all == Seq::new(
        texts(dirs@).len(),
        |i: int| entry_for(stored, texts(dirs@)[i], computed@[i]),
    ));
    *collection = fresh;
}

/// A collection in which every entry of one directory carries a new hash.
pub open spec fn rehashed(
    list: Seq<FingerprintView>,
    title: Seq<char>,
    hash: u32,
) -> Seq<FingerprintView> {
    list.map_values(
        |f: FingerprintView|
            if f.title == title {
                FingerprintView { title: f.title, hash: Some(hash) }
            } else {
                f
            },
    )
}

/// Takes over the new hash of an addon directory, where there is one. Only entries that the
/// collection already has are changed.
pub fn update_addon_fingerprint(
    collection: &mut FingerprintCollection,
    addon_id: &str,
    hash: Option<u32>,
)
    ensures
        entries(final(collection)@) == (match hash {
            Some(h) => rehashed(entries(old(collection)@), addon_id@, h),
            None => entries(old(collection)@),
        }),
{
    if let Some(h) = hash {
        let ghost before = entries(collection@);
        let ghost after = rehashed(before, addon_id@, h);
        let mut i: usize = 0;
        while i < collection.len()
            invariant
                i <= collection@.len() == before.len(),
                before == entries(old(collection)@),
                after == rehashed(before, addon_id@, h),
                entries(collection@) == after.take(i as int) + before.skip(i as int),
            decreases collection@.len() - i,
        {
            let ghost held = collection@;
            assert(entries(held)[i as int] == before[i as int]);
            if same(collection[i].title.as_str(), addon_id) {
                let title = collection[i].title.clone();
                collection.set(i, Fingerprint { title, hash: Some(h) });
            }
            i = i + 1;
            assert forall|j: int| 0 <= j < before.len() implies #[trigger] entries(collection@)[j]
                == (after.take(i as int) + before.skip(i as int))[j] by {
                assert(j != i - 1 ==> entries(collection@)[j] == entries(held)[j]);
                assert(entries(collection@)[i - 1] == after[i - 1]);
            }
            assert(entries(collection@) == after.take(i as int) + before.skip(i as int));
        }
    }
}

/// After a look at the directories, every entry has a hash and belongs to one of them.
pub proof fn law_refreshed_entries_are_hashed(
    stored: Seq<FingerprintView>,
    dirs: Seq<Seq<char>>,
    computed: Seq<Option<u32>>,
    k: int,
)
    requires
        dirs.len() == computed.len(),
        0 <= k < refreshed(stored, dirs, computed).len(),
    ensures
        refreshed(stored, dirs, computed)[k].hash is Some,
        dirs.contains(refreshed(stored, dirs, computed)[k].title),
{
    let all = Seq::new(dirs.len(), |i: int| entry_for(stored, dirs[i], computed[i]));
    let hashed = |f: FingerprintView| f.hash is Some;
    broadcast use vstd::seq_lib::group_filter_ensures;

    let kept = all.filter(hashed);
    assert(hashed(kept[k]));
    assert(kept.contains(kept[k]));
    all.lemma_filter_contains_rev(hashed, kept[k]);
    let i = choose|i: int| 0 <= i < all.len() && all[i] == kept[k];
    lemma_place(stored, dirs[i]);
    assert(dirs[i] == kept[k].title);
}

proof fn lemma_place(list: Seq<FingerprintView>, title: Seq<char>)
    ensures
        place_of(list, title) matches Some(i) ==> 0 <= i < list.len() && list[i].title == title
            && (forall|j: int| 0 <= j < i ==> (#[trigger] list[j]).title != title),
        place_of(list, title) is None ==> forall|j: int|
            0 <= j < list.len() ==> (#[trigger] list[j]).title != title,
    decreases list.len(),
{
    if list.len() > 0 {
        lemma_place(list.drop_last(), title);
        assert forall|j: int| 0 <= j < list.len() - 1 implies list.drop_last()[j]
            == #[trigger] list[j] by {}
    }
}

/// A directory whose entry has a hash keeps that entry, whatever was computed for it.
pub proof fn law_stored_hash_is_kept(
    stored: Seq<FingerprintView>,
    dirs: Seq<Seq<char>>,
    computed: Seq<Option<u32>>,
    i: int,
)
    requires
        dirs.len() == computed.len(),
        0 <= i < dirs.len(),
        place_of(stored, dirs[i]) is Some,
        stored[place_of(stored, dirs[i])->0].hash is Some,
    ensures
        refreshed(stored, dirs, computed).contains(stored[place_of(stored, dirs[i])->0]),
{
    let all = Seq::new(dirs.len(), |i: int| entry_for(stored, dirs[i], computed[i]));
    let hashed = |f: FingerprintView| f.hash is Some;
    broadcast use vstd::seq_lib::group_filter_ensures;

    assert(hashed(all[i]));
    assert(all.filter(hashed).contains(all[i]));
}

/// A directory without an entry gets one with the computed hash, and none where there is no hash.
pub proof fn law_new_directory(
    stored: Seq<FingerprintView>,
    dirs: Seq<Seq<char>>,
    computed: Seq<Option<u32>>,
    i: int,
)
    requires
        dirs.len() == computed.len(),
        0 <= i < dirs.len(),
        dirs.no_duplicates(),
        place_of(stored, dirs[i]) is None,
    ensures
        forall|h: Option<u32>|
            refreshed(stored, dirs, computed).contains(FingerprintView { title: dirs[i], hash: h })
                <==> h is Some && h == computed[i],
{
    let all = Seq::new(dirs.len(), |i: int| entry_for(stored, dirs[i], computed[i]));
    let hashed = |f: FingerprintView| f.hash is Some;
    broadcast use vstd::seq_lib::group_filter_ensures;

    let kept = all.filter(hashed);
    assert forall|h: Option<u32>|
        kept.contains(FingerprintView { title: dirs[i], hash: h }) <==> h is Some && h
            == computed[i] by {
        let f = FingerprintView { title: dirs[i], hash: h };
        if kept.contains(f) {
            let k = choose|k: int| 0 <= k < kept.len() && kept[k] == f;
            law_refreshed_entries_are_hashed(stored, dirs, computed, k);
            all.lemma_filter_contains_rev(hashed, f);
            let m = choose|m: int| 0 <= m < all.len() && all[m] == kept[k];
            lemma_place(stored, dirs[m]);
            assert(dirs[m] == dirs[i]);
        }
        if h is Some && h == computed[i] {
            assert(all[i] == f);
            assert(hashed(all[i]));
        }
    }
}

/// An update keeps the directories and their places; it gives the new hash to the updated one and
/// leaves all others as they are.
pub proof fn law_update_is_local(
    list: Seq<FingerprintView>,
    title: Seq<char>,
    hash: u32,
    other: Seq<char>,
)
    ensures
        place_of(rehashed(list, title, hash), other) == place_of(list, other),
        place_of(list, other) matches Some(i) ==> {
            let entry = rehashed(list, title, hash)[i];
            if other == title {
                entry.hash == Some(hash)
            } else {
                entry == list[i]
            }
        },
        rehashed(rehashed(list, title, hash), title, hash) == rehashed(list, title, hash),
    decreases list.len(),
{
    lemma_place(list, other);
    if list.len() > 0 {
        law_update_is_local(list.drop_last(), title, hash, other);
        assert(rehashed(list, title, hash).drop_last() == rehashed(list.drop_last(), title, hash));
    }
}

/// What an update wrote, the next look at the directories reads back.
pub proof fn law_refresh_reads_update(
    list: Seq<FingerprintView>,
    title: Seq<char>,
    hash: u32,
    dirs: Seq<Seq<char>>,
    computed: Seq<Option<u32>>,
)
    requires
        dirs.len() == computed.len(),
        dirs.contains(title),
        place_of(list, title) is Some,
    ensures
        refreshed(rehashed(list, title, hash), dirs, computed).contains(
            FingerprintView { title, hash: Some(hash) },
        ),
{
    let i = choose|i: int| 0 <= i < dirs.len() && dirs[i] == title;
    law_update_is_local(list, title, hash, title);
    lemma_place(rehashed(list, title, hash), title);
    law_stored_hash_is_kept(rehashed(list, title, hash), dirs, computed, i);
}

/// A directory is found at its first entry, whenever it has one.
pub proof fn law_place_of(list: Seq<FingerprintView>, title: Seq<char>, i: int)
    requires
        0 <= i < list.len(),
        list[i].title == title,
    ensures
        (forall|j: int| 0 <= j < i ==> (#[trigger] list[j]).title != title) ==> place_of(list, title)
            == Some(i),
        place_of(list, title) is Some,
{
    lemma_place(list, title);
}

/// What one more directory adds to the collection, behind all others: its first stored entry, if that
/// has a hash; where none is stored, a new entry with the computed hash, if there is one.
pub proof fn law_one_more_directory(
    stored: Seq<FingerprintView>,
    dirs: Seq<Seq<char>>,
    computed: Seq<Option<u32>>,
    dir: Seq<char>,
    hash: Option<u32>,
)
    requires
        dirs.len() == computed.len(),
    ensures
        refreshed(stored, Seq::<Seq<char>>::empty(), Seq::<Option<u32>>::empty()).len() == 0,
        forall|i: int|
            0 <= i < stored.len() && (#[trigger] stored[i]).title == dir && (forall|j: int|
                0 <= j < i ==> (#[trigger] stored[j]).title != dir) ==> refreshed(
                stored,
                dirs.push(dir),
                computed.push(hash),
            ) == (if stored[i].hash is Some {
                refreshed(stored, dirs, computed).push(stored[i])
            } else {
                refreshed(stored, dirs, computed)
            }),
        (forall|j: int| 0 <= j < stored.len() ==> (#[trigger] stored[j]).title != dir) ==> refreshed(
            stored,
            dirs.push(dir),
            computed.push(hash),
        ) == (if hash is Some {
            refreshed(stored, dirs, computed).push(FingerprintView { title: dir, hash })
        } else {
            refreshed(stored, dirs, computed)
        }),
{
    reveal_with_fuel(Seq::filter, 2);
    lemma_place(stored, dir);
    let all = Seq::new(dirs.len(), |i: int| entry_for(stored, dirs[i], computed[i]));
    let more = Seq::new(
        dirs.push(dir).len(),
        |i: int| entry_for(stored, dirs.push(dir)[i], computed.push(hash)[i]),
    );
    assert(more.drop_last() == all);
    assert(more.last() == entry_for(stored, dir, hash));
    assert(refreshed(stored, Seq::<Seq<char>>::empty(), Seq::<Option<u32>>::empty()).len() == 0);
}

/// An update keeps the number of entries and all titles. Every entry of the directory has the new hash,
/// and every other entry is as before.
pub proof fn law_update(list: Seq<FingerprintView>, title: Seq<char>, hash: u32)
    ensures
        rehashed(list, title, hash).len() == list.len(),
        forall|i: int|
            0 <= i < list.len() ==> (#[trigger] rehashed(list, title, hash)[i]).title
                == list[i].title,
        forall|i: int|
            0 <= i < list.len() && list[i].title == title ==> (
            #[trigger] rehashed(list, title, hash)[i]).hash == Some(hash),
        forall|i: int|
            0 <= i < list.len() && list[i].title != title ==> (
            #[trigger] rehashed(list, title, hash)[i]).hash == list[i].hash,
{
}

} // verus!
