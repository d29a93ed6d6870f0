//! Splitting a sequence into the classes of items that share a key.

use std::collections::HashMap;
use vstd::prelude::*;
use crate::record::{reversed, FileView, RegularFile};

verus! {

/// The keys of `entries`, each once, in the order in which they first occur.
pub open spec fn first_keys<K, T>(entries: Seq<(K, T)>) -> Seq<K>
    decreases entries.len(),
{
    if entries.len() == 0 {
        Seq::empty()
    } else {
        let earlier = first_keys(entries.drop_last());
        if earlier.contains(entries.last().0) {
            earlier
        } else {
            earlier.push(entries.last().0)
        }
    }
}

/// The items of `entries` that carry the key `k`, in their order.
pub open spec fn class_of<K, T>(entries: Seq<(K, T)>, k: K) -> Seq<T>
    decreases entries.len(),
{
    if entries.len() == 0 {
        Seq::empty()
    } else {
        let earlier = class_of(entries.drop_last(), k);
        if entries.last().0 == k {
            earlier.push(entries.last().1)
        } else {
            earlier
        }
    }
}

/// The classes of `entries`, one for each key, ordered by the first
/// occurrence of their keys.
pub open spec fn classes<K, T>(entries: Seq<(K, T)>) -> Seq<Seq<T>> {
    let keys = first_keys(entries);
    Seq::new(keys.len(), |g: int| class_of(entries, keys[g]))
}

/// The members of `groups` that hold at least two items, in their order.
pub open spec fn crowded<T>(groups: Seq<Seq<T>>) -> Seq<Seq<T>>
    decreases groups.len(),
{
    if groups.len() == 0 {
        Seq::empty()
    } else {
        let earlier = crowded(groups.drop_last());
        if groups.last().len() >= 2 {
            earlier.push(groups.last())
        } else {
            earlier
        }
    }
}

/// The keyed records of `entries`, each record taken by its view.
pub open spec fn entry_views(entries: Seq<(u128, RegularFile)>) -> Seq<(u128, FileView)> {
    entries.map_values(|e: (u128, RegularFile)| (e.0, e.1@))
}

/// A key that `first_keys` does not list has an empty class.
pub proof fn lemma_unlisted_key_has_no_class<K, T>(entries: Seq<(K, T)>, k: K)
    requires
        !first_keys(entries).contains(k),
    ensures
        class_of(entries, k) == Seq::<T>::empty(),
    decreases entries.len(),
{
    if entries.len() > 0 {
        let earlier = first_keys(entries.drop_last());
        if !earlier.contains(entries.last().0) {
            assert(earlier.push(entries.last().0).last() == entries.last().0);
            assert forall|i: int| 0 <= i < earlier.len() implies earlier[i] != k by {
                assert(earlier.push(entries.last().0)[i] == earlier[i]);
            }
        }
        lemma_unlisted_key_has_no_class(entries.drop_last(), k);
    }
}

/// Every class of a sequence holds an item.
pub proof fn lemma_classes_hold_an_item<K, T>(entries: Seq<(K, T)>, g: int)
    requires
        0 <= g < classes(entries).len(),
    ensures
        classes(entries)[g].len() > 0,
{
    lemma_listed_key_has_class(entries, first_keys(entries)[g]);
}

/// A key that `first_keys` lists has a class that holds an item.
pub proof fn lemma_listed_key_has_class<K, T>(entries: Seq<(K, T)>, k: K)
    requires
        first_keys(entries).contains(k),
    ensures
        class_of(entries, k).len() > 0,
    decreases entries.len(),
{
    if entries.len() > 0 {
        if entries.last().0 != k {
            let earlier = first_keys(entries.drop_last());
            if !earlier.contains(entries.last().0) {
                let i = choose|i: int| 0 <= i < earlier.push(entries.last().0).len() && earlier.push(
                    entries.last().0,
                )[i] == k;
                assert(earlier[i] == k);
            }
            lemma_listed_key_has_class(entries.drop_last(), k);
        }
    }
}

/// Each item of a class stands in the sequence with the key of the class.
pub proof fn lemma_class_members<K, T>(entries: Seq<(K, T)>, k: K, m: int)
    requires
        0 <= m < class_of(entries, k).len(),
    ensures
        exists|i: int| 0 <= i < entries.len() && #[trigger] entries[i] == (k, class_of(entries, k)[m]),
    decreases entries.len(),
{
    if entries.len() > 0 {
        let front = entries.drop_last();
        if m < class_of(front, k).len() {
            lemma_class_members(front, k, m);
            let i = choose|i: int| 0 <= i < front.len() && #[trigger] front[i] == (k, class_of(front, k)[m]);
            assert(entries[i] == front[i]);
        } else {
            assert(entries[entries.len() - 1] == (k, class_of(entries, k)[m]));
        }
    }
}

/// Two items of a class stand in the sequence in the order that they have in
/// the class, each with the key of the class.
pub proof fn lemma_class_keeps_order<K, T>(entries: Seq<(K, T)>, k: K, m: int, n: int)
    requires
        0 <= m < n < class_of(entries, k).len(),
    ensures
        exists|i: int, j: int|
            0 <= i < j < entries.len() && #[trigger] entries[i] == (k, class_of(entries, k)[m])
                && #[trigger] entries[j] == (k, class_of(entries, k)[n]),
    decreases entries.len(),
{
    if entries.len() > 0 {
        let front = entries.drop_last();
        if n < class_of(front, k).len() {
            lemma_class_keeps_order(front, k, m, n);
            let (i, j) = choose|i: int, j: int|
                0 <= i < j < front.len() && #[trigger] front[i] == (k, class_of(front, k)[m])
                    && #[trigger] front[j] == (k, class_of(front, k)[n]);
            assert(entries[i] == front[i] && entries[j] == front[j]);
        } else {
            lemma_class_members(front, k, m);
            let i = choose|i: int| 0 <= i < front.len() && #[trigger] front[i] == (k, class_of(front, k)[m]);
            assert(entries[i] == front[i]);
            assert(entries[entries.len() - 1] == (k, class_of(entries, k)[n]));
        }
    }
}

/// `first_keys` lists no key twice.
pub proof fn lemma_first_keys_differ<K, T>(entries: Seq<(K, T)>)
    ensures
        first_keys(entries).no_duplicates(),
    decreases entries.len(),
{
    if entries.len() > 0 {
        lemma_first_keys_differ(entries.drop_last());
    }
}

/// Whether `coded` holds the items of `entries` in their order, under keys
/// of another kind that agree exactly where the keys of `entries` agree.
pub open spec fn encodes<C, K, T>(coded: Seq<(C, T)>, entries: Seq<(K, T)>) -> bool {
    &&& coded.len() == entries.len()
    &&& forall|i: int| 0 <= i < coded.len() ==> (#[trigger] coded[i]).1 == entries[i].1
    &&& forall|i: int, j: int|
        0 <= i < coded.len() && 0 <= j < coded.len() ==> ((#[trigger] coded[i]).0 == (
        #[trigger] coded[j]).0 <==> entries[i].0 == entries[j].0)
}

/// Whether some item carries the key `c` in `coded` and the key `k` in
/// `entries`.
pub open spec fn carried_together<C, K, T>(
    coded: Seq<(C, T)>,
    entries: Seq<(K, T)>,
    c: C,
    k: K,
) -> bool {
    exists|i: int| 0 <= i < coded.len() && (#[trigger] coded[i]).0 == c && entries[i].0 == k
}

/// Two keys that the same entries carry have the same class.
proof fn lemma_class_under_encoding<C, K, T>(coded: Seq<(C, T)>, entries: Seq<(K, T)>, c: C, k: K)
    requires
        coded.len() == entries.len(),
        forall|i: int| 0 <= i < coded.len() ==> (#[trigger] coded[i]).1 == entries[i].1,
        forall|i: int| 0 <= i < coded.len() ==> ((#[trigger] coded[i]).0 == c <==> entries[i].0 == k),
    ensures
        class_of(coded, c) == class_of(entries, k),
    decreases entries.len(),
{
    if entries.len() > 0 {
        let n = entries.len() - 1;
        assert(coded[n].1 == entries[n].1);
        assert(coded[n].0 == c <==> entries[n].0 == k);
        assert forall|i: int| 0 <= i < n implies (#[trigger] coded.drop_last()[i]).1
            == entries.drop_last()[i].1 && (coded.drop_last()[i].0 == c <==> entries.drop_last()[i].0
            == k) by {
            assert(coded[i].1 == entries[i].1);
            assert(coded[i].0 == c <==> entries[i].0 == k);
        }
        lemma_class_under_encoding(coded.drop_last(), entries.drop_last(), c, k);
    }
}

/// Under an encoding, the keys first occur at the same entries.
proof fn lemma_first_keys_under_encoding<C, K, T>(coded: Seq<(C, T)>, entries: Seq<(K, T)>)
    requires
        encodes(coded, entries),
    ensures
        first_keys(coded).len() == first_keys(entries).len(),
        forall|g: int|
            0 <= g < first_keys(coded).len() ==> carried_together(
                coded,
                entries,
                #[trigger] first_keys(coded)[g],
                first_keys(entries)[g],
            ),
    decreases entries.len(),
{
    if entries.len() > 0 {
        let n = entries.len() - 1;
        let front_c = coded.drop_last();
        let front_e = entries.drop_last();
        let earlier_c = first_keys(front_c);
        let earlier_e = first_keys(front_e);
        assert(encodes(front_c, front_e)) by {
            assert forall|i: int| 0 <= i < front_c.len() implies (#[trigger] front_c[i]).1
                == front_e[i].1 by {
                assert(coded[i].1 == entries[i].1);
            }
            assert forall|i: int, j: int| 0 <= i < front_c.len() && 0 <= j < front_c.len() implies ((
            #[trigger] front_c[i]).0 == (#[trigger] front_c[j]).0 <==> front_e[i].0
                == front_e[j].0) by {
                assert(coded[i].0 == coded[j].0 <==> entries[i].0 == entries[j].0);
            }
        }
        lemma_first_keys_under_encoding(front_c, front_e);
        assert(earlier_c.contains(coded[n].0) <==> earlier_e.contains(entries[n].0)) by {
            if earlier_c.contains(coded[n].0) {
                let g = choose|g: int| 0 <= g < earlier_c.len() && earlier_c[g] == coded[n].0;
                assert(carried_together(front_c, front_e, earlier_c[g], earlier_e[g]));
                let i = choose|i: int|
                    0 <= i < front_c.len() && (#[trigger] front_c[i]).0 == earlier_c[g] && front_e[i].0
                        == earlier_e[g];
                assert(coded[i].0 == coded[n].0 <==> entries[i].0 == entries[n].0);
                assert(earlier_e[g] == entries[n].0);
            }
            if earlier_e.contains(entries[n].0) {
                let g = choose|g: int| 0 <= g < earlier_e.len() && earlier_e[g] == entries[n].0;
                assert(carried_together(front_c, front_e, earlier_c[g], earlier_e[g]));
                let i = choose|i: int|
                    0 <= i < front_c.len() && (#[trigger] front_c[i]).0 == earlier_c[g] && front_e[i].0
                        == earlier_e[g];
                assert(coded[i].0 == coded[n].0 <==> entries[i].0 == entries[n].0);
                assert(earlier_c[g] == coded[n].0);
            }
        }
        assert forall|g: int| 0 <= g < first_keys(coded).len() implies carried_together(
            coded,
            entries,
            #[trigger] first_keys(coded)[g],
            first_keys(entries)[g],
        ) by {
            if g < earlier_c.len() {
                assert(carried_together(front_c, front_e, earlier_c[g], earlier_e[g]));
                let i = choose|i: int|
                    0 <= i < front_c.len() && (#[trigger] front_c[i]).0 == earlier_c[g] && front_e[i].0
                        == earlier_e[g];
                assert(coded[i].0 == first_keys(coded)[g] && entries[i].0 == first_keys(entries)[g]);
            } else {
                assert(coded[n].0 == first_keys(coded)[g] && entries[n].0 == first_keys(entries)[g]);
            }
        }
    }
}

/// The classes do not depend on how the keys are written: under an encoding
/// of the keys they are the same.
pub proof fn lemma_classes_under_encoding<C, K, T>(coded: Seq<(C, T)>, entries: Seq<(K, T)>)
    requires
        encodes(coded, entries),
    ensures
        classes(coded) == classes(entries),
{
    lemma_first_keys_under_encoding(coded, entries);
    assert forall|g: int| 0 <= g < first_keys(coded).len() implies #[trigger] classes(coded)[g]
        == classes(entries)[g] by {
        let c = first_keys(coded)[g];
        let k = first_keys(entries)[g];
        assert(carried_together(coded, entries, c, k));
        let i = choose|i: int| 0 <= i < coded.len() && (#[trigger] coded[i]).0 == c && entries[i].0 == k;
        assert forall|j: int| 0 <= j < coded.len() implies ((#[trigger] coded[j]).0 == c
            <==> entries[j].0 == k) by {
            assert(coded[j].0 == coded[i].0 <==> entries[j].0 == entries[i].0);
        }
        lemma_class_under_encoding(coded, entries, c, k);
    }
    assert(classes(coded) =~= classes(entries));
}

/// There are no more keys than entries.
pub proof fn lemma_no_more_keys_than_entries<K, T>(entries: Seq<(K, T)>)
    ensures
        first_keys(entries).len() <= entries.len(),
    decreases entries.len(),
{
    if entries.len() > 0 {
        lemma_no_more_keys_than_entries(entries.drop_last());
    }
}

/// `first_keys` lists the key of each entry.
pub proof fn lemma_keys_are_listed<K, T>(entries: Seq<(K, T)>, x: int)
    requires
        0 <= x < entries.len(),
    ensures
        first_keys(entries).contains(entries[x].0),
    decreases entries.len(),
{
    let front = entries.drop_last();
    let earlier = first_keys(front);
    let listed = first_keys(entries);
    if x < front.len() {
        lemma_keys_are_listed(front, x);
        let g = choose|g: int| 0 <= g < earlier.len() && earlier[g] == front[x].0;
        assert(listed[g] == earlier[g]);
    } else if earlier.contains(entries.last().0) {
    } else {
        assert(listed[listed.len() - 1] == entries[x].0);
    }
}

/// The item of each entry stands in the class of its key.
pub proof fn lemma_class_holds_entry<K, T>(entries: Seq<(K, T)>, x: int)
    requires
        0 <= x < entries.len(),
    ensures
        class_of(entries, entries[x].0).contains(entries[x].1),
    decreases entries.len(),
{
    let k = entries[x].0;
    let front = entries.drop_last();
    let class = class_of(entries, k);
    if x < front.len() {
        lemma_class_holds_entry(front, x);
        let m = choose|m: int| 0 <= m < class_of(front, k).len() && class_of(front, k)[m] == front[x].1;
        assert(class[m] == entries[x].1);
    } else {
        assert(class[class.len() - 1] == entries[x].1);
    }
}

/// Each group that `crowded` keeps holds two items or more and is one of the
/// groups given.
pub proof fn lemma_crowded_groups<T>(groups: Seq<Seq<T>>, g: int)
    requires
        0 <= g < crowded(groups).len(),
    ensures
        crowded(groups)[g].len() >= 2,
        groups.contains(crowded(groups)[g]),
    decreases groups.len(),
{
    if groups.len() > 0 {
        let front = groups.drop_last();
        if g < crowded(front).len() {
            lemma_crowded_groups(front, g);
            let i = choose|i: int| 0 <= i < front.len() && front[i] == crowded(front)[g];
            assert(groups[i] == front[i]);
        } else {
            assert(groups[groups.len() - 1] == crowded(groups)[g]);
        }
    }
}

/// A key that two entries carry has a class of two items or more.
pub proof fn lemma_shared_key_has_crowded_class<K, T>(entries: Seq<(K, T)>, x: int, y: int)
    requires
        0 <= x < y < entries.len(),
        entries[x].0 == entries[y].0,
    ensures
        class_of(entries, entries[x].0).len() >= 2,
    decreases entries.len(),
{
    let front = entries.drop_last();
    if y == entries.len() - 1 {
        assert(front[x] == entries[x]);
        lemma_class_holds_entry(front, x);
    } else {
        assert(front[x] == entries[x] && front[y] == entries[y]);
        lemma_shared_key_has_crowded_class(front, x, y);
    }
}

/// `crowded` keeps each group of two items or more.
pub proof fn lemma_crowded_keeps<T>(groups: Seq<Seq<T>>, c: int)
    requires
        0 <= c < groups.len(),
        groups[c].len() >= 2,
    ensures
        crowded(groups).contains(groups[c]),
    decreases groups.len(),
{
    let front = groups.drop_last();
    let kept = crowded(groups);
    if c < front.len() {
        lemma_crowded_keeps(front, c);
        let g = choose|g: int| 0 <= g < crowded(front).len() && crowded(front)[g] == front[c];
        assert(kept[g] == groups[c]);
    } else {
        assert(kept[kept.len() - 1] == groups[c]);
    }
}

/// Two entries with one key have their items in one of the groups that are
/// left when the classes of a single item are dropped.
pub proof fn lemma_twins_share_a_group<K, T>(entries: Seq<(K, T)>, x: int, y: int)
    requires
        0 <= x < y < entries.len(),
        entries[x].0 == entries[y].0,
    ensures
        exists|g: int|
            0 <= g < crowded(classes(entries)).len() && (#[trigger] crowded(
                classes(entries),
            )[g]).contains(entries[x].1) && crowded(classes(entries))[g].contains(entries[y].1),
{
    let k = entries[x].0;
    let class = class_of(entries, k);
    lemma_keys_are_listed(entries, x);
    let c = choose|c: int| 0 <= c < first_keys(entries).len() && first_keys(entries)[c] == k;
    assert(classes(entries)[c] == class);
    lemma_shared_key_has_crowded_class(entries, x, y);
    lemma_crowded_keeps(classes(entries), c);
    lemma_class_holds_entry(entries, x);
    lemma_class_holds_entry(entries, y);
    let g = choose|g: int|
        0 <= g < crowded(classes(entries)).len() && crowded(classes(entries))[g] == class;
    assert(crowded(classes(entries))[g].contains(entries[x].1));
}

/// Whether no two entries have the same key.
pub open spec fn keys_differ<K, T>(entries: Seq<(K, T)>) -> bool {
    forall|i: int, j: int|
        0 <= i < j < entries.len() ==> (#[trigger] entries[i]).0 != (#[trigger] entries[j]).0
}

/// Where no two entries have the same key, each item is a class of its own,
/// and the classes come in the order of the entries.
pub proof fn lemma_classes_of_different_keys<K, T>(entries: Seq<(K, T)>)
    requires
        keys_differ(entries),
    ensures
        first_keys(entries) == entries.map_values(|e: (K, T)| e.0),
        classes(entries) == entries.map_values(|e: (K, T)| seq![e.1]),
    decreases entries.len(),
{
    let keys = entries.map_values(|e: (K, T)| e.0);
    if entries.len() > 0 {
        let front = entries.drop_last();
        let last = entries.last();
        assert forall|i: int, j: int| 0 <= i < j < front.len() implies (#[trigger] front[i]).0 != (
        #[trigger] front[j]).0 by {
            assert(front[i] == entries[i] && front[j] == entries[j]);
        }
        lemma_classes_of_different_keys(front);
        let earlier = first_keys(front);
        if earlier.contains(last.0) {
            let i = choose|i: int| 0 <= i < earlier.len() && earlier[i] == last.0;
            assert(entries[i].0 == last.0);
            assert(entries[entries.len() - 1].0 == last.0);
        }
        assert(first_keys(entries) =~= keys);
        lemma_unlisted_key_has_no_class(front, last.0);
        assert forall|g: int| 0 <= g < entries.len() implies #[trigger] classes(entries)[g]
            == seq![entries[g].1] by {
            if g < front.len() {
                assert(entries[g].0 != entries[entries.len() - 1].0);
                assert(classes(front)[g] == seq![front[g].1]);
                assert(class_of(entries, keys[g]) == class_of(front, earlier[g]));
            } else {
                assert(class_of(entries, last.0) =~= seq![last.1]);
            }
        }
        assert(classes(entries) =~= entries.map_values(|e: (K, T)| seq![e.1]));
    } else {
        assert(first_keys(entries) =~= keys);
        assert(classes(entries) =~= entries.map_values(|e: (K, T)| seq![e.1]));
    }
}

/// Splits keyed records into the classes of records that share a key. The
/// classes come in the order in which their keys first occur, and each keeps
/// the order of its records.
pub fn partition(entries: Vec<(u128, RegularFile)>) -> (groups: Vec<Vec<RegularFile>>)
    ensures
        groups.deep_view() == classes(entry_views(entries@)),
{
    broadcast use vstd::std_specs::hash::group_hash_axioms;

    let ghost all = entry_views(entries@);
    let mut stack = reversed(entries);
    // Where the class of each key stands in `groups`.
    let mut places: HashMap<u128, usize> = HashMap::new();
    let mut groups: Vec<Vec<RegularFile>> = Vec::new();
    let ghost mut keys: Seq<u128> = Seq::empty();
    let ghost mut done: Seq<(u128, FileView)> = Seq::empty();
    while stack.len() > 0
        invariant
            done.len() + stack.len() == all.len(),
            done == all.take(done.len() as int),
            forall|k: int|
                0 <= k < stack.len() ==> (#[trigger] stack@[k]).0 == all[all.len() - 1 - k].0
                    && stack@[k].1@ == all[all.len() - 1 - k].1,
            keys == first_keys(done),
            groups.len() == keys.len(),
            forall|k: u128| #[trigger] places@.contains_key(k) <==> keys.contains(k),
            forall|k: u128| #[trigger]
                places@.contains_key(k) ==> places@[k] < keys.len() && keys[places@[k] as int] == k,
            forall|g: int|
                0 <= g < groups.len() ==> (#[trigger] groups@[g]).deep_view() == class_of(
                    done,
                    keys[g],
                ),
        decreases stack.len(),
    {
        let ghost top = stack@[stack.len() - 1];
        let (key, file) = stack.pop().unwrap();
        let ghost next = done.push((key, file@));
        proof {
            assert(top.0 == key && top.1@ == file@);
            assert(next.drop_last() == done);
            assert(next.last() == (key, file@));
            assert(next == all.take(next.len() as int));
            lemma_first_keys_differ(done);
        }
        let place: Option<usize> = match places.get(&key) {
            Some(g) => Some(*g),
            None => None,
        };
        match place {
            Some(g) => {
                let ghost before = groups@;
                groups[g].push(file);
                proof {
                    assert(groups@[g as int].deep_view() == before[g as int].deep_view().push(
                        file@,
                    ));
                    assert forall|h: int| 0 <= h < groups.len() implies (#[trigger] groups@[h]).deep_view()
                        == class_of(next, keys[h]) by {
                        if h != g {
                            assert(groups@[h] == before[h]);
                        }
                    }
                }
            },
            None => {
                proof {
                    lemma_unlisted_key_has_no_class(done, key);
                }
                let ghost before = groups@;
                let ghost listed = keys;
                places.insert(key, groups.len());
                let mut fresh: Vec<RegularFile> = Vec::new();
                fresh.push(file);
                groups.push(fresh);
                proof {
                    keys = listed.push(key);
                    assert(fresh.deep_view() == Seq::<FileView>::empty().push(file@));
                    assert forall|h: int| 0 <= h < groups.len() implies (#[trigger] groups@[h]).deep_view()
                        == class_of(next, keys[h]) by {
                        if h < before.len() {
                            assert(groups@[h] == before[h]);
                            assert(keys[h] == listed[h]);
                        }
                    }
                    assert forall|k: u128| #[trigger] places@.contains_key(k) <==> keys.contains(k) by {
                        if k == key {
                            assert(keys[listed.len() as int] == key);
                        } else if listed.contains(k) {
                            let i = choose|i: int| 0 <= i < listed.len() && listed[i] == k;
                            assert(keys[i] == k);
                        } else if keys.contains(k) {
                            let i = choose|i: int| 0 <= i < keys.len() && keys[i] == k;
                            assert(listed[i] == k);
                        }
                    }
                    assert forall|k: u128| #[trigger] places@.contains_key(k) implies places@[k]
                        < keys.len() && keys[places@[k] as int] == k by {
                        if k != key {
                            assert(keys[places@[k] as int] == listed[places@[k] as int]);
                        }
                    }
                }
            },
        }
        proof {
            done = next;
        }
    }
    proof {
        assert(done == all);
        assert(groups.deep_view() =~= classes(all));
    }
    groups
}

/// The number of items in all of `groups`.
pub open spec fn total<T>(groups: Seq<Seq<T>>) -> nat
    decreases groups.len(),
{
    if groups.len() == 0 {
        0
    } else {
        total(groups.drop_last()) + groups.last().len()
    }
}

/// A group more adds its items to the total.
pub proof fn lemma_total_with_one_more<T>(groups: Seq<Seq<T>>, g: Seq<T>)
    ensures
        total(groups.push(g)) == total(groups) + g.len(),
{
    assert(groups.push(g).drop_last() == groups);
}

/// A group in place of another changes the total by the difference of their
/// lengths.
pub proof fn lemma_total_with_one_changed<T>(groups: Seq<Seq<T>>, i: int, g: Seq<T>)
    requires
        0 <= i < groups.len(),
    ensures
        total(groups.update(i, g)) + groups[i].len() == total(groups) + g.len(),
    decreases groups.len(),
{
    let changed = groups.update(i, g);
    if i == groups.len() - 1 {
        assert(changed.drop_last() == groups.drop_last());
    } else {
        lemma_total_with_one_changed(groups.drop_last(), i, g);
        assert(changed.drop_last() == groups.drop_last().update(i, g));
    }
}

/// The first groups hold no more items than all of them.
pub proof fn lemma_total_grows<T>(groups: Seq<Seq<T>>, n: int)
    requires
        0 <= n <= groups.len(),
    ensures
        total(groups.take(n)) <= total(groups),
    decreases groups.len(),
{
    if n < groups.len() {
        lemma_total_grows(groups.drop_last(), n);
        assert(groups.drop_last().take(n) == groups.take(n));
    } else {
        assert(groups.take(n) == groups);
    }
}

/// Each item stands in one class, and in no other: the classes hold as many
/// items as there are entries.
pub proof fn lemma_classes_hold_every_item<K, T>(entries: Seq<(K, T)>)
    ensures
        total(classes(entries)) == entries.len(),
    decreases entries.len(),
{
    if entries.len() > 0 {
        let front = entries.drop_last();
        let last = entries.last();
        let earlier = first_keys(front);
        lemma_classes_hold_every_item(front);
        lemma_first_keys_differ(front);
        if earlier.contains(last.0) {
            let g = choose|g: int| 0 <= g < earlier.len() && earlier[g] == last.0;
            let grown = class_of(front, last.0).push(last.1);
            assert(classes(entries) =~= classes(front).update(g, grown));
            lemma_total_with_one_changed(classes(front), g, grown);
        } else {
            lemma_unlisted_key_has_no_class(front, last.0);
            assert(classes(entries) =~= classes(front).push(seq![last.1]));
            lemma_total_with_one_more(classes(front), seq![last.1]);
        }
    } else {
        assert(classes(entries) =~= Seq::<Seq<T>>::empty());
    }
}

/// The groups that `crowded` keeps hold no more items than the groups given.
pub proof fn lemma_crowded_hold_no_more<T>(groups: Seq<Seq<T>>)
    ensures
        total(crowded(groups)) <= total(groups),
    decreases groups.len(),
{
    if groups.len() > 0 {
        lemma_crowded_hold_no_more(groups.drop_last());
        if groups.last().len() >= 2 {
            lemma_total_with_one_more(crowded(groups.drop_last()), groups.last());
        }
    }
}

/// The number of records in all of `groups`, or `None` where it is more
/// than a `usize` holds.
pub fn count_records(groups: &Vec<Vec<RegularFile>>) -> (count: Option<usize>)
    ensures
        match count {
            Some(n) => n == total(groups.deep_view()),
            None => total(groups.deep_view()) > usize::MAX,
        },
{
    let ghost all = groups.deep_view();
    let mut count: usize = 0;
    let mut i: usize = 0;
    while i < groups.len()
        invariant
            i <= groups.len(),
            all == groups.deep_view(),
            count == total(all.take(i as int)),
        decreases groups.len() - i,
    {
        let n = groups[i].len();
        proof {
            assert(all.take(i + 1).drop_last() == all.take(i as int));
            assert(all.take(i + 1).last().len() == n);
        }
        if n > usize::MAX - count {
            proof {
                lemma_total_grows(all, i + 1);
            }
            return None;
        }
        count += n;
        i += 1;
    }
    proof {
        assert(all.take(i as int) == all);
    }
    Some(count)
}

/// Keeps the groups that hold at least two records, in their order.
pub fn keep_crowded(groups: Vec<Vec<RegularFile>>) -> (kept: Vec<Vec<RegularFile>>)
    ensures
        kept.deep_view() == crowded(groups.deep_view()),
{
    let ghost all = groups.deep_view();
    let mut stack = reversed(groups);
    let mut kept: Vec<Vec<RegularFile>> = Vec::new();
    let ghost mut done: Seq<Seq<FileView>> = Seq::empty();
    while stack.len() > 0
        invariant
            done.len() + stack.len() == all.len(),
            done == all.take(done.len() as int),
            forall|k: int|
                0 <= k < stack.len() ==> (#[trigger] stack@[k]).deep_view() == all[all.len() - 1 - k],
            kept.deep_view() == crowded(done),
        decreases stack.len(),
    {
        let ghost top = stack@[stack.len() - 1];
        let group = stack.pop().unwrap();
        let ghost next = done.push(group.deep_view());
        proof {
            assert(top.deep_view() == group.deep_view());
            assert(next.drop_last() == done);
            assert(next == all.take(next.len() as int));
        }
        if group.len() >= 2 {
            let ghost held = kept.deep_view();
            kept.push(group);
            proof {
                assert(kept.deep_view() =~= held.push(group.deep_view()));
            }
        }
        proof {
            done = next;
        }
    }
    proof {
        assert(done == all);
    }
    kept
}

} // verus!
