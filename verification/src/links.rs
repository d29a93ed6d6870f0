//! Hard links: records of one inode become one record.

use vstd::prelude::*;
use crate::group::{
    class_of, classes, entry_views, first_keys, keys_differ, lemma_class_holds_entry,
    lemma_class_members, lemma_classes_hold_an_item, lemma_classes_of_different_keys,
    lemma_classes_under_encoding, lemma_first_keys_differ, lemma_keys_are_listed,
    lemma_no_more_keys_than_entries, partition,
};
use crate::record::{paths_of, reversed, FileView, RegularFile};

verus! {

/// Whether two records stand for the same inode.
pub open spec fn same_inode(a: FileView, b: FileView) -> bool {
    a.dev == b.dev && a.ino == b.ino
}

/// The records, each with its device and inode number as the key.
pub open spec fn inode_entries(files: Seq<FileView>) -> Seq<((u64, u64), FileView)> {
    files.map_values(|f: FileView| ((f.dev, f.ino), f))
}

/// Device and inode number as one number: the device in the upper 64 bits,
/// the inode number in the lower.
pub open spec fn inode_code(f: FileView) -> u128 {
    (f.dev as int * 0x1_0000_0000_0000_0000 + f.ino as int) as u128
}

/// The records, each with the number of its inode as the key.
pub open spec fn coded_by_inode(files: Seq<FileView>) -> Seq<(u128, FileView)> {
    files.map_values(|f: FileView| (inode_code(f), f))
}

/// The one record that stands for a group of records of one inode: the first
/// of them, with the paths of the others added to its hard links in their
/// order.
pub open spec fn merged(group: Seq<FileView>) -> FileView
    recommends
        group.len() > 0,
{
    FileView { hard_links: group[0].hard_links + paths_of(group.skip(1)), ..group[0] }
}

/// One record for each inode of `files`, ordered by the first occurrence of
/// the inodes.
pub open spec fn collapsed(files: Seq<FileView>) -> Seq<FileView> {
    classes(inode_entries(files)).map_values(|g: Seq<FileView>| merged(g))
}

/// The records of `files` that hold at least one byte, in their order.
pub open spec fn nonempty(files: Seq<FileView>) -> Seq<FileView>
    decreases files.len(),
{
    if files.len() == 0 {
        Seq::empty()
    } else {
        let earlier = nonempty(files.drop_last());
        if files.last().size > 0 {
            earlier.push(files.last())
        } else {
            earlier
        }
    }
}

/// Two records have the same number exactly when they stand for the same
/// inode, so the classes by number are the classes by device and inode.
pub proof fn lemma_inode_code_is_exact(files: Seq<FileView>)
    ensures
        forall|a: FileView, b: FileView| inode_code(a) == inode_code(b) <==> same_inode(a, b),
        classes(coded_by_inode(files)) == classes(inode_entries(files)),
{
    assert forall|a: FileView, b: FileView| inode_code(a) == inode_code(b) <==> same_inode(
        a,
        b,
    ) by {}
    lemma_classes_under_encoding(coded_by_inode(files), inode_entries(files));
}

/// Leaves out the records of empty files.
pub fn without_empty(files: Vec<RegularFile>) -> (kept: Vec<RegularFile>)
    ensures
        kept.deep_view() == nonempty(files.deep_view()),
{
    let ghost all = files.deep_view();
    let mut stack = reversed(files);
    let mut kept: Vec<RegularFile> = Vec::new();
    let ghost mut done: Seq<FileView> = Seq::empty();
    while stack.len() > 0
        invariant
            done.len() + stack.len() == all.len(),
            done == all.take(done.len() as int),
            forall|k: int| 0 <= k < stack.len() ==> (#[trigger] stack@[k])@ == all[all.len() - 1 - k],
            kept.deep_view() == nonempty(done),
        decreases stack.len(),
    {
        let ghost top = stack@[stack.len() - 1];
        let f = stack.pop().unwrap();
        let ghost next = done.push(f@);
        proof {
            assert(top@ == f@);
            assert(next.drop_last() == done);
            assert(next == all.take(next.len() as int));
        }
        if f.size > 0 {
            let ghost held = kept.deep_view();
            kept.push(f);
            proof {
                assert(kept.deep_view() =~= held.push(f@));
            }
        }
        proof {
            done = next;
        }
    }
    proof {
        assert(done == all);
    }
    kept
}

/// Gives each record the number of its inode as the key.
fn keyed_by_inode(files: Vec<RegularFile>) -> (entries: Vec<(u128, RegularFile)>)
    ensures
        entry_views(entries@) == coded_by_inode(files.deep_view()),
{
    let ghost all = files.deep_view();
    let mut stack = reversed(files);
    let mut entries: Vec<(u128, RegularFile)> = Vec::new();
    while stack.len() > 0
        invariant
            entries.len() + stack.len() == all.len(),
            forall|k: int| 0 <= k < stack.len() ==> (#[trigger] stack@[k])@ == all[all.len() - 1 - k],
            forall|k: int|
                0 <= k < entries.len() ==> (#[trigger] entries@[k]).0 == inode_code(all[k])
                    && entries@[k].1@ == all[k],
        decreases stack.len(),
    {
        let f = stack.pop().unwrap();
        let high: u128 = f.dev as u128;
        let low: u128 = f.ino as u128;
        let key: u128 = high * 0x1_0000_0000_0000_0000u128 + low;
        entries.push((key, f));
    }
    proof {
        assert(entry_views(entries@) =~= coded_by_inode(all));
    }
    entries
}

/// Makes one record of a group of records.
fn merge_group(group: Vec<RegularFile>) -> (survivor: RegularFile)
    requires
        group.len() > 0,
    ensures
        survivor@ == merged(group.deep_view()),
{
    let ghost all = group.deep_view();
    let mut stack = reversed(group);
    let mut survivor = stack.pop().unwrap();
    proof {
        assert(survivor@ == all[0]);
        assert(paths_of(all.subrange(1, 1)) =~= Seq::empty());
        assert(all[0].hard_links + paths_of(all.subrange(1, 1)) =~= all[0].hard_links);
    }
    while stack.len() > 0
        invariant
            0 < all.len(),
            stack.len() < all.len(),
            forall|k: int| 0 <= k < stack.len() ==> (#[trigger] stack@[k])@ == all[all.len() - 1 - k],
            survivor@ == (FileView {
                hard_links: all[0].hard_links + paths_of(
                    all.subrange(1, all.len() - stack.len()),
                ),
                ..all[0]
            }),
        decreases stack.len(),
    {
        let ghost n = all.len() - stack.len();
        let ghost held = survivor@;
        let f = stack.pop().unwrap();
        let RegularFile { path, size: _, dev: _, ino: _, hard_links: _, symbolic_links: _ } = f;
        survivor.hard_links.push(path);
        proof {
            assert(path@ == all[n].path);
            assert(path.deep_view() =~= path@);
            assert(paths_of(all.subrange(1, n + 1)) =~= paths_of(all.subrange(1, n)).push(path@));
            assert(survivor@.hard_links =~= held.hard_links.push(path@));
            assert(survivor@.hard_links =~= all[0].hard_links + paths_of(all.subrange(1, n + 1)));
        }
    }
    proof {
        assert(all.subrange(1, all.len() as int) =~= all.skip(1));
    }
    survivor
}

/// Merges the records of each inode into one record: the first of them, which
/// gets the paths of the others as hard links. The records come out in the
/// order in which their inodes first occur, and `files` is left empty.
pub fn group_hard_links(files: &mut Vec<RegularFile>) -> (survivors: Vec<RegularFile>)
    ensures
        final(files)@.len() == 0,
        survivors.deep_view() == collapsed(old(files).deep_view()),
{
    let mut taken: Vec<RegularFile> = Vec::new();
    core::mem::swap(files, &mut taken);
    let ghost all = taken.deep_view();
    let entries = keyed_by_inode(taken);
    let groups = partition(entries);
    let ghost parts = groups.deep_view();
    proof {
        lemma_inode_code_is_exact(all);
    }
    let mut stack = reversed(groups);
    let mut survivors: Vec<RegularFile> = Vec::new();
    while stack.len() > 0
        invariant
            parts == classes(inode_entries(all)),
            survivors.len() + stack.len() == parts.len(),
            forall|k: int|
                0 <= k < stack.len() ==> (#[trigger] stack@[k]).deep_view() == parts[parts.len() - 1
                    - k],
            forall|k: int| 0 <= k < survivors.len() ==> (#[trigger] survivors@[k])@ == merged(parts[k]),
        decreases stack.len(),
    {
        let ghost n = survivors.len() as int;
        let group = stack.pop().unwrap();
        proof {
            assert(group.deep_view() == parts[n]);
            lemma_classes_hold_an_item(inode_entries(all), n);
        }
        let survivor = merge_group(group);
        survivors.push(survivor);
    }
    proof {
        assert(survivors.deep_view() =~= collapsed(all));
    }
    survivors
}

/// Whether the record `r` stands for the file `f`: it has the path, size,
/// inode and symbolic links of `f`, and its hard links begin with those of `f`.
pub open spec fn stands_for(r: FileView, f: FileView) -> bool {
    &&& r.path == f.path
    &&& r.size == f.size
    &&& r.dev == f.dev
    &&& r.ino == f.ino
    &&& r.symbolic_links == f.symbolic_links
    &&& f.hard_links.is_prefix_of(r.hard_links)
}

/// Each record that is left stands for one of the records given.
pub proof fn lemma_collapsed_stand_for_files(files: Seq<FileView>, i: int)
    requires
        0 <= i < collapsed(files).len(),
    ensures
        exists|k: int| 0 <= k < files.len() && stands_for(collapsed(files)[i], #[trigger] files[k]),
{
    let entries = inode_entries(files);
    let key = first_keys(entries)[i];
    lemma_classes_hold_an_item(entries, i);
    lemma_class_members(entries, key, 0);
    let k = choose|k: int| 0 <= k < entries.len() && #[trigger] entries[k] == (key, class_of(entries, key)[0]);
    assert(stands_for(collapsed(files)[i], files[k]));
}

/// No two records that are left stand for the same inode.
pub proof fn lemma_one_record_per_inode(files: Seq<FileView>, i: int, j: int)
    requires
        0 <= i < collapsed(files).len(),
        0 <= j < collapsed(files).len(),
        i != j,
    ensures
        !same_inode(collapsed(files)[i], collapsed(files)[j]),
{
    let entries = inode_entries(files);
    let keys = first_keys(entries);
    lemma_first_keys_differ(entries);
    lemma_classes_hold_an_item(entries, i);
    lemma_classes_hold_an_item(entries, j);
    lemma_class_members(entries, keys[i], 0);
    lemma_class_members(entries, keys[j], 0);
    let a = choose|a: int| 0 <= a < entries.len() && #[trigger] entries[a] == (keys[i], class_of(entries, keys[i])[0]);
    let b = choose|b: int| 0 <= b < entries.len() && #[trigger] entries[b] == (keys[j], class_of(entries, keys[j])[0]);
    assert((files[a].dev, files[a].ino) == keys[i]);
    assert((files[b].dev, files[b].ino) == keys[j]);
}

/// Whether `path` is the path of the record `r` or one of its hard links.
pub open spec fn names(r: FileView, path: Seq<u8>) -> bool {
    r.path == path || r.hard_links.contains(path)
}

/// No path is lost: the path of each record given is the path or a hard link
/// of the record that is left for its inode.
pub proof fn lemma_no_path_is_lost(files: Seq<FileView>, k: int)
    requires
        0 <= k < files.len(),
    ensures
        exists|i: int|
            0 <= i < collapsed(files).len() && same_inode(#[trigger] collapsed(files)[i], files[k])
                && names(collapsed(files)[i], files[k].path),
{
    let entries = inode_entries(files);
    let key = entries[k].0;
    lemma_keys_are_listed(entries, k);
    let i = choose|i: int| 0 <= i < first_keys(entries).len() && first_keys(entries)[i] == key;
    let class = class_of(entries, key);
    assert(classes(entries)[i] == class);
    lemma_class_holds_entry(entries, k);
    let m = choose|m: int| 0 <= m < class.len() && class[m] == files[k];
    lemma_class_members(entries, key, 0);
    let x = choose|x: int| 0 <= x < entries.len() && #[trigger] entries[x] == (key, class[0]);
    assert((files[x].dev, files[x].ino) == key);
    let survivor = collapsed(files)[i];
    assert(survivor == merged(class));
    if m > 0 {
        let rest = paths_of(class.skip(1));
        assert(rest[m - 1] == files[k].path);
        assert(survivor.hard_links[class[0].hard_links.len() + m - 1] == files[k].path);
    }
}

/// Merging once more changes nothing.
pub proof fn lemma_collapsing_twice(files: Seq<FileView>)
    ensures
        collapsed(collapsed(files)) == collapsed(files),
{
    let once = collapsed(files);
    let entries = inode_entries(once);
    assert forall|i: int, j: int| 0 <= i < j < entries.len() implies (#[trigger] entries[i]).0 != (
    #[trigger] entries[j]).0 by {
        lemma_one_record_per_inode(files, i, j);
    }
    assert(keys_differ(entries));
    lemma_classes_of_different_keys(entries);
    assert forall|i: int| 0 <= i < once.len() implies #[trigger] collapsed(once)[i] == once[i] by {
        let group = classes(entries)[i];
        assert(group == seq![once[i]]);
        assert(paths_of(group.skip(1)) =~= Seq::<Seq<u8>>::empty());
        assert(once[i].hard_links + paths_of(group.skip(1)) =~= once[i].hard_links);
    }
    assert(collapsed(once) =~= once);
}

/// Merging leaves no more records than there were, and `nonempty` keeps no
/// more than it was given.
pub proof fn lemma_fewer_records(files: Seq<FileView>)
    ensures
        collapsed(files).len() <= files.len(),
        nonempty(files).len() <= files.len(),
    decreases files.len(),
{
    lemma_no_more_keys_than_entries(inode_entries(files));
    if files.len() > 0 {
        lemma_fewer_records(files.drop_last());
    }
}

/// Each record that `nonempty` keeps is one of the records given and holds
/// at least one byte.
pub proof fn lemma_nonempty_files(files: Seq<FileView>, i: int)
    requires
        0 <= i < nonempty(files).len(),
    ensures
        nonempty(files)[i].size > 0,
        files.contains(nonempty(files)[i]),
    decreases files.len(),
{
    if files.len() > 0 {
        let front = files.drop_last();
        if i < nonempty(front).len() {
            lemma_nonempty_files(front, i);
            let k = choose|k: int| 0 <= k < front.len() && front[k] == nonempty(front)[i];
            assert(files[k] == front[k]);
        } else {
            assert(files[files.len() - 1] == nonempty(files)[i]);
        }
    }
}

} // verus!
