//! Candidates: records of different inodes that share a size.

use vstd::prelude::*;
use crate::group::{
    classes, count_records, crowded, entry_views, first_keys, keep_crowded,
    lemma_class_keeps_order, lemma_class_members, lemma_classes_hold_every_item,
    lemma_classes_under_encoding, lemma_twins_share_a_group,
    lemma_crowded_groups, lemma_crowded_hold_no_more, partition, total,
};
use crate::links::{
    collapsed, group_hard_links, lemma_collapsed_stand_for_files, lemma_fewer_records,
    lemma_nonempty_files, lemma_one_record_per_inode, nonempty, same_inode, stands_for,
    without_empty,
};
use crate::record::{reversed, FileView, RegularFile};

verus! {

/// The records, each with its size as the key.
pub open spec fn size_entries(files: Seq<FileView>) -> Seq<(u64, FileView)> {
    files.map_values(|f: FileView| (f.size, f))
}

/// The records, each with its size as the key, written in 128 bits.
pub open spec fn coded_by_size(files: Seq<FileView>) -> Seq<(u128, FileView)> {
    files.map_values(|f: FileView| (f.size as u128, f))
}

/// The records of `files` by size, ordered by the first occurrence of the
/// sizes, without the sizes that only one record has.
pub open spec fn size_buckets(files: Seq<FileView>) -> Seq<Seq<FileView>> {
    crowded(classes(size_entries(files)))
}

/// Gives each record its size as the key.
fn keyed_by_size(files: Vec<RegularFile>) -> (entries: Vec<(u128, RegularFile)>)
    ensures
        entry_views(entries@) == coded_by_size(files.deep_view()),
{
    let ghost all = files.deep_view();
    let mut stack = reversed(files);
    let mut entries: Vec<(u128, RegularFile)> = Vec::new();
    while stack.len() > 0
        invariant
            entries.len() + stack.len() == all.len(),
            forall|k: int| 0 <= k < stack.len() ==> (#[trigger] stack@[k])@ == all[all.len() - 1 - k],
            forall|k: int|
                0 <= k < entries.len() ==> (#[trigger] entries@[k]).0 == all[k].size as u128
                    && entries@[k].1@ == all[k],
        decreases stack.len(),
    {
        let f = stack.pop().unwrap();
        let key: u128 = f.size as u128;
        entries.push((key, f));
    }
    proof {
        assert(entry_views(entries@) =~= coded_by_size(all));
    }
    entries
}

/// Sorts the records into buckets by size and drops each bucket that holds
/// a single record.
fn bucket_by_size(files: Vec<RegularFile>) -> (buckets: Vec<Vec<RegularFile>>)
    ensures
        buckets.deep_view() == size_buckets(files.deep_view()),
{
    proof {
        lemma_classes_under_encoding(
            coded_by_size(files.deep_view()),
            size_entries(files.deep_view()),
        );
    }
    let entries = keyed_by_size(files);
    let groups = partition(entries);
    keep_crowded(groups)
}

/// Merges hard links, then sorts the records that are left into buckets by
/// size and drops each bucket that holds a single record. `files` is left
/// empty.
pub fn by_size(files: &mut Vec<RegularFile>) -> (buckets: Vec<Vec<RegularFile>>)
    ensures
        final(files)@.len() == 0,
        buckets.deep_view() == size_buckets(collapsed(old(files).deep_view())),
{
    let survivors = group_hard_links(files);
    bucket_by_size(survivors)
}

/// The buckets of candidates among `files`: empty files are left out, hard
/// links are merged, and what is left is sorted by size.
pub open spec fn candidate_buckets(files: Seq<FileView>) -> Seq<Seq<FileView>> {
    size_buckets(collapsed(nonempty(files)))
}

/// The candidates among the records of a walk, and how many records fell
/// out on the way to them.
#[derive(Debug)]
pub struct Candidates {
    /// The buckets: in each, two or more records of one size.
    pub buckets: Vec<Vec<RegularFile>>,
    /// How many records were left out as empty files.
    pub empty: usize,
    /// How many records were merged into another as hard links.
    pub hard_links: usize,
    /// How many records were dropped because no other has their size.
    pub unique_size: usize,
}

/// The buckets hold no more records than they were made from.
pub proof fn lemma_buckets_hold_no_more(files: Seq<FileView>)
    ensures
        total(size_buckets(files)) <= files.len(),
{
    lemma_classes_hold_every_item(size_entries(files));
    lemma_crowded_hold_no_more(classes(size_entries(files)));
}

/// Finds the candidates among the records of a walk: leaves out the empty
/// files, merges hard links, and sorts what is left into buckets by size, of
/// which it keeps those with two records or more. It counts what each step
/// takes away.
pub fn candidates(files: Vec<RegularFile>) -> (found: Candidates)
    ensures
        found.buckets.deep_view() == candidate_buckets(files.deep_view()),
        found.empty == files.len() - nonempty(files.deep_view()).len(),
        found.hard_links == nonempty(files.deep_view()).len() - collapsed(
            nonempty(files.deep_view()),
        ).len(),
        found.unique_size == collapsed(nonempty(files.deep_view())).len() - total(
            candidate_buckets(files.deep_view()),
        ),
{
    let ghost all = files.deep_view();
    proof {
        lemma_fewer_records(all);
        lemma_fewer_records(nonempty(all));
        lemma_buckets_hold_no_more(collapsed(nonempty(all)));
    }
    let given = files.len();
    let mut kept = without_empty(files);
    let with_bytes = kept.len();
    let survivors = group_hard_links(&mut kept);
    let inodes = survivors.len();
    let buckets = bucket_by_size(survivors);
    let in_buckets = match count_records(&buckets) {
        Some(n) => n,
        None => inodes,
    };
    Candidates {
        buckets,
        empty: given - with_bytes,
        hard_links: with_bytes - inodes,
        unique_size: inodes - in_buckets,
    }
}

/// Each bucket holds two records or more, and each of its records is one of
/// the records given.
pub proof fn lemma_bucket_files(files: Seq<FileView>, b: int, m: int)
    requires
        0 <= b < size_buckets(files).len(),
        0 <= m < size_buckets(files)[b].len(),
    ensures
        size_buckets(files)[b].len() >= 2,
        files.contains(size_buckets(files)[b][m]),
{
    let entries = size_entries(files);
    lemma_crowded_groups(classes(entries), b);
    let c = choose|c: int| 0 <= c < classes(entries).len() && classes(entries)[c] == size_buckets(files)[b];
    let key = first_keys(entries)[c];
    lemma_class_members(entries, key, m);
    let x = choose|x: int| 0 <= x < entries.len() && #[trigger] entries[x] == (key, size_buckets(files)[b][m]);
    assert(files[x] == size_buckets(files)[b][m]);
}

/// The records of a bucket have one size.
pub proof fn lemma_bucket_shares_size(files: Seq<FileView>, b: int, m: int, n: int)
    requires
        0 <= b < size_buckets(files).len(),
        0 <= m < size_buckets(files)[b].len(),
        0 <= n < size_buckets(files)[b].len(),
    ensures
        size_buckets(files)[b][m].size == size_buckets(files)[b][n].size,
{
    let entries = size_entries(files);
    let bucket = size_buckets(files)[b];
    lemma_crowded_groups(classes(entries), b);
    let c = choose|c: int| 0 <= c < classes(entries).len() && classes(entries)[c] == bucket;
    let key = first_keys(entries)[c];
    lemma_class_members(entries, key, m);
    lemma_class_members(entries, key, n);
    let x = choose|x: int| 0 <= x < entries.len() && #[trigger] entries[x] == (key, bucket[m]);
    let y = choose|y: int| 0 <= y < entries.len() && #[trigger] entries[y] == (key, bucket[n]);
    assert(files[x].size == key);
    assert(files[y].size == key);
}

/// Two records of one size stand together in a bucket.
pub proof fn lemma_same_size_shares_a_bucket(files: Seq<FileView>, x: int, y: int)
    requires
        0 <= x < y < files.len(),
        files[x].size == files[y].size,
    ensures
        exists|b: int|
            0 <= b < size_buckets(files).len() && (#[trigger] size_buckets(files)[b]).contains(
                files[x],
            ) && size_buckets(files)[b].contains(files[y]),
{
    let entries = size_entries(files);
    assert(entries[x].0 == entries[y].0);
    lemma_twins_share_a_group(entries, x, y);
    let b = choose|b: int|
        0 <= b < crowded(classes(entries)).len() && (#[trigger] crowded(classes(entries))[b]).contains(
            entries[x].1,
        ) && crowded(classes(entries))[b].contains(entries[y].1);
    assert(size_buckets(files)[b].contains(files[x]));
    assert(size_buckets(files)[b].contains(files[y]));
}

/// No candidate is an empty file.
pub proof fn lemma_candidates_hold_bytes(files: Seq<FileView>, b: int, m: int)
    requires
        0 <= b < candidate_buckets(files).len(),
        0 <= m < candidate_buckets(files)[b].len(),
    ensures
        candidate_buckets(files)[b][m].size > 0,
{
    let kept = nonempty(files);
    let survivors = collapsed(kept);
    let f = candidate_buckets(files)[b][m];
    lemma_bucket_files(survivors, b, m);
    let i = choose|i: int| 0 <= i < survivors.len() && survivors[i] == f;
    lemma_collapsed_stand_for_files(kept, i);
    let k = choose|k: int| 0 <= k < kept.len() && stands_for(survivors[i], #[trigger] kept[k]);
    lemma_nonempty_files(files, k);
}

/// No two candidates stand for the same inode.
pub proof fn lemma_candidates_are_different_inodes(
    files: Seq<FileView>,
    b: int,
    m: int,
    n: int,
)
    requires
        0 <= b < size_buckets(collapsed(files)).len(),
        0 <= m < n < size_buckets(collapsed(files))[b].len(),
    ensures
        !same_inode(size_buckets(collapsed(files))[b][m], size_buckets(collapsed(files))[b][n]),
{
    let survivors = collapsed(files);
    let entries = size_entries(survivors);
    let bucket = size_buckets(survivors)[b];
    lemma_crowded_groups(classes(entries), b);
    let c = choose|c: int| 0 <= c < classes(entries).len() && classes(entries)[c] == bucket;
    let key = first_keys(entries)[c];
    lemma_class_keeps_order(entries, key, m, n);
    let (x, y) = choose|x: int, y: int|
        0 <= x < y < entries.len() && #[trigger] entries[x] == (key, bucket[m])
            && #[trigger] entries[y] == (key, bucket[n]);
    assert(survivors[x] == bucket[m]);
    assert(survivors[y] == bucket[n]);
    lemma_one_record_per_inode(files, x, y);
}

} // verus!
