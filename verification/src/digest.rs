//! Confirmation: candidates of one size whose contents have the same digest.

use vstd::prelude::*;
use crate::group::{
    classes, crowded, entry_views, first_keys, keep_crowded, lemma_class_members,
    lemma_crowded_groups, lemma_twins_share_a_group, partition,
};
use crate::links::{collapsed, nonempty};
use crate::record::{reversed, FileView, RegularFile};
use crate::size::{
    candidate_buckets, lemma_bucket_shares_size, lemma_candidates_hold_bytes, size_buckets,
};

verus! {

/// The sixteen bytes that `md5::compute` returns for `data`.
pub uninterp spec fn md5_digest(data: Seq<u8>) -> Seq<u8>;

/// Calls `md5::compute` of the `md5` crate on the bytes and hands back the
/// sixteen bytes of the `Digest` that it returns. Taken on trust: that these
/// bytes depend on the bytes given and on nothing else, so that `md5_digest`
/// can stand for them. Nothing more is claimed of them.
#[verifier::external_body]
fn md5_compute(data: &Vec<u8>) -> (digest: [u8; 16])
    ensures
        digest@ == md5_digest(data@),
{
    md5::compute(data).0
}

/// The eight bytes of `bytes` from `at` on, read as one number, the first
/// byte counting most.
pub open spec fn word_at(bytes: Seq<u8>, at: int) -> int {
    bytes[at] as int * 0x100_0000_0000_0000 + bytes[at + 1] as int * 0x1_0000_0000_0000 + bytes[at
        + 2] as int * 0x100_0000_0000 + bytes[at + 3] as int * 0x1_0000_0000 + bytes[at + 4] as int
        * 0x100_0000 + bytes[at + 5] as int * 0x1_0000 + bytes[at + 6] as int * 0x100 + bytes[at
        + 7] as int
}

/// Sixteen bytes read as one number, the first byte counting most.
pub open spec fn digest_number(bytes: Seq<u8>) -> u128
    recommends
        bytes.len() == 16,
{
    (word_at(bytes, 0) * 0x1_0000_0000_0000_0000 + word_at(bytes, 8)) as u128
}

fn read_word(bytes: &[u8; 16], at: usize) -> (word: u64)
    requires
        at + 8 <= 16,
    ensures
        word == word_at(bytes@, at as int),
{
    let b0: u64 = bytes[at] as u64;
    let b1: u64 = bytes[at + 1] as u64;
    let b2: u64 = bytes[at + 2] as u64;
    let b3: u64 = bytes[at + 3] as u64;
    let b4: u64 = bytes[at + 4] as u64;
    let b5: u64 = bytes[at + 5] as u64;
    let b6: u64 = bytes[at + 6] as u64;
    let b7: u64 = bytes[at + 7] as u64;
    b0 * 0x100_0000_0000_0000u64 + b1 * 0x1_0000_0000_0000u64 + b2 * 0x100_0000_0000u64 + b3
        * 0x1_0000_0000u64 + b4 * 0x100_0000u64 + b5 * 0x1_0000u64 + b6 * 0x100u64 + b7
}

/// Sixteen bytes as one number, the first byte counting most.
pub fn number_of(bytes: &[u8; 16]) -> (number: u128)
    ensures
        number == digest_number(bytes@),
{
    let high: u128 = read_word(bytes, 0) as u128;
    let low: u128 = read_word(bytes, 8) as u128;
    high * 0x1_0000_0000_0000_0000u128 + low
}

/// The digest of a file's content, as a number.
pub fn get_md5(content: &Vec<u8>) -> (digest: u128)
    ensures
        digest == digest_number(md5_digest(content@)),
{
    let bytes = md5_compute(content);
    number_of(&bytes)
}

/// A record with the digest of its file's content, or with `None` where the
/// content could not be read in full.
#[derive(Debug)]
pub struct Hashed {
    pub file: RegularFile,
    pub digest: Option<u128>,
}

/// What a [`Hashed`] stands for in contracts.
pub struct HashedView {
    pub file: FileView,
    pub digest: Option<u128>,
}

impl View for Hashed {
    type V = HashedView;

    open spec fn view(&self) -> HashedView {
        HashedView { file: self.file@, digest: self.digest }
    }
}

impl DeepView for Hashed {
    type V = HashedView;

    open spec fn deep_view(&self) -> HashedView {
        self@
    }
}

/// The records of `bucket` whose content was read, each with its digest as
/// the key.
pub open spec fn digest_entries(bucket: Seq<HashedView>) -> Seq<(u128, FileView)>
    decreases bucket.len(),
{
    if bucket.len() == 0 {
        Seq::empty()
    } else {
        let earlier = digest_entries(bucket.drop_last());
        match bucket.last().digest {
            Some(d) => earlier.push((d, bucket.last().file)),
            None => earlier,
        }
    }
}

/// The records of one bucket by digest, ordered by the first occurrence of
/// the digests, without the digests that only one record has.
pub open spec fn confirmed(bucket: Seq<HashedView>) -> Seq<Seq<FileView>> {
    crowded(classes(digest_entries(bucket)))
}

/// The groups that `confirmed` finds in each bucket, bucket after bucket.
pub open spec fn digest_groups(buckets: Seq<Seq<HashedView>>) -> Seq<Seq<FileView>>
    decreases buckets.len(),
{
    if buckets.len() == 0 {
        Seq::empty()
    } else {
        digest_groups(buckets.drop_last()) + confirmed(buckets.last())
    }
}

/// Attaches to a record the digest of its file's content. The caller passes
/// `None` where it could not read the file in full.
pub fn hash_file(file: RegularFile, content: Option<&Vec<u8>>) -> (hashed: Hashed)
    ensures
        hashed@.file == file@,
        hashed@.digest == match content {
            Some(c) => Some(digest_number(md5_digest(c@))),
            None => None,
        },
{
    match content {
        Some(c) => Hashed { file, digest: Some(get_md5(c)) },
        None => Hashed { file, digest: None },
    }
}

/// Gives each record that has a digest that digest as the key, and leaves
/// out the others.
fn keyed_by_digest(bucket: Vec<Hashed>) -> (entries: Vec<(u128, RegularFile)>)
    ensures
        entry_views(entries@) == digest_entries(bucket.deep_view()),
{
    let ghost all = bucket.deep_view();
    let mut stack = reversed(bucket);
    let mut entries: Vec<(u128, RegularFile)> = Vec::new();
    let ghost mut done: Seq<HashedView> = Seq::empty();
    while stack.len() > 0
        invariant
            done.len() + stack.len() == all.len(),
            done == all.take(done.len() as int),
            forall|k: int| 0 <= k < stack.len() ==> (#[trigger] stack@[k])@ == all[all.len() - 1 - k],
            entry_views(entries@) == digest_entries(done),
        decreases stack.len(),
    {
        let ghost top = stack@[stack.len() - 1];
        let h = stack.pop().unwrap();
        let ghost next = done.push(h@);
        proof {
            assert(top@ == h@);
            assert(next.drop_last() == done);
            assert(next == all.take(next.len() as int));
        }
        let Hashed { file, digest } = h;
        if let Some(d) = digest {
            let ghost held = entry_views(entries@);
            entries.push((d, file));
            proof {
                assert(entry_views(entries@) =~= held.push((d, file@)));
            }
        }
        proof {
            done = next;
        }
    }
    proof {
        assert(done == all);
    }
    entries
}

/// Sorts the records of each bucket by the digest of their content and keeps
/// each group of two or more. A record whose content could not be read
/// belongs to no group. The groups of one bucket follow those of the bucket
/// before it.
pub fn by_digest(files: Vec<Vec<Hashed>>) -> (groups: Vec<Vec<RegularFile>>)
    ensures
        groups.deep_view() == digest_groups(files.deep_view()),
{
    let ghost all = files.deep_view();
    let mut stack = reversed(files);
    let mut groups: Vec<Vec<RegularFile>> = Vec::new();
    let ghost mut done: Seq<Seq<HashedView>> = Seq::empty();
    while stack.len() > 0
        invariant
            done.len() + stack.len() == all.len(),
            done == all.take(done.len() as int),
            forall|k: int|
                0 <= k < stack.len() ==> (#[trigger] stack@[k]).deep_view() == all[all.len() - 1 - k],
            groups.deep_view() == digest_groups(done),
        decreases stack.len(),
    {
        let ghost top = stack@[stack.len() - 1];
        let bucket = stack.pop().unwrap();
        let ghost next = done.push(bucket.deep_view());
        proof {
            assert(top.deep_view() == bucket.deep_view());
            assert(next.drop_last() == done);
            assert(next == all.take(next.len() as int));
        }
        let entries = keyed_by_digest(bucket);
        let mut kept = keep_crowded(partition(entries));
        let ghost held = groups.deep_view();
        let ghost added = kept.deep_view();
        groups.append(&mut kept);
        proof {
            assert(groups.deep_view() =~= held + added);
            done = next;
        }
    }
    proof {
        assert(done == all);
    }
    groups
}

/// Whether `bucket` holds the record `f` with the digest `d`.
pub open spec fn holds(bucket: Seq<HashedView>, f: FileView, d: u128) -> bool {
    exists|i: int|
        0 <= i < bucket.len() && #[trigger] bucket[i] == (HashedView { file: f, digest: Some(d) })
}

/// Whether each record of `group` stands in `bucket` with the digest `d`.
pub open spec fn drawn_from(group: Seq<FileView>, bucket: Seq<HashedView>, d: u128) -> bool {
    forall|m: int| 0 <= m < group.len() ==> holds(bucket, #[trigger] group[m], d)
}

/// The records of a bucket without their digests.
pub open spec fn files_of(bucket: Seq<HashedView>) -> Seq<FileView> {
    bucket.map_values(|h: HashedView| h.file)
}

/// Each keyed record of a bucket stands in the bucket with its key as the
/// digest.
pub proof fn lemma_digest_entries_are_held(bucket: Seq<HashedView>, x: int)
    requires
        0 <= x < digest_entries(bucket).len(),
    ensures
        holds(bucket, digest_entries(bucket)[x].1, digest_entries(bucket)[x].0),
    decreases bucket.len(),
{
    if bucket.len() > 0 {
        let front = bucket.drop_last();
        if x < digest_entries(front).len() {
            lemma_digest_entries_are_held(front, x);
            let e = digest_entries(front)[x];
            let i = choose|i: int|
                0 <= i < front.len() && #[trigger] front[i] == (HashedView {
                    file: e.1,
                    digest: Some(e.0),
                });
            assert(bucket[i] == front[i]);
        } else {
            let e = digest_entries(bucket)[x];
            assert(bucket[bucket.len() - 1] == (HashedView { file: e.1, digest: Some(e.0) }));
        }
    }
}

/// Each group found in a bucket holds two records or more, and its records
/// stand in the bucket with one digest.
pub proof fn lemma_confirmed_group(bucket: Seq<HashedView>, g: int)
    requires
        0 <= g < confirmed(bucket).len(),
    ensures
        confirmed(bucket)[g].len() >= 2,
        exists|d: u128| drawn_from(confirmed(bucket)[g], bucket, d),
{
    let entries = digest_entries(bucket);
    let group = confirmed(bucket)[g];
    lemma_crowded_groups(classes(entries), g);
    let c = choose|c: int| 0 <= c < classes(entries).len() && classes(entries)[c] == group;
    let d = first_keys(entries)[c];
    assert forall|m: int| 0 <= m < group.len() implies holds(bucket, #[trigger] group[m], d) by {
        lemma_class_members(entries, d, m);
        let x = choose|x: int| 0 <= x < entries.len() && #[trigger] entries[x] == (d, group[m]);
        lemma_digest_entries_are_held(bucket, x);
    }
    assert(drawn_from(group, bucket, d));
}

/// Each group that is reported holds two records or more, and its records
/// stand in one of the buckets with one digest.
pub proof fn lemma_reported_group(buckets: Seq<Seq<HashedView>>, g: int)
    requires
        0 <= g < digest_groups(buckets).len(),
    ensures
        digest_groups(buckets)[g].len() >= 2,
        exists|b: int, d: u128|
            0 <= b < buckets.len() && #[trigger] drawn_from(digest_groups(buckets)[g], buckets[b], d),
    decreases buckets.len(),
{
    if buckets.len() > 0 {
        let front = buckets.drop_last();
        let n = digest_groups(front).len();
        if g < n {
            lemma_reported_group(front, g);
            let (b, d) = choose|b: int, d: u128|
                0 <= b < front.len() && #[trigger] drawn_from(digest_groups(front)[g], front[b], d);
            assert(buckets[b] == front[b]);
            assert(drawn_from(digest_groups(buckets)[g], buckets[b], d));
        } else {
            let last = buckets.last();
            lemma_confirmed_group(last, g - n);
            let group = confirmed(last)[g - n];
            let d = choose|d: u128| drawn_from(group, last, d);
            assert(drawn_from(digest_groups(buckets)[g], buckets[buckets.len() - 1], d));
        }
    }
}

/// Two records of a bucket that have digests stand among the keyed records
/// in the order that they have in the bucket.
pub proof fn lemma_digest_entries_keep_order(bucket: Seq<HashedView>, i: int, j: int)
    requires
        0 <= i < j < bucket.len(),
        bucket[i].digest is Some,
        bucket[j].digest is Some,
    ensures
        exists|x: int, y: int|
            0 <= x < y < digest_entries(bucket).len() && #[trigger] digest_entries(bucket)[x] == (
                bucket[i].digest->0,
                bucket[i].file,
            ) && #[trigger] digest_entries(bucket)[y] == (bucket[j].digest->0, bucket[j].file),
    decreases bucket.len(),
{
    let front = bucket.drop_last();
    let entries = digest_entries(bucket);
    if j < bucket.len() - 1 {
        lemma_digest_entries_keep_order(front, i, j);
        let (x, y) = choose|x: int, y: int|
            0 <= x < y < digest_entries(front).len() && #[trigger] digest_entries(front)[x] == (
                front[i].digest->0,
                front[i].file,
            ) && #[trigger] digest_entries(front)[y] == (front[j].digest->0, front[j].file);
        assert(entries[x] == digest_entries(front)[x]);
        assert(entries[y] == digest_entries(front)[y]);
    } else {
        lemma_digest_entries_hold(front, i);
        let x = choose|x: int|
            0 <= x < digest_entries(front).len() && #[trigger] digest_entries(front)[x] == (
                front[i].digest->0,
                front[i].file,
            );
        assert(entries[x] == digest_entries(front)[x]);
        assert(entries[entries.len() - 1] == (bucket[j].digest->0, bucket[j].file));
    }
}

/// Each record of a bucket that has a digest stands among the keyed records.
pub proof fn lemma_digest_entries_hold(bucket: Seq<HashedView>, i: int)
    requires
        0 <= i < bucket.len(),
        bucket[i].digest is Some,
    ensures
        exists|x: int|
            0 <= x < digest_entries(bucket).len() && #[trigger] digest_entries(bucket)[x] == (
                bucket[i].digest->0,
                bucket[i].file,
            ),
    decreases bucket.len(),
{
    let front = bucket.drop_last();
    let entries = digest_entries(bucket);
    if i < bucket.len() - 1 {
        lemma_digest_entries_hold(front, i);
        let x = choose|x: int|
            0 <= x < digest_entries(front).len() && #[trigger] digest_entries(front)[x] == (
                front[i].digest->0,
                front[i].file,
            );
        assert(entries[x] == digest_entries(front)[x]);
    } else {
        assert(entries[entries.len() - 1] == (bucket[i].digest->0, bucket[i].file));
    }
}

/// Nothing is missed: two records of one bucket that have the same digest
/// stand together in a group that is reported.
pub proof fn lemma_same_digest_is_reported(buckets: Seq<Seq<HashedView>>, b: int, i: int, j: int)
    requires
        0 <= b < buckets.len(),
        0 <= i < j < buckets[b].len(),
        buckets[b][i].digest is Some,
        buckets[b][i].digest == buckets[b][j].digest,
    ensures
        exists|g: int|
            0 <= g < digest_groups(buckets).len() && (#[trigger] digest_groups(buckets)[g]).contains(
                buckets[b][i].file,
            ) && digest_groups(buckets)[g].contains(buckets[b][j].file),
    decreases buckets.len(),
{
    let front = buckets.drop_last();
    let n = digest_groups(front).len();
    if b < buckets.len() - 1 {
        assert(front[b] == buckets[b]);
        lemma_same_digest_is_reported(front, b, i, j);
        let g = choose|g: int|
            0 <= g < digest_groups(front).len() && (#[trigger] digest_groups(front)[g]).contains(
                front[b][i].file,
            ) && digest_groups(front)[g].contains(front[b][j].file);
        assert(digest_groups(buckets)[g] == digest_groups(front)[g]);
    } else {
        let bucket = buckets[b];
        let entries = digest_entries(bucket);
        lemma_digest_entries_keep_order(bucket, i, j);
        let (x, y) = choose|x: int, y: int|
            0 <= x < y < entries.len() && #[trigger] entries[x] == (
                bucket[i].digest->0,
                bucket[i].file,
            ) && #[trigger] entries[y] == (bucket[j].digest->0, bucket[j].file);
        lemma_twins_share_a_group(entries, x, y);
        let g = choose|g: int|
            0 <= g < confirmed(bucket).len() && (#[trigger] confirmed(bucket)[g]).contains(
                entries[x].1,
            ) && confirmed(bucket)[g].contains(entries[y].1);
        assert(digest_groups(buckets)[n + g] == confirmed(bucket)[g]);
    }
}

/// Whether the files of `bucket` have one size.
pub open spec fn one_size(bucket: Seq<HashedView>) -> bool {
    forall|i: int, j: int|
        0 <= i < bucket.len() && 0 <= j < bucket.len() ==> (#[trigger] bucket[i]).file.size == (
        #[trigger] bucket[j]).file.size
}

/// Any two records of a group that is reported have one digest, and one
/// size where the files of each bucket have one size.
pub proof fn lemma_duplicates_agree(buckets: Seq<Seq<HashedView>>, g: int, m: int, n: int)
    requires
        0 <= g < digest_groups(buckets).len(),
        0 <= m < digest_groups(buckets)[g].len(),
        0 <= n < digest_groups(buckets)[g].len(),
    ensures
        exists|b: int, d: u128|
            0 <= b < buckets.len() && #[trigger] holds(buckets[b], digest_groups(buckets)[g][m], d)
                && holds(buckets[b], digest_groups(buckets)[g][n], d),
        (forall|b: int| 0 <= b < buckets.len() ==> one_size(#[trigger] buckets[b]))
            ==> digest_groups(buckets)[g][m].size == digest_groups(buckets)[g][n].size,
{
    let group = digest_groups(buckets)[g];
    lemma_reported_group(buckets, g);
    let (b, d) = choose|b: int, d: u128|
        0 <= b < buckets.len() && #[trigger] drawn_from(group, buckets[b], d);
    assert(holds(buckets[b], group[m], d));
    assert(holds(buckets[b], group[n], d));
    if forall|b: int| 0 <= b < buckets.len() ==> one_size(#[trigger] buckets[b]) {
        assert(one_size(buckets[b]));
        let i = choose|i: int|
            0 <= i < buckets[b].len() && #[trigger] buckets[b][i] == (HashedView {
                file: group[m],
                digest: Some(d),
            });
        let j = choose|j: int|
            0 <= j < buckets[b].len() && #[trigger] buckets[b][j] == (HashedView {
                file: group[n],
                digest: Some(d),
            });
        assert(buckets[b][i].file.size == buckets[b][j].file.size);
    }
}

/// Whether `hashed` holds the candidates among `files`, bucket for bucket
/// and record for record, each with a digest or without.
pub open spec fn hashes_candidates(hashed: Seq<Seq<HashedView>>, files: Seq<FileView>) -> bool {
    &&& hashed.len() == candidate_buckets(files).len()
    &&& forall|b: int|
        0 <= b < hashed.len() ==> files_of(#[trigger] hashed[b]) == candidate_buckets(files)[b]
}

/// The groups reported for the records `files` of a walk: each holds two
/// records or more, any two of its records have one size and one digest, and
/// none of them is an empty file.
pub proof fn lemma_reported_duplicates(
    files: Seq<FileView>,
    hashed: Seq<Seq<HashedView>>,
    g: int,
    m: int,
    n: int,
)
    requires
        hashes_candidates(hashed, files),
        0 <= g < digest_groups(hashed).len(),
        0 <= m < digest_groups(hashed)[g].len(),
        0 <= n < digest_groups(hashed)[g].len(),
    ensures
        digest_groups(hashed)[g].len() >= 2,
        digest_groups(hashed)[g][m].size == digest_groups(hashed)[g][n].size,
        digest_groups(hashed)[g][m].size > 0,
        exists|b: int, d: u128|
            0 <= b < hashed.len() && #[trigger] holds(hashed[b], digest_groups(hashed)[g][m], d)
                && holds(hashed[b], digest_groups(hashed)[g][n], d),
{
    let group = digest_groups(hashed)[g];
    let survivors = collapsed(nonempty(files));
    assert forall|b: int| 0 <= b < hashed.len() implies one_size(#[trigger] hashed[b]) by {
        assert(files_of(hashed[b]) == size_buckets(survivors)[b]);
        assert forall|i: int, j: int| 0 <= i < hashed[b].len() && 0 <= j < hashed[b].len() implies (
        #[trigger] hashed[b][i]).file.size == (#[trigger] hashed[b][j]).file.size by {
            lemma_bucket_shares_size(survivors, b, i, j);
            assert(files_of(hashed[b])[i] == hashed[b][i].file);
            assert(files_of(hashed[b])[j] == hashed[b][j].file);
        }
    }
    lemma_duplicates_agree(hashed, g, m, n);
    lemma_reported_group(hashed, g);
    let (b, d) = choose|b: int, d: u128|
        0 <= b < hashed.len() && #[trigger] drawn_from(group, hashed[b], d);
    assert(holds(hashed[b], group[m], d));
    let i = choose|i: int|
        0 <= i < hashed[b].len() && #[trigger] hashed[b][i] == (HashedView {
            file: group[m],
            digest: Some(d),
        });
    assert(files_of(hashed[b])[i] == group[m]);
    lemma_candidates_hold_bytes(files, b, i);
}

} // verus!
