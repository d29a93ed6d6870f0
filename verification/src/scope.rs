//! The scan roots: canonical paths, none of them inside another.

use vstd::prelude::*;
use crate::record::{copy_path, reversed};
use crate::error::{ScanError, ScanErrorView};

verus! {

/// The byte that parts the components of a path.
pub const SEPARATOR: u8 = 0x2f;

/// Whether `path` is `base` or lies below it: `base` is a prefix of `path`
/// that ends where a component of `path` ends. Both are canonical paths.
pub open spec fn starts_with(path: Seq<u8>, base: Seq<u8>) -> bool {
    &&& base.len() <= path.len()
    &&& path.subrange(0, base.len() as int) == base
    &&& (base.len() == path.len() || (base.len() > 0 && base.last() == SEPARATOR)
        || path[base.len() as int] == SEPARATOR)
}

/// Whether the root at `i` is the first of `roots` that `path` is or lies
/// below.
pub open spec fn covers(roots: Seq<Seq<u8>>, i: int, path: Seq<u8>) -> bool {
    &&& 0 <= i < roots.len()
    &&& starts_with(path, roots[i])
    &&& forall|j: int| 0 <= j < i ==> !starts_with(path, #[trigger] roots[j])
}

/// Whether `path` is one of `roots` or lies below one.
pub open spec fn covered(roots: Seq<Seq<u8>>, path: Seq<u8>) -> bool {
    exists|i: int| 0 <= i < roots.len() && starts_with(path, #[trigger] roots[i])
}

/// The paths of `paths` that are kept as roots when they are taken in their
/// order and each one that an earlier root covers is passed over.
pub open spec fn accepted(paths: Seq<Seq<u8>>) -> Seq<Seq<u8>>
    decreases paths.len(),
{
    if paths.len() == 0 {
        Seq::empty()
    } else {
        let earlier = accepted(paths.drop_last());
        if covered(earlier, paths.last()) {
            earlier
        } else {
            earlier.push(paths.last())
        }
    }
}

/// The paths of `paths` that are passed over when the roots are chosen, in
/// their order: each one that a root kept before it covers.
pub open spec fn rejected(paths: Seq<Seq<u8>>) -> Seq<Seq<u8>>
    decreases paths.len(),
{
    if paths.len() == 0 {
        Seq::empty()
    } else {
        let earlier = rejected(paths.drop_last());
        if covered(accepted(paths.drop_last()), paths.last()) {
            earlier.push(paths.last())
        } else {
            earlier
        }
    }
}

/// Where a path of `n` bytes goes into `sorted`: behind the last path that
/// is not longer.
pub open spec fn insert_place(sorted: Seq<Seq<u8>>, n: nat) -> int
    decreases sorted.len(),
{
    if sorted.len() == 0 || sorted.last().len() <= n {
        sorted.len() as int
    } else {
        insert_place(sorted.drop_last(), n)
    }
}

/// The paths in ascending order of their length in bytes; paths of one
/// length keep their order.
pub open spec fn sorted_by_length(paths: Seq<Seq<u8>>) -> Seq<Seq<u8>>
    decreases paths.len(),
{
    if paths.len() == 0 {
        Seq::empty()
    } else {
        let earlier = sorted_by_length(paths.drop_last());
        earlier.insert(insert_place(earlier, paths.last().len()), paths.last())
    }
}

/// Whether no path of `paths` is longer than a later one.
pub open spec fn ascending(paths: Seq<Seq<u8>>) -> bool {
    forall|i: int, j: int| 0 <= i <= j < paths.len() ==> paths[i].len() <= paths[j].len()
}

/// Whether `path` is `base` or lies below it.
pub fn path_starts_with(path: &Vec<u8>, base: &Vec<u8>) -> (within: bool)
    ensures
        within == starts_with(path@, base@),
{
    let n = base.len();
    if n > path.len() {
        return false;
    }
    let mut i: usize = 0;
    while i < n
        invariant
            n == base.len(),
            n <= path.len(),
            i <= n,
            path@.subrange(0, i as int) == base@.subrange(0, i as int),
        decreases n - i,
    {
        if path[i] != base[i] {
            proof {
                assert(path@.subrange(0, n as int)[i as int] != base@[i as int]);
            }
            return false;
        }
        proof {
            assert(path@.subrange(0, i + 1) == path@.subrange(0, i as int).push(path@[i as int]));
            assert(base@.subrange(0, i + 1) == base@.subrange(0, i as int).push(base@[i as int]));
        }
        i += 1;
    }
    proof {
        assert(base@.subrange(0, n as int) == base@);
    }
    n == path.len() || (n > 0 && base[n - 1] == SEPARATOR) || path[n] == SEPARATOR
}

/// The first of `roots` that `path` is or lies below.
pub fn find_prefix(roots: &Vec<Vec<u8>>, path: &Vec<u8>) -> (at: Option<usize>)
    ensures
        match at {
            Some(i) => covers(roots.deep_view(), i as int, path@),
            None => !covered(roots.deep_view(), path@),
        },
{
    let mut i: usize = 0;
    while i < roots.len()
        invariant
            i <= roots.len(),
            forall|j: int| 0 <= j < i ==> !starts_with(path@, #[trigger] roots.deep_view()[j]),
        decreases roots.len() - i,
    {
        proof {
            assert(roots@[i as int].deep_view() =~= roots@[i as int]@);
        }
        if path_starts_with(path, &roots[i]) {
            return Some(i);
        }
        i += 1;
    }
    None
}

/// The outcome of choosing the roots to scan.
#[derive(Debug)]
pub struct Scope {
    /// The roots to scan.
    pub roots: Vec<Vec<u8>>,
    /// The paths that were passed over, each of them covered by a root.
    pub skipped: Vec<Vec<u8>>,
}

/// What a [`Scope`] stands for in contracts.
pub struct ScopeView {
    pub roots: Seq<Seq<u8>>,
    pub skipped: Seq<Seq<u8>>,
}

impl View for Scope {
    type V = ScopeView;

    open spec fn view(&self) -> ScopeView {
        ScopeView { roots: self.roots.deep_view(), skipped: self.skipped.deep_view() }
    }
}

/// Takes the paths in their order, keeps each one that no path kept before
/// it covers, and notes the others as passed over.
pub fn select_roots(paths: &Vec<Vec<u8>>) -> (scope: Scope)
    ensures
        scope@.roots == accepted(paths.deep_view()),
        scope@.skipped == rejected(paths.deep_view()),
{
    let ghost all = paths.deep_view();
    let mut roots: Vec<Vec<u8>> = Vec::new();
    let mut skipped: Vec<Vec<u8>> = Vec::new();
    let mut i: usize = 0;
    while i < paths.len()
        invariant
            i <= paths.len(),
            all == paths.deep_view(),
            roots.deep_view() == accepted(all.take(i as int)),
            skipped.deep_view() == rejected(all.take(i as int)),
        decreases paths.len() - i,
    {
        let path = &paths[i];
        let copy = copy_path(path);
        proof {
            assert(path.deep_view() =~= path@);
            assert(copy.deep_view() =~= path@);
            assert(all.take(i + 1).drop_last() == all.take(i as int));
            assert(all.take(i + 1).last() == path@);
        }
        if find_prefix(&roots, path).is_none() {
            let ghost held = roots.deep_view();
            roots.push(copy);
            proof {
                assert(roots.deep_view() =~= held.push(path@));
            }
        } else {
            let ghost held = skipped.deep_view();
            skipped.push(copy);
            proof {
                assert(skipped.deep_view() =~= held.push(path@));
            }
        }
        i += 1;
    }
    proof {
        assert(all.take(i as int) == all);
    }
    Scope { roots, skipped }
}

/// Takes the paths in their order and keeps each one that no path kept
/// before it covers.
pub fn de_start_with(paths: &Vec<Vec<u8>>) -> (roots: Vec<Vec<u8>>)
    ensures
        roots.deep_view() == accepted(paths.deep_view()),
{
    select_roots(paths).roots
}

/// Puts the paths in ascending order of their length in bytes. Paths of one
/// length keep their order.
pub fn sort_by_length(paths: Vec<Vec<u8>>) -> (sorted: Vec<Vec<u8>>)
    ensures
        sorted.deep_view() == sorted_by_length(paths.deep_view()),
{
    let ghost all = paths.deep_view();
    let mut stack = reversed(paths);
    let mut sorted: Vec<Vec<u8>> = Vec::new();
    let ghost mut done: Seq<Seq<u8>> = Seq::empty();
    while stack.len() > 0
        invariant
            done.len() + stack.len() == all.len(),
            done == all.take(done.len() as int),
            forall|k: int|
                0 <= k < stack.len() ==> (#[trigger] stack@[k]).deep_view() == all[all.len() - 1 - k],
            sorted.deep_view() == sorted_by_length(done),
        decreases stack.len(),
    {
        let ghost top = stack@[stack.len() - 1];
        let path = stack.pop().unwrap();
        let ghost next = done.push(path.deep_view());
        let ghost held = sorted.deep_view();
        proof {
            assert(top.deep_view() == path.deep_view());
            assert(next.drop_last() == done);
            assert(next == all.take(next.len() as int));
        }
        let mut at: usize = sorted.len();
        proof {
            assert(held.take(at as int) == held);
        }
        while at > 0 && sorted[at - 1].len() > path.len()
            invariant
                at <= sorted.len(),
                held == sorted.deep_view(),
                insert_place(held, path.deep_view().len()) == insert_place(
                    held.take(at as int),
                    path.deep_view().len(),
                ),
            decreases at,
        {
            proof {
                assert(held.take(at as int).last().len() == sorted@[at - 1].len());
                assert(held.take(at as int).drop_last() == held.take(at - 1));
            }
            at -= 1;
        }
        proof {
            if at > 0 {
                assert(held.take(at as int).last().len() == sorted@[at - 1].len());
            }
            assert(insert_place(held, path.deep_view().len()) == at);
        }
        sorted.insert(at, path);
        proof {
            assert(sorted.deep_view() =~= held.insert(at as int, path.deep_view()));
            done = next;
        }
    }
    proof {
        assert(done == all);
    }
    sorted
}

/// A root as the user gave it, with its canonical path, or with `None`
/// where it cannot be resolved.
#[derive(Debug)]
pub struct Root {
    pub given: Vec<u8>,
    pub resolved: Option<Vec<u8>>,
}

/// What a [`Root`] stands for in contracts.
pub struct RootView {
    pub given: Seq<u8>,
    pub resolved: Option<Seq<u8>>,
}

impl View for Root {
    type V = RootView;

    open spec fn view(&self) -> RootView {
        RootView {
            given: self.given@,
            resolved: match self.resolved {
                Some(p) => Some(p@),
                None => None,
            },
        }
    }
}

impl DeepView for Root {
    type V = RootView;

    open spec fn deep_view(&self) -> RootView {
        self@
    }
}

/// Whether the root at `i` is the first of `roots` that cannot be resolved.
pub open spec fn first_unresolved(roots: Seq<RootView>, i: int) -> bool {
    &&& 0 <= i < roots.len()
    &&& roots[i].resolved is None
    &&& forall|j: int| 0 <= j < i ==> (#[trigger] roots[j]).resolved is Some
}

/// The canonical paths of roots that can all be resolved.
pub open spec fn canonical_paths(roots: Seq<RootView>) -> Seq<Seq<u8>> {
    roots.map_values(|r: RootView| r.resolved->0)
}

/// The roots to scan for the canonical paths `paths`: the shortest first,
/// none of them inside another.
pub open spec fn scan_scope(paths: Seq<Seq<u8>>) -> Seq<Seq<u8>> {
    accepted(sorted_by_length(paths))
}

/// Chooses the roots to scan. Where a root cannot be resolved, the scan is
/// off, and the error names the first such root as the user gave it.
/// Otherwise the canonical paths are taken from the shortest to the longest,
/// and each one is kept that no path kept before it covers; the others are
/// noted as passed over.
pub fn scan_roots(roots: Vec<Root>) -> (outcome: Result<Scope, ScanError>)
    ensures
        match outcome {
            Ok(scope) => {
                &&& forall|i: int|
                    0 <= i < roots.len() ==> (#[trigger] roots.deep_view()[i]).resolved is Some
                &&& scope@.roots == scan_scope(canonical_paths(roots.deep_view()))
                &&& scope@.skipped == rejected(
                    sorted_by_length(canonical_paths(roots.deep_view())),
                )
            },
            Err(e) => exists|i: int|
                #[trigger] first_unresolved(roots.deep_view(), i) && e@ == (
                ScanErrorView::PathResolution { path: roots.deep_view()[i].given }),
        },
{
    let ghost all = roots.deep_view();
    let mut stack = reversed(roots);
    let mut paths: Vec<Vec<u8>> = Vec::new();
    while stack.len() > 0
        invariant
            all == roots.deep_view(),
            paths.len() + stack.len() == all.len(),
            forall|k: int| 0 <= k < stack.len() ==> (#[trigger] stack@[k])@ == all[all.len() - 1 - k],
            forall|k: int|
                0 <= k < paths.len() ==> (#[trigger] all[k]).resolved == Some(paths.deep_view()[k]),
        decreases stack.len(),
    {
        let ghost n = paths.len() as int;
        let ghost held = paths.deep_view();
        let root = stack.pop().unwrap();
        proof {
            assert(root@ == all[n]);
        }
        let Root { given, resolved } = root;
        match resolved {
            Some(path) => {
                proof {
                    assert(path.deep_view() =~= path@);
                }
                paths.push(path);
                proof {
                    assert(paths.deep_view() =~= held.push(path@));
                }
            },
            None => {
                let e = ScanError::PathResolution { path: given };
                proof {
                    assert(first_unresolved(all, n));
                }
                return Err(e);
            },
        }
    }
    proof {
        assert(paths.deep_view() =~= canonical_paths(all));
    }
    let sorted = sort_by_length(paths);
    Ok(select_roots(&sorted))
}

/// A path is or lies below itself.
pub proof fn lemma_starts_with_itself(path: Seq<u8>)
    ensures
        starts_with(path, path),
{
    assert(path.subrange(0, path.len() as int) == path);
}

/// What lies below a path lies below whatever that path lies below.
pub proof fn lemma_starts_with_is_transitive(a: Seq<u8>, b: Seq<u8>, c: Seq<u8>)
    requires
        starts_with(b, a),
        starts_with(c, b),
    ensures
        starts_with(c, a),
{
    let n = a.len() as int;
    assert(c.subrange(0, n) =~= a) by {
        assert forall|i: int| 0 <= i < n implies c[i] == a[i] by {
            assert(b.subrange(0, n)[i] == a[i]);
            assert(c.subrange(0, b.len() as int)[i] == b[i]);
        }
    }
    if n < b.len() {
        assert(c.subrange(0, b.len() as int)[n] == b[n]);
    } else {
        assert(b.subrange(0, n) == b);
    }
}

/// Two paths that each are or lie below the other are the same path.
pub proof fn lemma_starts_with_both_ways(a: Seq<u8>, b: Seq<u8>)
    requires
        starts_with(a, b),
        starts_with(b, a),
    ensures
        a == b,
{
    assert(a.subrange(0, a.len() as int) == a);
}

/// The place that `insert_place` gives parts the paths that are not longer
/// than `n` from those that are.
pub proof fn lemma_insert_place_parts(sorted: Seq<Seq<u8>>, n: nat)
    requires
        ascending(sorted),
    ensures
        0 <= insert_place(sorted, n) <= sorted.len(),
        forall|i: int| 0 <= i < insert_place(sorted, n) ==> (#[trigger] sorted[i]).len() <= n,
        forall|i: int| insert_place(sorted, n) <= i < sorted.len() ==> (#[trigger] sorted[i]).len() > n,
    decreases sorted.len(),
{
    if sorted.len() > 0 && sorted.last().len() > n {
        let front = sorted.drop_last();
        assert forall|i: int, j: int| 0 <= i <= j < front.len() implies front[i].len()
            <= front[j].len() by {
            assert(front[i] == sorted[i] && front[j] == sorted[j]);
        }
        lemma_insert_place_parts(front, n);
        assert forall|i: int| 0 <= i < insert_place(sorted, n) implies (#[trigger] sorted[i]).len()
            <= n by {
            assert(front[i] == sorted[i]);
        }
        assert forall|i: int| insert_place(sorted, n) <= i < sorted.len() implies (
        #[trigger] sorted[i]).len() > n by {
            if i < front.len() {
                assert(front[i] == sorted[i]);
            }
        }
    }
}

/// Sorting leaves no path longer than a later one, and neither adds nor
/// loses a path.
pub proof fn lemma_sorted_by_length(paths: Seq<Seq<u8>>)
    ensures
        ascending(sorted_by_length(paths)),
        sorted_by_length(paths).to_multiset() == paths.to_multiset(),
        sorted_by_length(paths).len() == paths.len(),
    decreases paths.len(),
{
    broadcast use vstd::seq_lib::to_multiset_build, vstd::seq_lib::to_multiset_insert;

    if paths.len() > 0 {
        let earlier = sorted_by_length(paths.drop_last());
        let p = paths.last();
        let at = insert_place(earlier, p.len());
        lemma_sorted_by_length(paths.drop_last());
        lemma_insert_place_parts(earlier, p.len());
        let next = earlier.insert(at, p);
        assert forall|i: int, j: int| 0 <= i <= j < next.len() implies next[i].len()
            <= next[j].len() by {
            if i < at {
                assert(next[i] == earlier[i]);
            } else if i > at {
                assert(next[i] == earlier[i - 1]);
            }
            if j < at {
                assert(next[j] == earlier[j]);
            } else if j > at {
                assert(next[j] == earlier[j - 1]);
            }
        }
        assert(paths == paths.drop_last().push(p));
        assert(paths.to_multiset() == paths.drop_last().to_multiset().insert(p));
    } else {
        assert(paths =~= Seq::<Seq<u8>>::empty());
    }
}

/// Each path given is either kept as a root or passed over.
pub proof fn lemma_kept_or_passed_over(paths: Seq<Seq<u8>>)
    ensures
        accepted(paths).len() + rejected(paths).len() == paths.len(),
    decreases paths.len(),
{
    if paths.len() > 0 {
        lemma_kept_or_passed_over(paths.drop_last());
    }
}

/// Each root that is kept is one of the paths given.
pub proof fn lemma_accepted_are_given(paths: Seq<Seq<u8>>, i: int)
    requires
        0 <= i < accepted(paths).len(),
    ensures
        paths.contains(accepted(paths)[i]),
    decreases paths.len(),
{
    if paths.len() > 0 {
        let earlier = accepted(paths.drop_last());
        if i < earlier.len() {
            lemma_accepted_are_given(paths.drop_last(), i);
            let k = choose|k: int|
                0 <= k < paths.drop_last().len() && paths.drop_last()[k] == earlier[i];
            assert(paths[k] == earlier[i]);
        } else {
            assert(paths[paths.len() - 1] == accepted(paths)[i]);
        }
    }
}

/// Where no path is longer than a later one, no root that is kept is or
/// lies below another.
pub proof fn lemma_roots_are_apart(paths: Seq<Seq<u8>>, i: int, j: int)
    requires
        ascending(paths),
        0 <= i < accepted(paths).len(),
        0 <= j < accepted(paths).len(),
        i != j,
    ensures
        !starts_with(accepted(paths)[i], accepted(paths)[j]),
    decreases paths.len(),
{
    if paths.len() > 0 {
        let front = paths.drop_last();
        let earlier = accepted(front);
        let p = paths.last();
        assert forall|a: int, b: int| 0 <= a <= b < front.len() implies front[a].len()
            <= front[b].len() by {
            assert(front[a] == paths[a] && front[b] == paths[b]);
        }
        if i < earlier.len() && j < earlier.len() {
            lemma_roots_are_apart(front, i, j);
        } else if j < earlier.len() {
            // the root at i is the path that was taken in last
            assert(!covered(earlier, p));
        } else {
            // the root at j is the path that was taken in last
            assert(!covered(earlier, p));
            lemma_accepted_are_given(front, i);
            let k = choose|k: int| 0 <= k < front.len() && front[k] == earlier[i];
            assert(paths[k] == earlier[i]);
            assert(earlier[i].len() <= p.len());
            if starts_with(earlier[i], p) {
                assert(earlier[i].subrange(0, p.len() as int) == earlier[i]);
                lemma_starts_with_itself(p);
            }
        }
    }
}

/// Each path given is or lies below a root that is kept.
pub proof fn lemma_every_path_is_covered(paths: Seq<Seq<u8>>, k: int)
    requires
        0 <= k < paths.len(),
    ensures
        covered(accepted(paths), paths[k]),
    decreases paths.len(),
{
    let front = paths.drop_last();
    let earlier = accepted(front);
    let roots = accepted(paths);
    if k < paths.len() - 1 {
        lemma_every_path_is_covered(front, k);
        let i = choose|i: int| 0 <= i < earlier.len() && starts_with(front[k], #[trigger] earlier[i]);
        assert(roots[i] == earlier[i]);
    } else if covered(earlier, paths.last()) {
    } else {
        lemma_starts_with_itself(paths.last());
        assert(roots[roots.len() - 1] == paths.last());
    }
}

/// A root given together with one that it lies below is not scanned on its
/// own, and the scan still reaches it through a root that is kept.
pub proof fn lemma_nested_root_is_dropped(paths: Seq<Seq<u8>>, above: Seq<u8>, below: Seq<u8>)
    requires
        paths.contains(above),
        paths.contains(below),
        starts_with(below, above),
        below != above,
    ensures
        !scan_scope(paths).contains(below),
        covered(scan_scope(paths), below),
{
    broadcast use vstd::seq_lib::to_multiset_contains;

    let sorted = sorted_by_length(paths);
    let roots = accepted(sorted);
    lemma_sorted_by_length(paths);
    assert(sorted.contains(above) && sorted.contains(below)) by {
        assert(paths.to_multiset().count(above) > 0);
        assert(paths.to_multiset().count(below) > 0);
        assert(sorted.to_multiset().count(above) > 0);
        assert(sorted.to_multiset().count(below) > 0);
    }
    let a = choose|a: int| 0 <= a < sorted.len() && sorted[a] == above;
    let b = choose|b: int| 0 <= b < sorted.len() && sorted[b] == below;
    lemma_every_path_is_covered(sorted, a);
    lemma_every_path_is_covered(sorted, b);
    let i = choose|i: int| 0 <= i < roots.len() && starts_with(above, #[trigger] roots[i]);
    lemma_starts_with_is_transitive(roots[i], above, below);
    if roots.contains(below) {
        let j = choose|j: int| 0 <= j < roots.len() && roots[j] == below;
        if i != j {
            lemma_roots_are_apart(sorted, j, i);
        } else {
            lemma_starts_with_both_ways(above, below);
        }
    }
}

} // verus!
