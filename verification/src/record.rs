//! The records that the stages of the search hand to one another.

use vstd::prelude::*;

verus! {

/// What a [`RegularFile`] stands for in contracts.
pub struct FileView {
    pub path: Seq<u8>,
    pub size: u64,
    pub dev: u64,
    pub ino: u64,
    pub hard_links: Seq<Seq<u8>>,
    pub symbolic_links: Seq<Seq<u8>>,
}

/// One inode found during the walk. Paths are held as the bytes of the
/// canonical path.
#[derive(Debug)]
pub struct RegularFile {
    /// The path under which the inode was first met.
    pub path: Vec<u8>,
    pub size: u64,
    pub dev: u64,
    pub ino: u64,
    /// Further paths of the same inode.
    pub hard_links: Vec<Vec<u8>>,
    /// Paths of symbolic links that resolve to `path`.
    pub symbolic_links: Vec<Vec<u8>>,
}

/// A symbolic link met during the walk, with the canonical path it resolves to.
#[derive(Debug)]
pub struct SymbolicFile {
    pub path: Vec<u8>,
    pub target: Vec<u8>,
}

/// What a [`SymbolicFile`] stands for in contracts.
pub struct LinkView {
    pub path: Seq<u8>,
    pub target: Seq<u8>,
}

impl View for RegularFile {
    type V = FileView;

    open spec fn view(&self) -> FileView {
        FileView {
            path: self.path@,
            size: self.size,
            dev: self.dev,
            ino: self.ino,
            hard_links: self.hard_links.deep_view(),
            symbolic_links: self.symbolic_links.deep_view(),
        }
    }
}

impl DeepView for RegularFile {
    type V = FileView;

    open spec fn deep_view(&self) -> FileView {
        self@
    }
}

impl View for SymbolicFile {
    type V = LinkView;

    open spec fn view(&self) -> LinkView {
        LinkView { path: self.path@, target: self.target@ }
    }
}

impl DeepView for SymbolicFile {
    type V = LinkView;

    open spec fn deep_view(&self) -> LinkView {
        self@
    }
}

/// The paths of `files`, in their order.
pub open spec fn paths_of(files: Seq<FileView>) -> Seq<Seq<u8>> {
    files.map_values(|f: FileView| f.path)
}

/// Every path under which the file of the record `f` is known: its path,
/// then its hard links, then its symbolic links.
pub open spec fn all_names(f: FileView) -> Seq<Seq<u8>> {
    seq![f.path] + f.hard_links + f.symbolic_links
}

/// Whether two paths are the same sequence of bytes.
pub fn same_path(a: &Vec<u8>, b: &Vec<u8>) -> (same: bool)
    ensures
        same == (a@ == b@),
{
    if a.len() != b.len() {
        return false;
    }
    let mut i: usize = 0;
    while i < a.len()
        invariant
            a.len() == b.len(),
            i <= a.len(),
            a@.take(i as int) == b@.take(i as int),
        decreases a.len() - i,
    {
        if a[i] != b[i] {
            return false;
        }
        assert(a@.take(i + 1) == a@.take(i as int).push(a@[i as int]));
        assert(b@.take(i + 1) == b@.take(i as int).push(b@[i as int]));
        i += 1;
    }
    assert(a@.take(i as int) == a@);
    assert(b@.take(i as int) == b@);
    true
}

/// A copy of a path.
pub fn copy_path(p: &Vec<u8>) -> (copy: Vec<u8>)
    ensures
        copy@ == p@,
{
    let copy = p.clone();
    assert(copy@ =~= p@);
    copy
}

/// Adds copies of the paths of `more` to `all`, in their order.
fn add_paths(all: &mut Vec<Vec<u8>>, more: &Vec<Vec<u8>>)
    ensures
        final(all).deep_view() == old(all).deep_view() + more.deep_view(),
{
    let ghost held = all.deep_view();
    let mut i: usize = 0;
    while i < more.len()
        invariant
            i <= more.len(),
            all.deep_view() == held + more.deep_view().take(i as int),
        decreases more.len() - i,
    {
        let ghost so_far = all.deep_view();
        let copy = copy_path(&more[i]);
        all.push(copy);
        proof {
            assert(copy.deep_view() =~= more@[i as int]@);
            assert(more@[i as int].deep_view() =~= more@[i as int]@);
            assert(all.deep_view() =~= so_far.push(more.deep_view()[i as int]));
            assert(more.deep_view().take(i + 1) =~= more.deep_view().take(i as int).push(
                more.deep_view()[i as int],
            ));
            assert(all.deep_view() =~= held + more.deep_view().take(i + 1));
        }
        i += 1;
    }
    proof {
        assert(more.deep_view().take(i as int) =~= more.deep_view());
    }
}

impl RegularFile {
    /// Every path under which the file is known: its path, then its hard
    /// links, then its symbolic links.
    pub fn names(&self) -> (all: Vec<Vec<u8>>)
        ensures
            all.deep_view() == all_names(self@),
    {
        let mut all: Vec<Vec<u8>> = Vec::new();
        let path = copy_path(&self.path);
        all.push(path);
        proof {
            assert(path.deep_view() =~= self.path@);
            assert(all.deep_view() =~= seq![self@.path]);
        }
        add_paths(&mut all, &self.hard_links);
        add_paths(&mut all, &self.symbolic_links);
        all
    }
}

/// Hands the items back in the opposite order.
pub fn reversed<T>(items: Vec<T>) -> (back: Vec<T>)
    ensures
        back@ == items@.reverse(),
{
    let mut items = items;
    let ghost all = items@;
    let mut back: Vec<T> = Vec::new();
    while items.len() > 0
        invariant
            items@ == all.take(items.len() as int),
            back.len() + items.len() == all.len(),
            forall|k: int| 0 <= k < back.len() ==> back@[k] == all[all.len() - 1 - k],
        decreases items.len(),
    {
        let x = items.pop().unwrap();
        back.push(x);
    }
    assert(back@ =~= all.reverse());
    back
}

} // verus!
