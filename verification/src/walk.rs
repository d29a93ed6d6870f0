//! The walk over the scan roots, as a work list that the caller drives.
//!
//! The caller takes a path from the work list with [`Walker::next_path`],
//! looks at the file system, and reports what it found there with
//! [`Walker::visit`]. When the work list is empty, [`Walker::finish`] hands
//! out the records, each with the symbolic links that resolve to it.

use vstd::prelude::*;
use crate::error::{ScanError, ScanErrorView};
use crate::record::{reversed, same_path, FileView, LinkView, RegularFile, SymbolicFile};

verus! {

/// Size and identity of a file system node.
#[derive(Clone, Copy, Debug)]
pub struct Metadata {
    pub size: u64,
    pub dev: u64,
    pub ino: u64,
}

/// What the caller found at a path.
#[derive(Debug)]
pub enum Entry {
    /// A symbolic link, with the canonical path of its target, or `None`
    /// where the target cannot be resolved.
    Symlink { target: Option<Vec<u8>> },
    /// A directory, with the paths of its entries, or `None` where it cannot
    /// be listed.
    Directory { entries: Option<Vec<Vec<u8>>> },
    /// Any other node, with its metadata, or `None` where they cannot be read.
    File { metadata: Option<Metadata> },
}

/// What an [`Entry`] stands for in contracts.
pub enum EntryView {
    Symlink { target: Option<Seq<u8>> },
    Directory { entries: Option<Seq<Seq<u8>>> },
    File { metadata: Option<Metadata> },
}

impl View for Entry {
    type V = EntryView;

    open spec fn view(&self) -> EntryView {
        match *self {
            Entry::Symlink { target: Some(t) } => EntryView::Symlink { target: Some(t@) },
            Entry::Symlink { target: None } => EntryView::Symlink { target: None },
            Entry::Directory { entries: Some(e) } => EntryView::Directory {
                entries: Some(e.deep_view()),
            },
            Entry::Directory { entries: None } => EntryView::Directory { entries: None },
            Entry::File { metadata } => EntryView::File { metadata },
        }
    }
}

/// The state of a walk.
#[derive(Debug)]
pub struct Walker {
    /// The work list: paths still to visit. The last one is visited next.
    pub folders: Vec<Vec<u8>>,
    /// The records made so far.
    pub files: Vec<RegularFile>,
    /// The symbolic links met so far whose target could be resolved.
    pub symbolic_files: Vec<SymbolicFile>,
    /// The symbolic links met so far whose target could not be resolved.
    pub dangling: Vec<Vec<u8>>,
    /// The directories met so far that could not be listed.
    pub unlisted: Vec<Vec<u8>>,
}

/// What a [`Walker`] stands for in contracts.
pub struct WalkerView {
    pub folders: Seq<Seq<u8>>,
    pub files: Seq<FileView>,
    pub symbolic_files: Seq<LinkView>,
    pub dangling: Seq<Seq<u8>>,
    pub unlisted: Seq<Seq<u8>>,
}

impl View for Walker {
    type V = WalkerView;

    open spec fn view(&self) -> WalkerView {
        WalkerView {
            folders: self.folders.deep_view(),
            files: self.files.deep_view(),
            symbolic_files: self.symbolic_files.deep_view(),
            dangling: self.dangling.deep_view(),
            unlisted: self.unlisted.deep_view(),
        }
    }
}

/// The record made for a node at `path` with metadata `m`.
pub open spec fn new_record(path: Seq<u8>, m: Metadata) -> FileView {
    FileView {
        path,
        size: m.size,
        dev: m.dev,
        ino: m.ino,
        hard_links: Seq::empty(),
        symbolic_links: Seq::empty(),
    }
}

/// The state after the caller has reported `entry` for `path`, where that
/// does not end the scan.
pub open spec fn after_visit(w: WalkerView, path: Seq<u8>, entry: EntryView) -> WalkerView {
    match entry {
        EntryView::Symlink { target: Some(target) } => WalkerView {
            symbolic_files: w.symbolic_files.push(LinkView { path, target }),
            ..w
        },
        EntryView::Symlink { target: None } => WalkerView { dangling: w.dangling.push(path), ..w },
        EntryView::Directory { entries: Some(entries) } => WalkerView {
            folders: w.folders + entries,
            ..w
        },
        EntryView::Directory { entries: None } => WalkerView {
            unlisted: w.unlisted.push(path),
            ..w
        },
        EntryView::File { metadata: Some(m) } => WalkerView {
            files: w.files.push(new_record(path, m)),
            ..w
        },
        EntryView::File { metadata: None } => w,
    }
}

/// Whether `entry` is a node whose metadata could not be read.
pub open spec fn ends_scan(entry: EntryView) -> bool {
    entry == (EntryView::File { metadata: None })
}

/// Whether the file at `i` is the first of `files` whose path is `target`.
pub open spec fn claims(files: Seq<FileView>, i: int, target: Seq<u8>) -> bool {
    &&& 0 <= i < files.len()
    &&& files[i].path == target
    &&& forall|j: int| 0 <= j < i ==> files[j].path != target
}

/// Whether some file of `files` has the path `target`.
pub open spec fn in_scope(files: Seq<FileView>, target: Seq<u8>) -> bool {
    exists|i: int| 0 <= i < files.len() && #[trigger] files[i].path == target
}

/// The paths of the links that resolve to the file at `i`, which is the first
/// with their target as its path, in the order of the links.
pub open spec fn links_to(links: Seq<LinkView>, files: Seq<FileView>, i: int) -> Seq<Seq<u8>>
    decreases links.len(),
{
    if links.len() == 0 {
        Seq::empty()
    } else {
        let earlier = links_to(links.drop_last(), files, i);
        if claims(files, i, links.last().target) {
            earlier.push(links.last().path)
        } else {
            earlier
        }
    }
}

/// The links whose target is the path of no file, in their order.
pub open spec fn out_of_scope(links: Seq<LinkView>, files: Seq<FileView>) -> Seq<LinkView>
    decreases links.len(),
{
    if links.len() == 0 {
        Seq::empty()
    } else {
        let earlier = out_of_scope(links.drop_last(), files);
        if in_scope(files, links.last().target) {
            earlier
        } else {
            earlier.push(links.last())
        }
    }
}

/// The record `f` with `extra` added to its symbolic links.
pub open spec fn with_symbolic_links(f: FileView, extra: Seq<Seq<u8>>) -> FileView {
    FileView { symbolic_links: f.symbolic_links + extra, ..f }
}

/// The records `files`, each with the links of `links` that resolve to it.
pub open spec fn resolved(files: Seq<FileView>, links: Seq<LinkView>) -> Seq<FileView> {
    Seq::new(files.len(), |i: int| with_symbolic_links(files[i], links_to(links, files, i)))
}

/// The first place in `files` of a record with the path `target`.
fn find_by_path(files: &Vec<RegularFile>, target: &Vec<u8>) -> (at: Option<usize>)
    ensures
        match at {
            Some(i) => claims(files.deep_view(), i as int, target@),
            None => !in_scope(files.deep_view(), target@),
        },
{
    let mut i: usize = 0;
    while i < files.len()
        invariant
            i <= files.len(),
            forall|j: int| 0 <= j < i ==> files.deep_view()[j].path != target@,
        decreases files.len() - i,
    {
        if same_path(&files[i].path, target) {
            return Some(i);
        }
        i += 1;
    }
    None
}

/// Adds each symbolic link to the first record whose path is the link's
/// target, and hands back the links whose target is the path of no record.
pub fn resolve_symbolic_links(files: &mut Vec<RegularFile>, links: Vec<SymbolicFile>) -> (skipped:
    Vec<SymbolicFile>)
    ensures
        final(files).deep_view() == resolved(old(files).deep_view(), links.deep_view()),
        skipped.deep_view() == out_of_scope(links.deep_view(), old(files).deep_view()),
{
    let ghost before = files.deep_view();
    let ghost all = links.deep_view();
    let mut stack = reversed(links);
    let mut skipped: Vec<SymbolicFile> = Vec::new();
    let ghost mut done: Seq<LinkView> = Seq::empty();
    while stack.len() > 0
        invariant
            done.len() + stack.len() == all.len(),
            done == all.take(done.len() as int),
            forall|k: int| 0 <= k < stack.len() ==> (#[trigger] stack@[k])@ == all[all.len() - 1 - k],
            files.len() == before.len(),
            forall|i: int|
                0 <= i < files.len() ==> (#[trigger] files@[i])@ == with_symbolic_links(
                    before[i],
                    links_to(done, before, i),
                ),
            skipped.deep_view() == out_of_scope(done, before),
        decreases stack.len(),
    {
        let ghost top = stack@[stack.len() - 1];
        let link = stack.pop().unwrap();
        let ghost next = done.push(link@);
        proof {
            assert(top@ == link@);
            assert(next.drop_last() == done);
            assert(next == all.take(next.len() as int));
            assert forall|i: int| 0 <= i < files.len() implies #[trigger] files.deep_view()[i].path
                == before[i].path by {
                assert(files@[i]@.path == before[i].path);
            }
            assert(forall|t: Seq<u8>| in_scope(files.deep_view(), t) == in_scope(before, t)) by {
                assert forall|t: Seq<u8>| in_scope(files.deep_view(), t) implies in_scope(before, t) by {
                    let i = choose|i: int| 0 <= i < files.len() && #[trigger] files.deep_view()[i].path == t;
                    assert(before[i].path == t);
                }
                assert forall|t: Seq<u8>| in_scope(before, t) implies in_scope(files.deep_view(), t) by {
                    let i = choose|i: int| 0 <= i < before.len() && #[trigger] before[i].path == t;
                    assert(files.deep_view()[i].path == t);
                }
            }
        }
        match find_by_path(files, &link.target) {
            Some(i) => {
                let ghost held = files@;
                proof {
                    assert(files.deep_view()[i as int].path == before[i as int].path);
                    assert forall|j: int| 0 <= j < i implies before[j].path != link.target@ by {
                        assert(files.deep_view()[j].path == before[j].path);
                    }
                    assert(claims(before, i as int, link.target@));
                }
                let SymbolicFile { path, target } = link;
                files[i].symbolic_links.push(path);
                proof {
                    assert(in_scope(before, target@));
                    assert(files@[i as int].symbolic_links@ == held[i as int].symbolic_links@.push(path));
                    assert(path.deep_view() =~= path@);
                    assert(files@[i as int].path == held[i as int].path);
                    assert(files@[i as int].hard_links == held[i as int].hard_links);
                    assert(files@[i as int]@.symbolic_links =~= held[i as int]@.symbolic_links.push(
                        path@,
                    ));
                    assert forall|h: int| 0 <= h < files.len() implies (#[trigger] files@[h])@
                        == with_symbolic_links(before[h], links_to(next, before, h)) by {
                        if h != i {
                            assert(files@[h] == held[h]);
                            assert(!claims(before, h, target@));
                        } else {
                            assert(links_to(next, before, h) == links_to(done, before, h).push(
                                path@,
                            ));
                            assert(files@[h]@.symbolic_links =~= before[h].symbolic_links
                                + links_to(next, before, h));
                        }
                    }
                }
            },
            None => {
                proof {
                    assert(!in_scope(before, link.target@));
                    assert forall|h: int| 0 <= h < files.len() implies !claims(
                        before,
                        h,
                        link.target@,
                    ) by {
                        if claims(before, h, link.target@) {
                            assert(before[h].path == link.target@);
                        }
                    }
                }
                let ghost kept = skipped.deep_view();
                skipped.push(link);
                proof {
                    assert(skipped.deep_view() =~= kept.push(link@));
                }
            },
        }
        proof {
            done = next;
        }
    }
    proof {
        assert(done == all);
        assert(files.deep_view() =~= resolved(before, all));
    }
    skipped
}

impl Walker {
    /// A walk that has the scan roots on its work list and has found nothing.
    pub fn new(roots: Vec<Vec<u8>>) -> (w: Walker)
        ensures
            w@ == (WalkerView {
                folders: roots.deep_view(),
                files: Seq::empty(),
                symbolic_files: Seq::empty(),
                dangling: Seq::empty(),
                unlisted: Seq::empty(),
            }),
    {
        let w = Walker {
            folders: roots,
            files: Vec::new(),
            symbolic_files: Vec::new(),
            dangling: Vec::new(),
            unlisted: Vec::new(),
        };
        proof {
            assert(w.files.deep_view() =~= Seq::empty());
            assert(w.symbolic_files.deep_view() =~= Seq::empty());
            assert(w.dangling.deep_view() =~= Seq::empty());
            assert(w.unlisted.deep_view() =~= Seq::empty());
        }
        w
    }

    /// Takes the path to visit next from the work list: the one that was put
    /// there last. `None` when the work list is empty and the walk is over.
    pub fn next_path(&mut self) -> (path: Option<Vec<u8>>)
        ensures
            old(self)@.folders.len() == 0 ==> path is None && final(self)@ == old(self)@,
            old(self)@.folders.len() > 0 ==> path is Some && path->0@ == old(self)@.folders.last()
                && final(self)@ == (WalkerView {
                folders: old(self)@.folders.drop_last(),
                ..old(self)@
            }),
    {
        let ghost held = self.folders.deep_view();
        let path = self.folders.pop();
        proof {
            if path is Some {
                assert(path->0.deep_view() =~= path->0@);
                assert(self.folders.deep_view() =~= held.drop_last());
            } else {
                assert(self.folders.deep_view() =~= held);
            }
        }
        path
    }

    /// Takes in what the caller found at `path`.
    ///
    /// A symbolic link is kept for [`Walker::finish`] where its target was
    /// resolved, and noted as dangling where it was not. The entries of a
    /// directory go to the end of the work list in the order given; a
    /// directory that could not be listed is noted and passed over. Any other
    /// node becomes a record without links. Only a node whose metadata could
    /// not be read ends the scan: the walk is then left as it was.
    pub fn visit(&mut self, path: Vec<u8>, entry: Entry) -> (outcome: Result<(), ScanError>)
        ensures
            ends_scan(entry@) ==> outcome is Err && outcome->Err_0@ == (ScanErrorView::Metadata {
                path: path@,
            }),
            !ends_scan(entry@) ==> outcome is Ok,
            final(self)@ == after_visit(old(self)@, path@, entry@),
    {
        proof {
            assert(path.deep_view() =~= path@);
        }
        match entry {
            Entry::Symlink { target: Some(target) } => {
                let ghost held = self.symbolic_files.deep_view();
                let link = SymbolicFile { path, target };
                self.symbolic_files.push(link);
                proof {
                    assert(self.symbolic_files.deep_view() =~= held.push(link@));
                }
                Ok(())
            },
            Entry::Symlink { target: None } => {
                let ghost held = self.dangling.deep_view();
                self.dangling.push(path);
                proof {
                    assert(self.dangling.deep_view() =~= held.push(path@));
                }
                Ok(())
            },
            Entry::Directory { entries: Some(entries) } => {
                let ghost held = self.folders.deep_view();
                let mut entries = entries;
                let ghost added = entries.deep_view();
                self.folders.append(&mut entries);
                proof {
                    assert(self.folders.deep_view() =~= held + added);
                }
                Ok(())
            },
            Entry::Directory { entries: None } => {
                let ghost held = self.unlisted.deep_view();
                self.unlisted.push(path);
                proof {
                    assert(self.unlisted.deep_view() =~= held.push(path@));
                }
                Ok(())
            },
            Entry::File { metadata: Some(m) } => {
                let ghost held = self.files.deep_view();
                let file = RegularFile {
                    path,
                    size: m.size,
                    dev: m.dev,
                    ino: m.ino,
                    hard_links: Vec::new(),
                    symbolic_links: Vec::new(),
                };
                proof {
                    assert(file.hard_links.deep_view() =~= Seq::empty());
                    assert(file.symbolic_links.deep_view() =~= Seq::empty());
                }
                self.files.push(file);
                proof {
                    assert(self.files.deep_view() =~= held.push(file@));
                }
                Ok(())
            },
            Entry::File { metadata: None } => Err(ScanError::Metadata { path }),
        }
    }

    /// Ends the walk: hands out the records, each with the symbolic links that
    /// resolve to it, and the symbolic links that resolve to no record.
    pub fn finish(self) -> (found: (Vec<RegularFile>, Vec<SymbolicFile>))
        ensures
            found.0.deep_view() == resolved(self@.files, self@.symbolic_files),
            found.1.deep_view() == out_of_scope(self@.symbolic_files, self@.files),
    {
        let Walker { folders: _, files, symbolic_files, dangling: _, unlisted: _ } = self;
        let mut files = files;
        let skipped = resolve_symbolic_links(&mut files, symbolic_files);
        (files, skipped)
    }
}

} // verus!
