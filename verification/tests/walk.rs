use dupfind::record::{RegularFile, SymbolicFile};
use dupfind::error::ScanError;
use dupfind::walk::{resolve_symbolic_links, Entry, Metadata, Walker};

fn wp(s: &str) -> Vec<u8> {
    s.as_bytes().to_vec()
}

fn wps(items: &[&str]) -> Vec<Vec<u8>> {
    items.iter().map(|s| wp(s)).collect()
}

fn plain(path: &str, size: u64, dev: u64, ino: u64) -> RegularFile {
    RegularFile {
        path: wp(path),
        size,
        dev,
        ino,
        hard_links: Vec::new(),
        symbolic_links: Vec::new(),
    }
}

fn link(path: &str, target: &str) -> SymbolicFile {
    SymbolicFile { path: wp(path), target: wp(target) }
}

#[test]
fn a_new_walk_has_the_roots_on_its_work_list() {
    let w = Walker::new(wps(&["/a", "/b"]));
    assert_eq!(w.folders, wps(&["/a", "/b"]));
    assert!(w.files.is_empty());
    assert!(w.symbolic_files.is_empty());
    assert!(w.dangling.is_empty());
    assert!(w.unlisted.is_empty());
}

#[test]
fn the_path_put_last_is_visited_next() {
    let mut w = Walker::new(wps(&["/a", "/b"]));
    assert_eq!(w.next_path(), Some(wp("/b")));
    assert_eq!(w.next_path(), Some(wp("/a")));
    assert_eq!(w.next_path(), None);
    assert_eq!(w.next_path(), None);
}

#[test]
fn the_entries_of_a_directory_are_visited_before_its_siblings() {
    let mut w = Walker::new(wps(&["/a", "/b"]));
    let path = w.next_path().unwrap();
    let outcome = w.visit(path, Entry::Directory { entries: Some(wps(&["/b/x", "/b/y"])) });
    assert!(outcome.is_ok());
    assert_eq!(w.folders, wps(&["/a", "/b/x", "/b/y"]));
    assert_eq!(w.next_path(), Some(wp("/b/y")));
}

#[test]
fn a_directory_that_cannot_be_listed_is_passed_over() {
    let mut w = Walker::new(wps(&["/a"]));
    let path = w.next_path().unwrap();
    assert!(w.visit(path, Entry::Directory { entries: None }).is_ok());
    assert!(w.folders.is_empty());
    assert!(w.files.is_empty());
    assert_eq!(w.unlisted, wps(&["/a"]));
}

#[test]
fn a_file_becomes_a_record_without_links() {
    let mut w = Walker::new(Vec::new());
    let m = Metadata { size: 5, dev: 1, ino: 42 };
    assert!(w.visit(wp("/data/a.txt"), Entry::File { metadata: Some(m) }).is_ok());
    assert_eq!(w.files.len(), 1);
    assert_eq!(w.files[0].path, wp("/data/a.txt"));
    assert_eq!(w.files[0].size, 5);
    assert_eq!(w.files[0].dev, 1);
    assert_eq!(w.files[0].ino, 42);
    assert!(w.files[0].hard_links.is_empty());
    assert!(w.files[0].symbolic_links.is_empty());
}

#[test]
fn unreadable_metadata_end_the_scan() {
    let mut w = Walker::new(wps(&["/other"]));
    let outcome = w.visit(wp("/data/a.txt"), Entry::File { metadata: None });
    match outcome {
        Err(ScanError::Metadata { path }) => assert_eq!(path, wp("/data/a.txt")),
        other => panic!("unexpected outcome: {:?}", other),
    }
    assert_eq!(w.folders, wps(&["/other"]));
    assert!(w.files.is_empty());
}

#[test]
fn a_dangling_link_is_noted_and_dropped() {
    let mut w = Walker::new(Vec::new());
    assert!(w.visit(wp("/data/broken"), Entry::Symlink { target: None }).is_ok());
    assert!(w.symbolic_files.is_empty());
    assert_eq!(w.dangling, wps(&["/data/broken"]));
    let (files, skipped) = w.finish();
    assert!(files.is_empty());
    assert!(skipped.is_empty());
}

#[test]
fn a_resolved_link_waits_for_the_end_of_the_walk() {
    let mut w = Walker::new(Vec::new());
    let target = Some(wp("/data/a.txt"));
    assert!(w.visit(wp("/data/link"), Entry::Symlink { target }).is_ok());
    assert_eq!(w.symbolic_files.len(), 1);
    assert_eq!(w.symbolic_files[0].path, wp("/data/link"));
    assert_eq!(w.symbolic_files[0].target, wp("/data/a.txt"));
    assert!(w.files.is_empty());
}

#[test]
fn symlink_becomes_an_alias_of_its_target() {
    let mut w = Walker::new(wps(&["/data"]));
    let root = w.next_path().unwrap();
    w.visit(root, Entry::Directory { entries: Some(wps(&["/data/a.txt", "/data/link"])) }).unwrap();
    let first = w.next_path().unwrap();
    assert_eq!(first, wp("/data/link"));
    w.visit(first, Entry::Symlink { target: Some(wp("/data/a.txt")) }).unwrap();
    let second = w.next_path().unwrap();
    assert_eq!(second, wp("/data/a.txt"));
    w.visit(second, Entry::File { metadata: Some(Metadata { size: 5, dev: 1, ino: 7 }) }).unwrap();
    assert_eq!(w.next_path(), None);
    let (files, skipped) = w.finish();
    assert_eq!(files.len(), 1);
    assert_eq!(files[0].path, wp("/data/a.txt"));
    assert_eq!(files[0].symbolic_links, wps(&["/data/link"]));
    assert!(skipped.is_empty());
}

#[test]
fn links_are_added_in_their_order() {
    let mut files = vec![plain("/a", 1, 1, 1), plain("/b", 1, 1, 2)];
    let links = vec![link("/l1", "/b"), link("/l2", "/a"), link("/l3", "/b")];
    let skipped = resolve_symbolic_links(&mut files, links);
    assert!(skipped.is_empty());
    assert_eq!(files[0].symbolic_links, wps(&["/l2"]));
    assert_eq!(files[1].symbolic_links, wps(&["/l1", "/l3"]));
}

#[test]
fn links_come_behind_the_links_that_a_record_has() {
    let mut first = plain("/a", 1, 1, 1);
    first.symbolic_links.push(wp("/old"));
    let mut files = vec![first];
    let skipped = resolve_symbolic_links(&mut files, vec![link("/new", "/a")]);
    assert!(skipped.is_empty());
    assert_eq!(files[0].symbolic_links, wps(&["/old", "/new"]));
}

#[test]
fn a_link_out_of_scope_is_handed_back() {
    let mut files = vec![plain("/data/a", 1, 1, 1)];
    let links = vec![link("/data/l1", "/elsewhere/x"), link("/data/l2", "/data/a"), link("/data/l3", "/data")];
    let skipped = resolve_symbolic_links(&mut files, links);
    assert_eq!(skipped.len(), 2);
    assert_eq!(skipped[0].path, wp("/data/l1"));
    assert_eq!(skipped[0].target, wp("/elsewhere/x"));
    assert_eq!(skipped[1].path, wp("/data/l3"));
    assert_eq!(files[0].symbolic_links, wps(&["/data/l2"]));
}

#[test]
fn a_link_is_not_matched_against_hard_links() {
    let mut file = plain("/data/a", 1, 1, 1);
    file.hard_links.push(wp("/data/b"));
    let mut files = vec![file];
    let skipped = resolve_symbolic_links(&mut files, vec![link("/data/l", "/data/b")]);
    assert_eq!(skipped.len(), 1);
    assert!(files[0].symbolic_links.is_empty());
}

#[test]
fn the_first_record_with_the_path_gets_the_link() {
    let mut files = vec![plain("/a", 1, 1, 1), plain("/a", 2, 1, 2)];
    let skipped = resolve_symbolic_links(&mut files, vec![link("/l", "/a")]);
    assert!(skipped.is_empty());
    assert_eq!(files[0].symbolic_links, wps(&["/l"]));
    assert!(files[1].symbolic_links.is_empty());
}
