use dupfind::digest::{by_digest, hash_file, Hashed};
use dupfind::record::RegularFile;
use dupfind::scope::{scan_roots, Root};
use dupfind::size::candidates;
use dupfind::walk::{Entry, Metadata, Walker};

/// A node of a file system held in memory.
enum Node {
    Dir(Vec<&'static str>),
    File { ino: u64, content: &'static str },
    Link(&'static str),
}

struct Tree {
    nodes: Vec<(&'static str, Node)>,
}

impl Tree {
    fn node(&self, path: &[u8]) -> &Node {
        &self.nodes.iter().find(|(p, _)| p.as_bytes() == path).expect("a path of the tree").1
    }

    fn content(&self, path: &[u8]) -> Vec<u8> {
        match self.node(path) {
            Node::File { content, .. } => content.as_bytes().to_vec(),
            _ => panic!("not a file"),
        }
    }

    fn look(&self, path: &[u8]) -> Entry {
        match self.node(path) {
            Node::Dir(entries) => Entry::Directory {
                entries: Some(entries.iter().map(|e| e.as_bytes().to_vec()).collect()),
            },
            Node::File { ino, content } => Entry::File {
                metadata: Some(Metadata { size: content.len() as u64, dev: 1, ino: *ino }),
            },
            Node::Link(target) => Entry::Symlink {
                target: if self.nodes.iter().any(|(p, _)| p == target) {
                    Some(target.as_bytes().to_vec())
                } else {
                    None
                },
            },
        }
    }
}

fn walk(tree: &Tree, roots: &[&str]) -> (Vec<RegularFile>, usize) {
    let given = roots
        .iter()
        .map(|r| Root { given: r.as_bytes().to_vec(), resolved: Some(r.as_bytes().to_vec()) })
        .collect();
    let scope = scan_roots(given).unwrap();
    let mut walker = Walker::new(scope.roots);
    while let Some(path) = walker.next_path() {
        let entry = tree.look(&path);
        walker.visit(path, entry).unwrap();
    }
    let (files, skipped) = walker.finish();
    (files, skipped.len())
}

fn duplicates(tree: &Tree, roots: &[&str]) -> Vec<Vec<RegularFile>> {
    let (files, _) = walk(tree, roots);
    let buckets = candidates(files).buckets;
    let hashed: Vec<Vec<Hashed>> = buckets
        .into_iter()
        .map(|bucket| {
            bucket
                .into_iter()
                .map(|f| {
                    let content = tree.content(&f.path);
                    hash_file(f, Some(&content))
                })
                .collect()
        })
        .collect();
    by_digest(hashed)
}

fn sorted_paths(group: &[RegularFile]) -> Vec<String> {
    let mut paths: Vec<String> =
        group.iter().map(|f| String::from_utf8(f.path.clone()).unwrap()).collect();
    paths.sort();
    paths
}

fn all_names(file: &RegularFile) -> Vec<String> {
    let mut names = vec![String::from_utf8(file.path.clone()).unwrap()];
    for l in &file.hard_links {
        names.push(String::from_utf8(l.clone()).unwrap());
    }
    names.sort();
    names
}

#[test]
fn two_files_with_the_same_content_are_one_group() {
    let tree = Tree {
        nodes: vec![
            ("/data", Node::Dir(vec!["/data/a.txt", "/data/b.txt"])),
            ("/data/a.txt", Node::File { ino: 1, content: "hello" }),
            ("/data/b.txt", Node::File { ino: 2, content: "hello" }),
        ],
    };
    let groups = duplicates(&tree, &["/data"]);
    assert_eq!(groups.len(), 1);
    assert_eq!(sorted_paths(&groups[0]), vec!["/data/a.txt", "/data/b.txt"]);
}

#[test]
fn files_below_a_nested_root_are_found_once() {
    let tree = Tree {
        nodes: vec![
            ("/data", Node::Dir(vec!["/data/sub", "/data/a.txt"])),
            ("/data/sub", Node::Dir(vec!["/data/sub/b.txt", "/data/sub/c.txt"])),
            ("/data/a.txt", Node::File { ino: 1, content: "one" }),
            ("/data/sub/b.txt", Node::File { ino: 2, content: "two" }),
            ("/data/sub/c.txt", Node::File { ino: 3, content: "three" }),
        ],
    };
    let (files, _) = walk(&tree, &["/data", "/data/sub"]);
    let mut found = sorted_paths(&files);
    found.sort();
    assert_eq!(found, vec!["/data/a.txt", "/data/sub/b.txt", "/data/sub/c.txt"]);
    assert!(duplicates(&tree, &["/data", "/data/sub"]).is_empty());
}

#[test]
fn hard_links_are_one_record_and_no_group() {
    let tree = Tree {
        nodes: vec![
            ("/data", Node::Dir(vec!["/data/a.txt", "/data/link.txt"])),
            ("/data/a.txt", Node::File { ino: 7, content: "hello" }),
            ("/data/link.txt", Node::File { ino: 7, content: "hello" }),
        ],
    };
    let (files, _) = walk(&tree, &["/data"]);
    let mut files = files;
    let survivors = dupfind::links::group_hard_links(&mut files);
    assert_eq!(survivors.len(), 1);
    assert_eq!(all_names(&survivors[0]), vec!["/data/a.txt", "/data/link.txt"]);
    assert!(duplicates(&tree, &["/data"]).is_empty());
}

#[test]
fn hard_links_count_once_in_a_group() {
    let tree = Tree {
        nodes: vec![
            ("/data", Node::Dir(vec!["/data/a.txt", "/data/link.txt", "/data/copy.txt"])),
            ("/data/a.txt", Node::File { ino: 7, content: "hello" }),
            ("/data/link.txt", Node::File { ino: 7, content: "hello" }),
            ("/data/copy.txt", Node::File { ino: 8, content: "hello" }),
        ],
    };
    let groups = duplicates(&tree, &["/data"]);
    assert_eq!(groups.len(), 1);
    assert_eq!(groups[0].len(), 2);
    let mut names: Vec<String> = groups[0].iter().flat_map(|f| all_names(f)).collect();
    names.sort();
    assert_eq!(names, vec!["/data/a.txt", "/data/copy.txt", "/data/link.txt"]);
}

#[test]
fn equal_size_but_different_content_is_no_group() {
    let tree = Tree {
        nodes: vec![
            ("/data", Node::Dir(vec!["/data/a.txt", "/data/b.txt"])),
            ("/data/a.txt", Node::File { ino: 1, content: "x" }),
            ("/data/b.txt", Node::File { ino: 2, content: "y" }),
        ],
    };
    assert!(duplicates(&tree, &["/data"]).is_empty());
}

#[test]
fn a_symlink_is_an_alias_and_no_record() {
    let tree = Tree {
        nodes: vec![
            ("/data", Node::Dir(vec!["/data/a.txt", "/data/link", "/data/broken", "/data/out"])),
            ("/data/a.txt", Node::File { ino: 1, content: "hello" }),
            ("/data/link", Node::Link("/data/a.txt")),
            ("/data/broken", Node::Link("/nowhere")),
            ("/data/out", Node::Link("/data")),
        ],
    };
    let (files, skipped) = walk(&tree, &["/data"]);
    assert_eq!(files.len(), 1);
    assert_eq!(files[0].path, b"/data/a.txt".to_vec());
    assert_eq!(files[0].symbolic_links, vec![b"/data/link".to_vec()]);
    assert_eq!(skipped, 1);
}

#[test]
fn empty_files_are_in_no_group() {
    let tree = Tree {
        nodes: vec![
            ("/data", Node::Dir(vec!["/data/empty.txt", "/data/empty2.txt"])),
            ("/data/empty.txt", Node::File { ino: 1, content: "" }),
            ("/data/empty2.txt", Node::File { ino: 2, content: "" }),
        ],
    };
    assert!(duplicates(&tree, &["/data"]).is_empty());
}

#[test]
fn every_group_has_two_members_of_one_size_and_digest() {
    let tree = Tree {
        nodes: vec![
            ("/r", Node::Dir(vec!["/r/a", "/r/b", "/r/c", "/r/d", "/r/e", "/r/f", "/r/g", "/r/z"])),
            ("/r/a", Node::File { ino: 1, content: "same" }),
            ("/r/b", Node::File { ino: 2, content: "same" }),
            ("/r/c", Node::File { ino: 3, content: "diff" }),
            ("/r/d", Node::File { ino: 4, content: "longer content" }),
            ("/r/e", Node::File { ino: 5, content: "longer content" }),
            ("/r/f", Node::File { ino: 6, content: "same" }),
            ("/r/g", Node::File { ino: 7, content: "alone" }),
            ("/r/z", Node::File { ino: 8, content: "" }),
        ],
    };
    let groups = duplicates(&tree, &["/r"]);
    assert_eq!(groups.len(), 2);
    for group in &groups {
        assert!(group.len() >= 2);
        for f in group {
            assert!(f.size > 0);
            assert_eq!(f.size, group[0].size);
            assert_eq!(
                dupfind::digest::get_md5(&tree.content(&f.path)),
                dupfind::digest::get_md5(&tree.content(&group[0].path))
            );
        }
    }
    let mut found: Vec<Vec<String>> = groups.iter().map(|g| sorted_paths(g)).collect();
    found.sort();
    assert_eq!(found, vec![vec!["/r/a", "/r/b", "/r/f"], vec!["/r/d", "/r/e"]]);
}
