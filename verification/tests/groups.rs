use dupfind::digest::{by_digest, get_md5, hash_file, number_of, Hashed};
use dupfind::group::{count_records, keep_crowded, partition};
use dupfind::links::{group_hard_links, without_empty};
use dupfind::record::{copy_path, reversed, same_path, RegularFile};
use dupfind::size::{by_size, candidates};

fn gp(s: &str) -> Vec<u8> {
    s.as_bytes().to_vec()
}

fn gps(items: &[&str]) -> Vec<Vec<u8>> {
    items.iter().map(|s| gp(s)).collect()
}

fn rec(path: &str, size: u64, dev: u64, ino: u64) -> RegularFile {
    RegularFile {
        path: gp(path),
        size,
        dev,
        ino,
        hard_links: Vec::new(),
        symbolic_links: Vec::new(),
    }
}

fn paths(files: &[RegularFile]) -> Vec<Vec<u8>> {
    files.iter().map(|f| f.path.clone()).collect()
}

fn group_paths(groups: &[Vec<RegularFile>]) -> Vec<Vec<Vec<u8>>> {
    groups.iter().map(|g| paths(g)).collect()
}

fn with(file: RegularFile, digest: Option<u128>) -> Hashed {
    Hashed { file, digest }
}

#[test]
fn same_path_compares_bytes() {
    assert!(same_path(&gp("/a/b"), &gp("/a/b")));
    assert!(!same_path(&gp("/a/b"), &gp("/a/c")));
    assert!(!same_path(&gp("/a/b"), &gp("/a/bc")));
    assert!(same_path(&gp(""), &gp("")));
}

#[test]
fn copy_path_copies() {
    assert_eq!(copy_path(&gp("/a/b")), gp("/a/b"));
}

#[test]
fn reversed_turns_the_order_round() {
    assert_eq!(reversed(vec![1u8, 2, 3]), vec![3u8, 2, 1]);
    assert_eq!(reversed(Vec::<u8>::new()), Vec::<u8>::new());
}

#[test]
fn partition_orders_classes_by_first_occurrence() {
    let entries = vec![
        (7u128, rec("/a", 7, 1, 1)),
        (3u128, rec("/b", 3, 1, 2)),
        (7u128, rec("/c", 7, 1, 3)),
        (9u128, rec("/d", 9, 1, 4)),
        (3u128, rec("/e", 3, 1, 5)),
        (7u128, rec("/f", 7, 1, 6)),
    ];
    let groups = partition(entries);
    assert_eq!(
        group_paths(&groups),
        vec![gps(&["/a", "/c", "/f"]), gps(&["/b", "/e"]), gps(&["/d"])]
    );
}

#[test]
fn partition_of_nothing_is_nothing() {
    assert!(partition(Vec::new()).is_empty());
}

#[test]
fn keep_crowded_drops_groups_of_one() {
    let groups = vec![
        vec![rec("/a", 1, 1, 1)],
        vec![rec("/b", 2, 1, 2), rec("/c", 2, 1, 3)],
        Vec::new(),
        vec![rec("/d", 3, 1, 4), rec("/e", 3, 1, 5), rec("/f", 3, 1, 6)],
    ];
    let kept = keep_crowded(groups);
    assert_eq!(group_paths(&kept), vec![gps(&["/b", "/c"]), gps(&["/d", "/e", "/f"])]);
}

#[test]
fn without_empty_drops_files_of_size_zero() {
    let kept = without_empty(vec![rec("/a", 0, 1, 1), rec("/b", 1, 1, 2), rec("/c", 0, 1, 3), rec("/d", 9, 1, 4)]);
    assert_eq!(paths(&kept), gps(&["/b", "/d"]));
}

#[test]
fn hard_links_become_one_record() {
    let mut files = vec![rec("/data/a.txt", 5, 1, 10), rec("/data/link.txt", 5, 1, 10)];
    let survivors = group_hard_links(&mut files);
    assert!(files.is_empty());
    assert_eq!(survivors.len(), 1);
    let mut all = vec![survivors[0].path.clone()];
    all.extend(survivors[0].hard_links.iter().cloned());
    all.sort();
    assert_eq!(all, gps(&["/data/a.txt", "/data/link.txt"]));
}

#[test]
fn the_first_record_of_an_inode_survives() {
    let mut files = vec![
        rec("/a", 5, 1, 10),
        rec("/b", 6, 1, 11),
        rec("/c", 5, 1, 10),
        rec("/d", 5, 2, 10),
        rec("/e", 5, 1, 10),
        rec("/f", 6, 1, 11),
    ];
    let survivors = group_hard_links(&mut files);
    assert_eq!(paths(&survivors), gps(&["/a", "/b", "/d"]));
    assert_eq!(survivors[0].hard_links, gps(&["/c", "/e"]));
    assert_eq!(survivors[1].hard_links, gps(&["/f"]));
    assert!(survivors[2].hard_links.is_empty());
}

#[test]
fn the_survivor_keeps_its_own_links() {
    let mut first = rec("/a", 5, 1, 10);
    first.hard_links.push(gp("/old"));
    first.symbolic_links.push(gp("/sym"));
    let mut files = vec![first, rec("/b", 5, 1, 10)];
    let survivors = group_hard_links(&mut files);
    assert_eq!(survivors.len(), 1);
    assert_eq!(survivors[0].hard_links, gps(&["/old", "/b"]));
    assert_eq!(survivors[0].symbolic_links, gps(&["/sym"]));
}

#[test]
fn device_and_inode_both_count() {
    // Same inode number on two devices, and two numbers that differ only in the upper bits.
    let mut files = vec![
        rec("/a", 5, 1, 2),
        rec("/b", 5, 2, 1),
        rec("/c", 5, 0, u64::MAX),
        rec("/d", 5, u64::MAX, 0),
        rec("/e", 5, u64::MAX, u64::MAX),
    ];
    let survivors = group_hard_links(&mut files);
    assert_eq!(survivors.len(), 5);
}

#[test]
fn group_hard_links_of_nothing_is_nothing() {
    let mut files: Vec<RegularFile> = Vec::new();
    assert!(group_hard_links(&mut files).is_empty());
}

#[test]
fn collapsing_twice_changes_nothing() {
    let mut files = vec![
        rec("/a", 5, 1, 10),
        rec("/b", 6, 1, 11),
        rec("/c", 5, 1, 10),
        rec("/d", 5, 2, 10),
    ];
    let mut once = group_hard_links(&mut files);
    let shape: Vec<(Vec<u8>, u64, u64, Vec<Vec<u8>>)> =
        once.iter().map(|f| (f.path.clone(), f.dev, f.ino, f.hard_links.clone())).collect();
    let twice = group_hard_links(&mut once);
    let again: Vec<(Vec<u8>, u64, u64, Vec<Vec<u8>>)> =
        twice.iter().map(|f| (f.path.clone(), f.dev, f.ino, f.hard_links.clone())).collect();
    assert_eq!(shape, again);
    for (i, a) in twice.iter().enumerate() {
        for (j, b) in twice.iter().enumerate() {
            if i != j {
                assert!(a.dev != b.dev || a.ino != b.ino);
            }
        }
    }
}

#[test]
fn by_size_keeps_sizes_that_two_files_share() {
    let mut files = vec![
        rec("/a", 5, 1, 1),
        rec("/b", 6, 1, 2),
        rec("/c", 5, 1, 3),
        rec("/d", 7, 1, 4),
        rec("/e", 7, 1, 5),
        rec("/f", 5, 1, 6),
    ];
    let buckets = by_size(&mut files);
    assert!(files.is_empty());
    assert_eq!(group_paths(&buckets), vec![gps(&["/a", "/c", "/f"]), gps(&["/d", "/e"])]);
}

#[test]
fn hard_links_alone_are_no_candidates() {
    let mut files = vec![rec("/data/a.txt", 5, 1, 10), rec("/data/link.txt", 5, 1, 10)];
    let buckets = by_size(&mut files);
    assert!(buckets.is_empty());
}

#[test]
fn empty_files_are_no_candidates() {
    let found = candidates(vec![rec("/data/empty.txt", 0, 1, 1), rec("/data/empty2.txt", 0, 1, 2)]);
    assert!(found.buckets.is_empty());
    assert_eq!(found.empty, 2);
    assert_eq!(found.hard_links, 0);
    assert_eq!(found.unique_size, 0);
}

#[test]
fn candidates_leave_out_empty_files_and_merge_hard_links() {
    let found = candidates(vec![
        rec("/z1", 0, 1, 1),
        rec("/a", 4, 1, 2),
        rec("/b", 4, 1, 3),
        rec("/z2", 0, 1, 4),
        rec("/a2", 4, 1, 2),
        rec("/c", 9, 1, 5),
    ]);
    assert_eq!(group_paths(&found.buckets), vec![gps(&["/a", "/b"])]);
    assert_eq!(found.buckets[0][0].hard_links, gps(&["/a2"]));
    assert_eq!(found.empty, 2);
    assert_eq!(found.hard_links, 1);
    assert_eq!(found.unique_size, 1);
}

#[test]
fn md5_of_known_inputs() {
    assert_eq!(get_md5(&Vec::new()), 0xd41d8cd98f00b204e9800998ecf8427e_u128);
    assert_eq!(get_md5(&gp("hello")), 0x5d41402abc4b2a76b9719d911017c592_u128);
    assert_eq!(get_md5(&gp("abc")), 0x900150983cd24fb0d6963f7d28e17f72_u128);
}

#[test]
fn equal_contents_have_equal_digests() {
    assert_eq!(get_md5(&gp("some content")), get_md5(&gp("some content")));
    assert_ne!(get_md5(&gp("x")), get_md5(&gp("y")));
}

#[test]
fn number_of_reads_the_first_byte_as_the_highest() {
    let mut bytes = [0u8; 16];
    bytes[15] = 1;
    assert_eq!(number_of(&bytes), 1);
    bytes[0] = 0x80;
    assert_eq!(number_of(&bytes), (1u128 << 127) + 1);
    let counting: [u8; 16] = [0, 1, 2, 3, 4, 5, 6, 7, 8, 9, 10, 11, 12, 13, 14, 15];
    assert_eq!(number_of(&counting), 0x000102030405060708090a0b0c0d0e0f_u128);
    assert_eq!(number_of(&[0xff; 16]), u128::MAX);
}

#[test]
fn hash_file_attaches_the_digest_of_the_content() {
    let content = gp("hello");
    let hashed = hash_file(rec("/a", 5, 1, 1), Some(&content));
    assert_eq!(hashed.file.path, gp("/a"));
    assert_eq!(hashed.digest, Some(0x5d41402abc4b2a76b9719d911017c592_u128));
    let unread = hash_file(rec("/b", 5, 1, 2), None);
    assert_eq!(unread.file.path, gp("/b"));
    assert_eq!(unread.digest, None);
}

#[test]
fn by_digest_groups_within_each_bucket() {
    let buckets = vec![
        vec![
            with(rec("/a", 5, 1, 1), Some(11)),
            with(rec("/b", 5, 1, 2), Some(22)),
            with(rec("/c", 5, 1, 3), Some(11)),
            with(rec("/d", 5, 1, 4), Some(22)),
            with(rec("/e", 5, 1, 5), Some(33)),
        ],
        vec![with(rec("/f", 6, 1, 6), Some(11)), with(rec("/g", 6, 1, 7), Some(44))],
        vec![with(rec("/h", 7, 1, 8), Some(55)), with(rec("/i", 7, 1, 9), Some(55))],
    ];
    let groups = by_digest(buckets);
    assert_eq!(
        group_paths(&groups),
        vec![gps(&["/a", "/c"]), gps(&["/b", "/d"]), gps(&["/h", "/i"])]
    );
}

#[test]
fn a_file_that_could_not_be_read_is_in_no_group() {
    let buckets = vec![vec![
        with(rec("/a", 5, 1, 1), Some(11)),
        with(rec("/b", 5, 1, 2), None),
        with(rec("/c", 5, 1, 3), None),
        with(rec("/d", 5, 1, 4), Some(11)),
    ]];
    let groups = by_digest(buckets);
    assert_eq!(group_paths(&groups), vec![gps(&["/a", "/d"])]);
    let alone = by_digest(vec![vec![with(rec("/a", 5, 1, 1), Some(11)), with(rec("/b", 5, 1, 2), None)]]);
    assert!(alone.is_empty());
}

#[test]
fn by_digest_of_nothing_is_nothing() {
    assert!(by_digest(Vec::new()).is_empty());
    assert!(by_digest(vec![Vec::new()]).is_empty());
}

#[test]
fn names_lists_path_hard_links_and_symbolic_links() {
    let mut file = rec("/a", 5, 1, 1);
    file.hard_links.push(gp("/h1"));
    file.hard_links.push(gp("/h2"));
    file.symbolic_links.push(gp("/s1"));
    assert_eq!(file.names(), gps(&["/a", "/h1", "/h2", "/s1"]));
    assert_eq!(rec("/b", 5, 1, 2).names(), gps(&["/b"]));
}

#[test]
fn count_records_adds_up_the_groups() {
    let groups = vec![
        vec![rec("/a", 1, 1, 1)],
        Vec::new(),
        vec![rec("/b", 2, 1, 2), rec("/c", 2, 1, 3)],
    ];
    assert_eq!(count_records(&groups), Some(3));
    assert_eq!(count_records(&Vec::new()), Some(0));
}

#[test]
fn every_record_is_in_one_class() {
    let entries = vec![
        (7u128, rec("/a", 7, 1, 1)),
        (3u128, rec("/b", 3, 1, 2)),
        (7u128, rec("/c", 7, 1, 3)),
        (9u128, rec("/d", 9, 1, 4)),
    ];
    let groups = partition(entries);
    assert_eq!(count_records(&groups), Some(4));
}

#[test]
fn no_path_is_lost_among_hard_links() {
    let mut files = vec![
        rec("/a", 5, 1, 10),
        rec("/b", 6, 1, 11),
        rec("/c", 5, 1, 10),
        rec("/d", 5, 2, 10),
        rec("/e", 5, 1, 10),
    ];
    let survivors = group_hard_links(&mut files);
    let mut names: Vec<Vec<u8>> = survivors.iter().flat_map(|f| f.names()).collect();
    names.sort();
    assert_eq!(names, gps(&["/a", "/b", "/c", "/d", "/e"]));
}
