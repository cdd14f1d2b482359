use backdown::dirs::{DirPairKey, DirSize, DirsReport};
use backdown::dup::{DupFile, DupFileRef, DupSet};
use backdown::dup_report::{DupGroups, DupReport, FileLen, HashedFile};
use backdown::hash::FileHash;

fn file(path: &str) -> DupFile {
    DupFile::new(path.to_string()).unwrap()
}

fn set(paths: &[&str], file_len: u64) -> DupSet {
    DupSet { files: paths.iter().map(|p| file(p)).collect(), file_len }
}

fn hashed(path: &str, hex: &str) -> HashedFile {
    HashedFile { file: file(path), hash: FileHash { hex: hex.to_string() } }
}

fn len(path: &str, len: Option<u64>) -> FileLen {
    FileLen { path: path.to_string(), len }
}

fn size(path: &str, entries: Option<usize>) -> DirSize {
    DirSize { path: path.to_string(), entries }
}

fn paths(set: &DupSet) -> Vec<&str> {
    set.files.iter().map(|f| f.path.as_str()).collect()
}

#[test]
fn identical_files_make_a_set_and_a_brotherhood() {
    let scanned = vec![hashed("/d/a.png", "aa"), hashed("/d/c.png", "cc"), hashed("/d/b.png", "aa")];
    let lens = vec![len("/d/a.png", Some(100)), len("/d/c.png", Some(7))];
    let report = DupReport::build(scanned, &lens);
    assert_eq!(report.len(), 1);
    assert!(!report.is_empty());
    assert_eq!(paths(&report.dups[0]), vec!["/d/a.png", "/d/b.png"]);
    assert_eq!(report.dups[0].file_len, 100);
    assert_eq!(report.seen, 3);
    assert_eq!(report.duplicate_count, 1);
    assert_eq!(report.duplicate_len_sum, 100);

    let dirs = DirsReport::compute(&report.dups, &[]).unwrap();
    assert_eq!(dirs.brotherhoods.len(), 1);
    let b = &dirs.brotherhoods[0];
    assert_eq!(b.parent, "/d");
    assert_eq!(b.dup_set_idx, 0);
    assert_eq!(b.files, vec![0, 1]);
    assert!(!b.is_auto_solvable);
    assert_eq!(dirs.auto_solvable_brotherhoods_count, 0);
    assert!(dirs.dup_dirs.is_empty());
    assert!(dirs.dir_pairs.is_empty());
}

#[test]
fn sets_need_two_files_and_a_length() {
    let scanned = vec![
        hashed("/a/empty1", "00"),
        hashed("/a/single", "11"),
        hashed("/a/gone1", "22"),
        hashed("/b/empty2", "00"),
        hashed("/b/gone2", "22"),
        hashed("/a/unknown1", "33"),
        hashed("/b/unknown2", "33"),
        hashed("/a/good1", "44"),
        hashed("/b/good2", "44"),
    ];
    let lens = vec![
        len("/a/empty1", Some(0)),
        len("/a/single", Some(5)),
        len("/a/gone1", None),
        len("/b/gone2", Some(9)),
        len("/a/good1", Some(12)),
        len("/a/good1", Some(13)),
    ];
    let report = DupReport::build(scanned, &lens);
    assert_eq!(report.len(), 1);
    assert_eq!(paths(&report.dups[0]), vec!["/a/good1", "/b/good2"]);
    assert_eq!(report.dups[0].file_len, 12);
    assert_eq!(report.seen, 9);
    assert_eq!(report.duplicate_count, 1);
    assert_eq!(report.duplicate_len_sum, 12);
}

#[test]
fn nothing_scanned_gives_no_set() {
    let report = DupReport::build(vec![], &[]);
    assert!(report.is_empty());
    assert_eq!(report.len(), 0);
    assert_eq!(report.seen, 0);
    assert_eq!(report.duplicate_count, 0);
    assert_eq!(report.duplicate_len_sum, 0);
}

#[test]
fn sets_come_in_descending_order_of_their_number_of_files() {
    let scanned = vec![
        hashed("/a/1", "aa"),
        hashed("/a/2", "bb"),
        hashed("/b/1", "aa"),
        hashed("/b/2", "bb"),
        hashed("/c/3", "cc"),
        hashed("/c/2", "bb"),
        hashed("/d/3", "cc"),
        hashed("/d/2", "bb"),
    ];
    let lens = vec![len("/a/1", Some(10)), len("/a/2", Some(1000)), len("/c/3", Some(5))];
    let report = DupReport::build(scanned, &lens);
    assert_eq!(report.len(), 3);
    assert_eq!(paths(&report.dups[0]), vec!["/a/2", "/b/2", "/c/2", "/d/2"]);
    assert_eq!(paths(&report.dups[1]), vec!["/a/1", "/b/1"]);
    assert_eq!(paths(&report.dups[2]), vec!["/c/3", "/d/3"]);
    for set in &report.dups {
        assert!(set.files.len() >= 2);
        assert!(set.file_len > 0);
    }
    assert_eq!(report.duplicate_count, 3 + 1 + 1);
    assert_eq!(report.duplicate_len_sum, 3 * 1000 + 10 + 5);
}

#[test]
fn groups_hold_the_files_of_one_digest() {
    let scanned = vec![hashed("/a", "x"), hashed("/b", "y"), hashed("/c", "x"), hashed("/d", "z")];
    let groups = DupGroups::build(scanned);
    assert_eq!(groups.seen, 4);
    assert_eq!(groups.groups.len(), 1);
    assert_eq!(groups.groups[0].hash.hex, "x");
    assert_eq!(groups.groups[0].files.len(), 2);
    let report = groups.conclude(&vec![Some(u64::MAX)]);
    assert_eq!(report.duplicate_len_sum, u64::MAX as u128);
    assert_eq!(report.dups[0].file_len, u64::MAX);
}

#[test]
fn key_of_two_directories_is_symmetric() {
    let (ab, ab_inverted) = DirPairKey::new("/a", "/b");
    let (ba, ba_inverted) = DirPairKey::new("/b", "/a");
    assert_eq!(ab.left_dir, "/a");
    assert_eq!(ab.right_dir, "/b");
    assert_eq!(ba.left_dir, "/a");
    assert_eq!(ba.right_dir, "/b");
    assert!(!ab_inverted);
    assert!(ba_inverted);
    let (key, inverted) = DirPairKey::new("/a-b", "/a/b");
    assert_eq!((key.left_dir.as_str(), key.right_dir.as_str()), ("/a/b", "/a-b"));
    assert!(inverted);
    let (same, inverted) = DirPairKey::new("/a", "/a");
    assert_eq!(same.left_dir, "/a");
    assert_eq!(same.right_dir, "/a");
    assert!(inverted);
}

#[test]
fn copies_beside_their_original_are_solvable() {
    let dups = vec![
        set(&["/d/orig.jpg", "/d/orig (copy).jpg"], 10),
        set(&["/d/x (2).jpg", "/d/x (3).jpg"], 10),
        set(&["/e/y.jpg", "/e/z.jpg", "/e/z (copy).jpg"], 10),
        set(&["/e/w (1).jpg", "/e/w.jpg", "/e/w (another copy).jpg", "/f/w.jpg"], 10),
    ];
    let report = DirsReport::compute(&dups, &[]).unwrap();
    assert_eq!(report.brotherhoods.len(), 4);
    assert_eq!(report.auto_solvable_brotherhoods_count, 2);
    for b in &report.brotherhoods {
        match b.dup_set_idx {
            0 => {
                assert!(b.is_auto_solvable);
                assert_eq!(b.files, vec![0, 1]);
            }
            1 => assert!(!b.is_auto_solvable),
            2 => assert!(!b.is_auto_solvable),
            3 => {
                assert!(b.is_auto_solvable);
                assert_eq!(b.parent, "/e");
                assert_eq!(b.files, vec![0, 1, 2]);
            }
            _ => unreachable!(),
        }
    }
    // descending gain: the brotherhoods of three files first
    assert_eq!(report.brotherhoods[0].files.len(), 3);
    assert_eq!(report.brotherhoods[1].files.len(), 3);
    assert_eq!(report.brotherhoods[0].gain(&dups), 20);
    assert_eq!(report.brotherhoods[3].gain(&dups), 10);
    assert_eq!(
        report.brotherhoods[0].file_ref(2),
        DupFileRef { dup_set_idx: report.brotherhoods[0].dup_set_idx, dup_file_idx: 2 }
    );
}

#[test]
fn brotherhoods_come_in_descending_order_of_gain() {
    let dups = vec![
        set(&["/a/1", "/a/2"], 5),
        set(&["/b/1", "/b/2", "/b/3"], 100),
        set(&["/c/1", "/c/2"], 1000),
        set(&["/c/4", "/d/4", "/d/5"], 7),
    ];
    let report = DirsReport::compute(&dups, &[]).unwrap();
    let gains: Vec<u128> = report.brotherhoods.iter().map(|b| b.gain(&dups)).collect();
    assert_eq!(gains, vec![1000, 200, 7, 5]);
    let parents: Vec<&str> = report.brotherhoods.iter().map(|b| b.parent.as_str()).collect();
    assert_eq!(parents, vec!["/c", "/b", "/d", "/a"]);
}

#[test]
fn a_set_has_one_brotherhood_for_each_directory() {
    let dups = vec![set(&["/a/1", "/b/1", "/a/2", "/c/1", "/b/2", "/a/3"], 1)];
    let report = DirsReport::compute(&dups, &[]).unwrap();
    assert_eq!(report.brotherhoods.len(), 2);
    assert_eq!(report.brotherhoods[0].parent, "/a");
    assert_eq!(report.brotherhoods[0].files, vec![0, 2, 5]);
    assert_eq!(report.brotherhoods[1].parent, "/b");
    assert_eq!(report.brotherhoods[1].files, vec![1, 4]);
}

#[test]
fn directory_of_three_duplicates_is_proposed() {
    let dups = vec![
        set(&["/dups/a", "/x/a"], 10),
        set(&["/y/b", "/dups/b"], 20),
        set(&["/dups/c", "/z/c"], 30),
    ];
    let sizes = vec![size("/dups", Some(3))];
    let report = DirsReport::compute(&dups, &sizes).unwrap();
    assert_eq!(report.dup_dirs.len(), 1);
    assert_eq!(report.dup_dirs[0].path, "/dups");
    assert_eq!(
        report.dup_dirs[0].files,
        vec![
            DupFileRef { dup_set_idx: 0, dup_file_idx: 0 },
            DupFileRef { dup_set_idx: 1, dup_file_idx: 1 },
            DupFileRef { dup_set_idx: 2, dup_file_idx: 0 },
        ]
    );
    assert!(report.brotherhoods.is_empty());
    assert_eq!(report.dir_pairs.len(), 3);
}

#[test]
fn directory_with_other_entries_is_not_proposed() {
    let dups = vec![
        set(&["/dups/a", "/x/a"], 10),
        set(&["/y/b", "/dups/b"], 20),
        set(&["/dups/c", "/z/c"], 30),
    ];
    for entries in [0, 2, 4, 100] {
        let report = DirsReport::compute(&dups, &[size("/dups", Some(entries))]).unwrap();
        assert!(report.dup_dirs.is_empty());
    }
    // the first size given for a directory is the one that counts
    let sizes = vec![size("/x", Some(3)), size("/dups", Some(4)), size("/dups", Some(3))];
    assert!(DirsReport::compute(&dups, &sizes).unwrap().dup_dirs.is_empty());
}

#[test]
fn directory_that_cannot_be_read_fails_the_analysis() {
    let dups = vec![
        set(&["/dups/a", "/x/a"], 10),
        set(&["/y/b", "/dups/b"], 20),
        set(&["/dups/c", "/z/c"], 30),
    ];
    let err = DirsReport::compute(&dups, &[size("/dups", None)]).unwrap_err();
    assert_eq!(err.path, "/dups");
    let err = DirsReport::compute(&dups, &[]).unwrap_err();
    assert_eq!(err.path, "/dups");
}

#[test]
fn directory_of_two_duplicates_is_not_a_candidate() {
    let dups = vec![set(&["/dups/a", "/x/a"], 10), set(&["/y/b", "/dups/b"], 20)];
    let analysis = DirsReport::analyze(&dups);
    assert!(analysis.candidates.is_empty());
    let report = DirsReport::compute(&dups, &[size("/dups", Some(2))]).unwrap();
    assert!(report.dup_dirs.is_empty());
}

#[test]
fn directory_of_a_brotherhood_is_not_proposed() {
    let dups = vec![
        set(&["/dups/a", "/x/a"], 10),
        set(&["/y/b", "/dups/b"], 20),
        set(&["/dups/c", "/dups/c2", "/z/c"], 30),
    ];
    let report = DirsReport::compute(&dups, &[size("/dups", Some(4))]).unwrap();
    assert!(report.dup_dirs.is_empty());
    assert_eq!(report.brotherhoods.len(), 1);
    assert_eq!(report.brotherhoods[0].parent, "/dups");
}

#[test]
fn proposed_directories_come_in_descending_order_of_their_number_of_files() {
    let dups = vec![
        set(&["/three/a", "/four/a"], 1),
        set(&["/three/b", "/four/b"], 1),
        set(&["/three/c", "/four/c"], 1),
        set(&["/other/d", "/four/d"], 1),
    ];
    let analysis = DirsReport::analyze(&dups);
    assert_eq!(analysis.candidates.len(), 2);
    let counts: Vec<Option<usize>> = analysis.candidates.iter().map(|c| Some(c.files.len())).collect();
    let report = analysis.conclude(&counts).unwrap();
    assert_eq!(report.dup_dirs.len(), 2);
    assert_eq!(report.dup_dirs[0].path, "/four");
    assert_eq!(report.dup_dirs[0].files.len(), 4);
    assert_eq!(report.dup_dirs[1].path, "/three");
    assert_eq!(report.dup_dirs[1].files.len(), 3);

    let analysis = DirsReport::analyze(&dups);
    let unreadable: Vec<Option<usize>> =
        analysis.candidates.iter().map(|c| if c.path == "/three" { None } else { Some(4) }).collect();
    assert_eq!(analysis.conclude(&unreadable).unwrap_err().path, "/three");
}

#[test]
fn pairs_of_directories_hold_the_files_they_share() {
    let dups = vec![
        set(&["/b/1", "/a/1"], 1),
        set(&["/a/2", "/b/2", "/c/2"], 1),
        set(&["/a/3", "/a/3bis"], 1),
    ];
    let report = DirsReport::compute(&dups, &[]).unwrap();
    assert_eq!(report.dir_pairs.len(), 3);
    let ab = &report.dir_pairs[0];
    assert_eq!(ab.key.left_dir, "/a");
    assert_eq!(ab.key.right_dir, "/b");
    assert_eq!(ab.file_pairs.len(), 2);
    assert_eq!(
        (ab.file_pairs[0].dup_set_idx, ab.file_pairs[0].left_file_idx, ab.file_pairs[0].right_file_idx),
        (0, 1, 0)
    );
    assert_eq!(
        (ab.file_pairs[1].dup_set_idx, ab.file_pairs[1].left_file_idx, ab.file_pairs[1].right_file_idx),
        (1, 0, 1)
    );
    assert_eq!(ab.file_pairs[0].left_ref(), DupFileRef { dup_set_idx: 0, dup_file_idx: 1 });
    assert_eq!(ab.file_pairs[0].right_ref(), DupFileRef { dup_set_idx: 0, dup_file_idx: 0 });
    let ac = &report.dir_pairs[1];
    assert_eq!((ac.key.left_dir.as_str(), ac.key.right_dir.as_str()), ("/a", "/c"));
    assert_eq!(ac.file_pairs.len(), 1);
    let bc = &report.dir_pairs[2];
    assert_eq!((bc.key.left_dir.as_str(), bc.key.right_dir.as_str()), ("/b", "/c"));
    assert_eq!(
        (bc.file_pairs[0].dup_set_idx, bc.file_pairs[0].left_file_idx, bc.file_pairs[0].right_file_idx),
        (1, 1, 2)
    );
}

#[test]
fn no_duplicates_give_an_empty_report() {
    let report = DirsReport::compute(&[], &[]).unwrap();
    assert!(report.dup_dirs.is_empty());
    assert!(report.brotherhoods.is_empty());
    assert!(report.dir_pairs.is_empty());
    assert_eq!(report.auto_solvable_brotherhoods_count, 0);
}

#[test]
fn what_is_equal_comes_in_the_order_in_which_it_is_met() {
    let dups = vec![
        set(&["/z/1", "/z/2", "/a/1", "/a/2"], 10),
        set(&["/m/1", "/m/2"], 10),
        set(&["/one/x", "/two/x", "/three/x"], 1),
        set(&["/three/y", "/two/y", "/one/y"], 1),
        set(&["/two/w", "/one/w", "/three/w"], 1),
    ];
    let sizes = vec![size("/one", Some(3)), size("/two", Some(3)), size("/three", Some(3))];
    let report = DirsReport::compute(&dups, &sizes).unwrap();
    let parents: Vec<&str> = report.brotherhoods.iter().map(|b| b.parent.as_str()).collect();
    assert_eq!(parents, vec!["/z", "/a", "/m"]);
    let dirs: Vec<&str> = report.dup_dirs.iter().map(|d| d.path.as_str()).collect();
    assert_eq!(dirs, vec!["/one", "/two", "/three"]);
    let pairs: Vec<(&str, &str, usize)> = report
        .dir_pairs
        .iter()
        .map(|p| (p.key.left_dir.as_str(), p.key.right_dir.as_str(), p.file_pairs.len()))
        .collect();
    assert_eq!(
        pairs,
        vec![
            ("/a", "/z", 4),
            ("/one", "/two", 3),
            ("/one", "/three", 3),
            ("/three", "/two", 3),
        ]
    );
    let az: Vec<(usize, usize)> =
        report.dir_pairs[0].file_pairs.iter().map(|p| (p.left_file_idx, p.right_file_idx)).collect();
    assert_eq!(az, vec![(2, 0), (3, 0), (2, 1), (3, 1)]);
}

#[test]
fn the_first_directory_that_cannot_be_read_is_named() {
    let dups = vec![
        set(&["/two/x", "/one/x"], 1),
        set(&["/one/y", "/two/y"], 1),
        set(&["/one/z", "/two/z"], 1),
    ];
    let err = DirsReport::compute(&dups, &[]).unwrap_err();
    assert_eq!(err.path, "/two");
    let err = DirsReport::compute(&dups, &[size("/two", Some(3))]).unwrap_err();
    assert_eq!(err.path, "/one");
    let err = DirsReport::compute(&dups, &[size("/one", Some(3)), size("/two", None)]).unwrap_err();
    assert_eq!(err.path, "/two");
    let analysis = DirsReport::analyze(&dups);
    let paths: Vec<&str> = analysis.candidates.iter().map(|c| c.path.as_str()).collect();
    assert_eq!(paths, vec!["/two", "/one"]);
    assert_eq!(analysis.conclude(&vec![None, None]).unwrap_err().path, "/two");
}

#[test]
fn keys_of_pairs_of_directories_compare_and_copy() {
    let (key, _) = DirPairKey::new("/b", "/a");
    let copy = key.clone();
    assert_eq!(key, copy);
    assert_ne!(key, DirPairKey::new("/a", "/c").0);
    let mut keys = std::collections::HashSet::new();
    keys.insert(key);
    assert!(keys.contains(&copy));
}
