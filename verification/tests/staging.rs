use backdown::ask::{
    answer_auto_solve, answer_on_brotherhood, answer_on_dir_pair, answer_on_dup_dir, ask_auto_solve,
    ask_on_brotherhood, ask_on_dir_pair, ask_on_dirs, ask_on_dup_dir, auto_solve_copies, contains_ref,
    other_entries, passed_over, question_count, question_number, stage_files, AutoSolveChoice,
    BrotherhoodChoice,
    DirPairChoice, DupDirChoice, Proposal, MAX_LISTED_FILES,
};
use backdown::dirs::{Brotherhood, DirSize, DirsReport};
use backdown::dup::{reference_file, DupFile, DupFileRef, DupSet};
use backdown::removal_report::{total_len, RemovalReport};
use backdown::session::Staging;
use backdown::staged::StagedSet;

fn file(path: &str) -> DupFile {
    DupFile::new(path.to_string()).unwrap()
}

fn set(paths: &[&str], file_len: u64) -> DupSet {
    DupSet { files: paths.iter().map(|p| file(p)).collect(), file_len }
}

fn at(dup_set_idx: usize, dup_file_idx: usize) -> DupFileRef {
    DupFileRef { dup_set_idx, dup_file_idx }
}

fn staged(rr: &RemovalReport) -> Vec<DupFileRef> {
    (0..rr.staged_removals.len()).map(|i| rr.staged_removals.get(i)).collect()
}

fn some_sets() -> Vec<DupSet> {
    vec![set(&["/a/1", "/b/1"], 100), set(&["/a/2", "/b/2", "/c/2"], 7)]
}

#[test]
fn a_new_report_is_empty() {
    let rr = RemovalReport::new();
    assert!(rr.is_empty());
    assert_eq!(rr.len_to_remove, 0);
    assert!(rr.staged_dir_removals.is_empty());
    assert!(rr.dup_sets_with_staged.is_empty());
    assert!(!rr.broken);
    assert!(!rr.quit);
}

#[test]
fn staging_a_file_twice_counts_it_once() {
    let dups = some_sets();
    let mut rr = RemovalReport::new();
    rr.stage_file(at(0, 1), &dups);
    assert_eq!(rr.len_to_remove, 100);
    assert_eq!(staged(&rr), vec![at(0, 1)]);
    rr.stage_file(at(0, 1), &dups);
    assert_eq!(rr.len_to_remove, 100);
    assert_eq!(staged(&rr), vec![at(0, 1)]);
    assert!(!rr.is_empty());
    rr.stage_file(at(1, 0), &dups);
    rr.stage_file(at(1, 2), &dups);
    rr.stage_file(at(1, 0), &dups);
    assert_eq!(rr.len_to_remove, 114);
    assert_eq!(staged(&rr), vec![at(0, 1), at(1, 0), at(1, 2)]);
    assert!(rr.dup_sets_with_staged.contains(&0));
    assert!(rr.dup_sets_with_staged.contains(&1));
    assert_eq!(rr.dup_sets_with_staged.len(), 2);
}

#[test]
fn staged_references_are_told_apart() {
    let mut set = StagedSet::new();
    assert!(set.is_empty());
    assert!(set.insert(at(1, 0)));
    assert!(set.insert(at(0, 1)));
    assert!(!set.insert(at(1, 0)));
    assert!(set.insert(at(usize::MAX, usize::MAX)));
    assert!(set.insert(at(0, usize::MAX)));
    assert!(set.insert(at(usize::MAX, 0)));
    assert_eq!(set.len(), 5);
    assert!(set.contains(at(0, 1)));
    assert!(!set.contains(at(1, 1)));
    assert!(!set.contains(at(0, 0)));
    assert_eq!(set.get(1), at(0, 1));
}

#[test]
fn staging_every_file_of_a_set_fails_the_check() {
    let dups = some_sets();
    let mut rr = RemovalReport::new();
    assert!(rr.check_no_emptied_set(&dups).is_ok());
    rr.stage_file(at(1, 0), &dups);
    rr.stage_file(at(1, 1), &dups);
    rr.stage_file(at(0, 0), &dups);
    assert!(rr.check_no_emptied_set(&dups).is_ok());
    rr.stage_file(at(1, 2), &dups);
    let err = rr.check_no_emptied_set(&dups).unwrap_err();
    assert_eq!(err.dup_set_idx, 1);
    assert_eq!(err.message(), "We staged all files in set for removal! Abort!");
    rr.stage_file(at(0, 1), &dups);
    assert_eq!(rr.check_no_emptied_set(&dups).unwrap_err().dup_set_idx, 0);
}

#[test]
fn removal_of_an_emptied_set_deletes_nothing() {
    let dups = some_sets();
    let mut rr = RemovalReport::new();
    rr.stage_file(at(0, 0), &dups);
    rr.stage_file(at(0, 1), &dups);
    let err = rr.do_the_removal(&dups).unwrap_err();
    assert_eq!(err.dup_set_idx, 0);
}

#[test]
fn removal_deletes_the_staged_files_then_the_directories() {
    let dups = some_sets();
    let mut rr = RemovalReport::new();
    rr.stage_directory("/b", &vec![at(1, 1), at(0, 1)], &dups);
    rr.stage_file(at(1, 0), &dups);
    assert_eq!(rr.len_to_remove, 114);
    assert_eq!(rr.staged_dir_removals, vec!["/b"]);
    let plan = rr.do_the_removal(&dups).unwrap();
    let files: Vec<(&str, u64)> = plan.files.iter().map(|f| (f.path.as_str(), f.len)).collect();
    assert_eq!(files, vec![("/b/2", 7), ("/b/1", 100), ("/a/2", 7)]);
    assert_eq!(plan.files[1].file, at(0, 1));
    assert_eq!(plan.dirs, vec!["/b"]);

    let tally = plan.tally(&vec![true, false, true]);
    assert_eq!(tally.removed_count, 2);
    assert_eq!(tally.removed_len, 14);
    let tally = plan.tally(&vec![false, false, false]);
    assert_eq!(tally.removed_count, 0);
    assert_eq!(tally.removed_len, 0);
    let tally = plan.tally(&vec![true, true, true]);
    assert_eq!(tally.removed_count, 3);
    assert_eq!(tally.removed_len, 114);
}

#[test]
fn touched_sets_tell_what_happens_to_each_file() {
    let dups = vec![set(&["/a/1", "/b/1"], 100), set(&["/a/2", "/b/2"], 3), set(&["/a/3", "/b/3", "/c/3"], 7)];
    let mut rr = RemovalReport::new();
    assert!(rr.list_dup_sets(&dups).is_empty());
    assert!(rr.list_staged_removals(&dups).is_empty());
    rr.stage_file(at(2, 2), &dups);
    rr.stage_file(at(0, 0), &dups);
    rr.stage_file(at(2, 0), &dups);
    let touched = rr.list_dup_sets(&dups);
    assert_eq!(touched.len(), 2);
    assert_eq!(touched[0].dup_set_idx, 0);
    assert_eq!(touched[0].file_len, 100);
    let actions: Vec<(&str, bool)> = touched[0].files.iter().map(|f| (f.path.as_str(), f.remove)).collect();
    assert_eq!(actions, vec![("/a/1", true), ("/b/1", false)]);
    assert_eq!(touched[1].dup_set_idx, 2);
    let actions: Vec<(&str, bool)> = touched[1].files.iter().map(|f| (f.path.as_str(), f.remove)).collect();
    assert_eq!(actions, vec![("/a/3", true), ("/b/3", false), ("/c/3", true)]);
    let listed = rr.list_staged_removals(&dups);
    assert_eq!(listed.len(), 3);
    assert_eq!(listed[0].path, "/c/3");
    assert_eq!(listed[1].path, "/a/1");
    assert_eq!(listed[1].len, 100);
    assert_eq!(total_len(&vec![at(0, 0), at(2, 1), at(0, 0)], &dups), 207);
}

#[test]
fn reference_file_has_the_shortest_path_that_is_not_staged() {
    let dups = vec![set(&["/long/path/a", "/b/a", "/c/a", "/bb/a"], 1)];
    let mut rr = RemovalReport::new();
    assert_eq!(reference_file(0, &dups[0], &rr.staged_removals), Some("/b/a"));
    rr.stage_file(at(0, 1), &dups);
    assert_eq!(reference_file(0, &dups[0], &rr.staged_removals), Some("/c/a"));
    rr.stage_file(at(0, 2), &dups);
    assert_eq!(reference_file(0, &dups[0], &rr.staged_removals), Some("/bb/a"));
    rr.stage_file(at(0, 3), &dups);
    assert_eq!(reference_file(0, &dups[0], &rr.staged_removals), Some("/long/path/a"));
    rr.stage_file(at(0, 0), &dups);
    assert_eq!(reference_file(0, &dups[0], &rr.staged_removals), None);
    assert_eq!(reference_file(1, &dups[0], &rr.staged_removals), Some("/b/a"));
}

fn report_of_everything() -> (Vec<DupSet>, DirsReport) {
    let dups = vec![
        set(&["/d/orig.jpg", "/d/orig (copy).jpg"], 10),
        set(&["/e/pic.png", "/e/pic (2).png", "/e/pic (3).png"], 100),
        set(&["/f/x", "/f/y"], 1000),
        set(&["/dups/a", "/x/a"], 1),
        set(&["/dups/b", "/x/b"], 2),
        set(&["/dups/c", "/y/c"], 3),
    ];
    let sizes = vec![DirSize { path: "/dups".to_string(), entries: Some(3) }];
    let report = DirsReport::compute(&dups, &sizes).unwrap();
    (dups, report)
}

#[test]
fn questions_come_in_their_order() {
    let (_dups, report) = report_of_everything();
    assert_eq!(report.dup_dirs.len(), 1);
    assert_eq!(report.brotherhoods.len(), 3);
    assert_eq!(report.dir_pairs.len(), 2);
    assert_eq!(report.auto_solvable_brotherhoods_count, 2);
    assert_eq!(question_count(&report), 7);
    let rr = RemovalReport::new();
    let mut asked = Vec::new();
    let mut last = None;
    while let Some(p) = ask_on_dirs(&report, &rr, last, false) {
        asked.push((p, question_number(&report, p)));
        last = Some(p);
    }
    assert_eq!(
        asked,
        vec![
            (Proposal::AutoSolve, 1),
            (Proposal::DupDir(0), 2),
            (Proposal::Brotherhood(0), 3),
            (Proposal::Brotherhood(1), 4),
            (Proposal::Brotherhood(2), 5),
            (Proposal::DirPair(0), 6),
            (Proposal::DirPair(1), 7),
        ]
    );
    // the brotherhood of /f needs asking, the other two do not
    assert!(!report.brotherhoods[0].is_auto_solvable);
    assert_eq!(ask_on_dirs(&report, &rr, Some(Proposal::DupDir(0)), true), Some(Proposal::Brotherhood(0)));
    assert_eq!(ask_on_dirs(&report, &rr, Some(Proposal::Brotherhood(0)), true), Some(Proposal::DirPair(0)));
    assert_eq!(ask_on_dirs(&report, &rr, Some(Proposal::DirPair(1)), true), None);
    assert_eq!(ask_on_dirs(&report, &rr, Some(Proposal::DirPair(usize::MAX)), true), None);
}

#[test]
fn no_question_comes_once_the_staging_has_ended() {
    let (_dups, report) = report_of_everything();
    let mut rr = RemovalReport::new();
    rr.broken = true;
    assert_eq!(ask_on_dirs(&report, &rr, None, false), None);
    rr.broken = false;
    rr.quit = true;
    assert_eq!(ask_on_dirs(&report, &rr, Some(Proposal::AutoSolve), false), None);
}

#[test]
fn one_solvable_brotherhood_is_asked_about_by_itself() {
    let dups = vec![set(&["/d/orig.jpg", "/d/orig (copy).jpg"], 10), set(&["/f/x", "/f/y"], 1000)];
    let report = DirsReport::compute(&dups, &[]).unwrap();
    assert_eq!(report.auto_solvable_brotherhoods_count, 1);
    assert_eq!(question_count(&report), 2);
    let rr = RemovalReport::new();
    assert_eq!(ask_on_dirs(&report, &rr, None, false), Some(Proposal::Brotherhood(0)));
    assert_eq!(question_number(&report, Proposal::Brotherhood(0)), 1);
    assert_eq!(question_number(&report, Proposal::Brotherhood(1)), 2);
}

#[test]
fn accepting_the_auto_solve_stages_the_copies_only() {
    let dups = vec![set(&["/d/orig.jpg", "/d/orig (copy).jpg"], 10)];
    let report = DirsReport::compute(&dups, &[]).unwrap();
    assert!(report.brotherhoods[0].is_auto_solvable);
    let mut rr = RemovalReport::new();
    assert!(answer_auto_solve(AutoSolveChoice::Yes, &report, &dups, &mut rr));
    assert_eq!(staged(&rr), vec![at(0, 1)]);
    assert_eq!(rr.len_to_remove, 10);
    assert_eq!(at(0, 1).path(&dups), "/d/orig (copy).jpg");
    assert_eq!(at(0, 1).file_name(&dups), "orig (copy).jpg");
    assert_eq!(at(0, 1).copy_name(&dups), Some("orig (copy).jpg"));
    assert!(at(0, 1).is_copy_named(&dups));
    assert!(!at(0, 0).is_copy_named(&dups));
    assert_eq!(at(0, 0).copy_name(&dups), None);
    assert!(rr.check_no_emptied_set(&dups).is_ok());
    assert!(!rr.quit);
    assert!(!rr.broken);
}

#[test]
fn the_auto_solve_question_counts_the_copies() {
    let (dups, report) = report_of_everything();
    let q = ask_auto_solve(&report, &dups);
    assert_eq!(q.file_count, 3);
    assert_eq!(q.size, 210);
    assert_eq!(q.skippable_questions, 2);
    assert_eq!(q.examples, vec![at(1, 1), at(0, 1)]);
    assert_eq!(auto_solve_copies(&report, &dups), vec![at(1, 1), at(1, 2), at(0, 1)]);

    let mut rr = RemovalReport::new();
    assert!(!answer_auto_solve(AutoSolveChoice::No, &report, &dups, &mut rr));
    assert!(rr.is_empty());
    assert!(!rr.quit);
    assert!(!answer_auto_solve(AutoSolveChoice::Quit, &report, &dups, &mut rr));
    assert!(rr.is_empty());
    assert!(rr.quit);
    assert!(!rr.broken);
}

#[test]
fn staging_a_directory_stages_its_files_and_itself() {
    let (dups, report) = report_of_everything();
    let dup_dir = &report.dup_dirs[0];
    assert_eq!(dup_dir.path, "/dups");
    let mut rr = RemovalReport::new();
    let q = ask_on_dup_dir(dup_dir, &dups, &rr).unwrap();
    assert_eq!(q.file_count, 3);
    assert_eq!(q.size, 6);
    answer_on_dup_dir(DupDirChoice::Skip, dup_dir, &dups, &mut rr);
    assert!(rr.is_empty());
    assert!(rr.staged_dir_removals.is_empty());
    answer_on_dup_dir(DupDirChoice::StageDirectory, dup_dir, &dups, &mut rr);
    assert_eq!(staged(&rr), vec![at(3, 0), at(4, 0), at(5, 0)]);
    assert_eq!(rr.staged_dir_removals, vec!["/dups"]);
    assert_eq!(rr.len_to_remove, 6);
    assert!(!rr.broken);
    assert!(rr.check_no_emptied_set(&dups).is_ok());
    answer_on_dup_dir(DupDirChoice::EndStaging, dup_dir, &dups, &mut rr);
    assert!(rr.broken);
    assert_eq!(rr.staged_removals.len(), 3);
}

#[test]
fn a_directory_with_the_last_file_of_a_set_is_not_asked_about() {
    let (dups, report) = report_of_everything();
    let dup_dir = &report.dup_dirs[0];
    let mut rr = RemovalReport::new();
    rr.stage_file(at(4, 1), &dups);
    assert!(ask_on_dup_dir(dup_dir, &dups, &rr).is_none());
    let mut rr = RemovalReport::new();
    rr.stage_file(at(0, 0), &dups);
    rr.stage_file(at(3, 0), &dups);
    assert!(ask_on_dup_dir(dup_dir, &dups, &rr).is_some());
    assert!(contains_ref(&dup_dir.files, at(4, 0)));
    assert!(!contains_ref(&dup_dir.files, at(4, 1)));
}

#[test]
fn keeping_a_file_of_a_brotherhood_stages_the_others() {
    let dups = vec![set(&["/e/c.png", "/z/other", "/e/a.png", "/e/b.png", "/e/a.png"], 100)];
    let b = Brotherhood { parent: "/e".to_string(), dup_set_idx: 0, files: vec![0, 2, 3, 4], is_auto_solvable: false };
    let q = ask_on_brotherhood(&b, &dups);
    assert_eq!(q.file_count, 4);
    assert_eq!(q.file_len, 100);
    assert_eq!(q.candidates, vec![2, 4, 3, 0]);

    let mut rr = RemovalReport::new();
    answer_on_brotherhood(BrotherhoodChoice::Keep(3), &q.candidates, &b, &dups, &mut rr);
    assert_eq!(staged(&rr), vec![at(0, 0), at(0, 2), at(0, 4)]);
    assert_eq!(rr.len_to_remove, 300);
    assert!(rr.check_no_emptied_set(&dups).is_ok());

    for choice in [BrotherhoodChoice::Keep(0), BrotherhoodChoice::Keep(5), BrotherhoodChoice::Skip] {
        let mut rr = RemovalReport::new();
        answer_on_brotherhood(choice, &q.candidates, &b, &dups, &mut rr);
        assert!(rr.is_empty());
        assert!(!rr.broken);
    }
    let mut rr = RemovalReport::new();
    answer_on_brotherhood(BrotherhoodChoice::EndStaging, &q.candidates, &b, &dups, &mut rr);
    assert!(rr.is_empty());
    assert!(rr.broken);
    assert!(!rr.quit);
}

#[test]
fn staging_one_side_of_a_pair_of_directories() {
    let dups = vec![
        set(&["/left/1", "/right/1"], 10),
        set(&["/right/2", "/left/2"], 20),
        set(&["/left/3", "/right/3", "/else/3"], 40),
    ];
    let sizes = vec![
        DirSize { path: "/left".to_string(), entries: Some(5) },
        DirSize { path: "/right".to_string(), entries: Some(4) },
    ];
    let report = DirsReport::compute(&dups, &sizes).unwrap();
    assert!(report.dup_dirs.is_empty());
    let pair = &report.dir_pairs[0];
    assert_eq!((pair.key.left_dir.as_str(), pair.key.right_dir.as_str()), ("/left", "/right"));
    assert_eq!(pair.file_pairs.len(), 3);

    let mut rr = RemovalReport::new();
    rr.stage_file(at(1, 0), &dups);
    let q = ask_on_dir_pair(pair, &dups, &rr).unwrap();
    assert_eq!(q.removed_left_count, 0);
    assert_eq!(q.removed_right_count, 1);
    assert_eq!(q.removable_left_count, 3);
    assert_eq!(q.removable_right_count, 2);
    assert_eq!(q.removable_pairs.len(), 2);
    assert_eq!(q.removable_len, 50);
    assert!(q.lists_files());
    assert_eq!(MAX_LISTED_FILES, 5);
    assert_eq!(other_entries(3, q.removed_left_count, q.removable_left_count), Some(0));
    assert_eq!(other_entries(10, q.removed_left_count, q.removable_left_count), Some(7));
    assert_eq!(other_entries(4, q.removed_right_count, q.removable_right_count), Some(1));
    assert_eq!(other_entries(2, q.removed_right_count, q.removable_right_count), None);

    let mut left = RemovalReport::new();
    left.stage_file(at(1, 0), &dups);
    answer_on_dir_pair(DirPairChoice::StageLeft, &q.removable_pairs, &dups, &mut left);
    assert_eq!(staged(&left), vec![at(1, 0), at(0, 0), at(2, 0)]);
    assert_eq!(left.len_to_remove, 70);
    assert!(left.check_no_emptied_set(&dups).is_ok());

    let mut right = RemovalReport::new();
    answer_on_dir_pair(DirPairChoice::StageRight, &q.removable_pairs, &dups, &mut right);
    assert_eq!(staged(&right), vec![at(0, 1), at(2, 1)]);

    let mut other = RemovalReport::new();
    answer_on_dir_pair(DirPairChoice::Skip, &q.removable_pairs, &dups, &mut other);
    assert!(other.is_empty() && !other.broken);
    answer_on_dir_pair(DirPairChoice::EndStaging, &q.removable_pairs, &dups, &mut other);
    assert!(other.is_empty() && other.broken);

    // with a file of each pair staged there is nothing left to ask
    rr.stage_file(at(0, 0), &dups);
    rr.stage_file(at(2, 1), &dups);
    assert!(ask_on_dir_pair(pair, &dups, &rr).is_none());
}

#[test]
fn files_are_staged_one_after_the_other() {
    let dups = some_sets();
    let mut rr = RemovalReport::new();
    stage_files(&mut rr, &vec![at(1, 2), at(0, 0), at(1, 2)], &dups);
    assert_eq!(staged(&rr), vec![at(1, 2), at(0, 0)]);
    assert_eq!(rr.len_to_remove, 107);
}

fn answer(staging: &mut Staging, report: &DirsReport, dups: &[DupSet], p: Proposal, left: bool) {
    match p {
        Proposal::AutoSolve => staging.answer_auto_solve(AutoSolveChoice::Yes, report, dups),
        Proposal::DupDir(k) => {
            staging.answer_on_dup_dir(k, DupDirChoice::StageDirectory, report, dups);
        }
        Proposal::Brotherhood(k) => staging.answer_on_brotherhood(k, BrotherhoodChoice::Keep(1), report, dups),
        Proposal::DirPair(k) => {
            let choice = if left { DirPairChoice::StageLeft } else { DirPairChoice::StageRight };
            staging.answer_on_dir_pair(k, choice, report, dups);
        }
    }
}

#[test]
fn a_session_that_stages_all_it_can_keeps_a_file_of_every_set() {
    let (dups, report) = report_of_everything();
    for left in [true, false] {
        let mut staging = Staging::new(&report, &dups);
        let mut asked = Vec::new();
        while let Some(p) = staging.next(&report) {
            asked.push(p);
            answer(&mut staging, &report, &dups, p, left);
        }
        assert_eq!(
            asked,
            vec![
                Proposal::AutoSolve,
                Proposal::DupDir(0),
                Proposal::Brotherhood(0),
                Proposal::DirPair(0),
                Proposal::DirPair(1),
            ]
        );
        assert!(staging.auto_solved);
        let rr = staging.finish(&report, &dups);
        assert!(rr.check_no_emptied_set(&dups).is_ok());
        assert_eq!(rr.staged_dir_removals, vec!["/dups"]);
        // every set has lost all its files but one
        assert_eq!(staged(&rr).len(), 1 + 2 + 1 + 1 + 1 + 1);
        assert_eq!(rr.len_to_remove, 10 + 200 + 1000 + 1 + 2 + 3);
        assert!(rr.do_the_removal(&dups).is_ok());
    }
}

#[test]
fn a_session_ends_when_the_user_ends_it() {
    let (dups, report) = report_of_everything();
    let mut staging = Staging::new(&report, &dups);
    assert_eq!(staging.next(&report), Some(Proposal::AutoSolve));
    staging.answer_auto_solve(AutoSolveChoice::No, &report, &dups);
    assert!(!staging.auto_solved);
    assert_eq!(staging.next(&report), Some(Proposal::DupDir(0)));
    assert!(staging.answer_on_dup_dir(0, DupDirChoice::Skip, &report, &dups));
    assert_eq!(staging.next(&report), Some(Proposal::Brotherhood(0)));
    staging.answer_on_brotherhood(0, BrotherhoodChoice::EndStaging, &report, &dups);
    assert_eq!(staging.next(&report), None);
    let rr = staging.finish(&report, &dups);
    assert!(rr.is_empty());
    assert!(rr.broken);

    let mut staging = Staging::new(&report, &dups);
    staging.answer_auto_solve(AutoSolveChoice::Quit, &report, &dups);
    assert_eq!(staging.next(&report), None);
    assert!(staging.rr.quit);
}

#[test]
fn a_directory_is_passed_over_when_it_holds_the_last_files() {
    // both files of the second set lie in directories of duplicates
    let dups = vec![
        set(&["/one/a", "/two/a"], 1),
        set(&["/one/b", "/two/b"], 1),
        set(&["/one/c", "/two/c"], 1),
    ];
    let sizes = vec![
        DirSize { path: "/one".to_string(), entries: Some(3) },
        DirSize { path: "/two".to_string(), entries: Some(3) },
    ];
    let report = DirsReport::compute(&dups, &sizes).unwrap();
    assert_eq!(report.dup_dirs.len(), 2);
    let mut staging = Staging::new(&report, &dups);
    assert_eq!(staging.next(&report), Some(Proposal::DupDir(0)));
    assert!(staging.answer_on_dup_dir(0, DupDirChoice::StageDirectory, &report, &dups));
    assert_eq!(staging.next(&report), Some(Proposal::DupDir(1)));
    assert!(!staging.answer_on_dup_dir(1, DupDirChoice::StageDirectory, &report, &dups));
    assert_eq!(staging.next(&report), Some(Proposal::DirPair(0)));
    assert!(!staging.answer_on_dir_pair(0, DirPairChoice::StageRight, &report, &dups));
    assert_eq!(staging.next(&report), None);
    let rr = staging.finish(&report, &dups);
    assert_eq!(rr.staged_removals.len(), 3);
    assert_eq!(rr.staged_dir_removals.len(), 1);
    assert!(rr.check_no_emptied_set(&dups).is_ok());
}

#[test]
fn solved_brotherhoods_are_passed_over() {
    let (_dups, report) = report_of_everything();
    let rr = RemovalReport::new();
    // the brotherhoods at the positions 1 and 2 need no asking
    let after_dirs = Some(Proposal::DupDir(0));
    let next = ask_on_dirs(&report, &rr, after_dirs, true);
    assert_eq!(next, Some(Proposal::Brotherhood(0)));
    assert_eq!(passed_over(&report, after_dirs, next), Vec::<usize>::new());
    let last = next;
    let next = ask_on_dirs(&report, &rr, last, true);
    assert_eq!(next, Some(Proposal::DirPair(0)));
    assert_eq!(passed_over(&report, last, next), vec![1, 2]);
    assert_eq!(passed_over(&report, None, None), vec![0, 1, 2]);
    assert_eq!(passed_over(&report, Some(Proposal::Brotherhood(1)), None), vec![2]);
    assert_eq!(passed_over(&report, Some(Proposal::DirPair(0)), None), Vec::<usize>::new());
    assert_eq!(passed_over(&report, None, Some(Proposal::Brotherhood(2))), vec![0, 1]);
}

#[test]
fn other_entries_of_a_directory() {
    assert_eq!(other_entries(5, 2, 3), Some(0));
    assert_eq!(other_entries(9, 2, 3), Some(4));
    assert_eq!(other_entries(4, 2, 3), None);
    assert_eq!(other_entries(usize::MAX, usize::MAX, 1), None);
    assert_eq!(other_entries(0, 0, 0), Some(0));
}

#[test]
fn a_report_is_copied_with_all_it_holds() {
    let dups = some_sets();
    let mut rr = RemovalReport::new();
    rr.stage_directory("/b", &vec![at(1, 1), at(0, 1)], &dups);
    rr.stage_file(at(1, 0), &dups);
    rr.broken = true;
    let mut copy = rr.clone();
    assert_eq!(staged(&copy), staged(&rr));
    assert_eq!(copy.staged_dir_removals, rr.staged_dir_removals);
    assert_eq!(copy.len_to_remove, 114);
    assert_eq!(copy.dup_sets_with_staged, rr.dup_sets_with_staged);
    assert!(copy.broken);
    assert!(!copy.quit);
    // the copy goes its own way
    copy.stage_file(at(1, 2), &dups);
    assert_eq!(copy.len_to_remove, 121);
    assert_eq!(rr.len_to_remove, 114);
    assert!(copy.check_no_emptied_set(&dups).is_err());
    assert!(rr.check_no_emptied_set(&dups).is_ok());
    assert!(copy.staged_removals.clone().contains(at(1, 2)));
    assert!(!rr.staged_removals.clone().contains(at(1, 2)));
}

#[test]
fn a_new_session_has_nothing_staged() {
    let (dups, report) = report_of_everything();
    let staging = Staging::new(&report, &dups);
    assert!(staging.rr.is_empty());
    assert!(staging.rr.staged_dir_removals.is_empty());
    assert_eq!(staging.rr.len_to_remove, 0);
    assert_eq!(staging.last, None);
    assert!(!staging.auto_solved);
}

#[test]
fn a_session_queues_a_directory_only_when_it_is_staged() {
    let (dups, report) = report_of_everything();
    for (choice, queued) in [
        (DupDirChoice::Skip, 0),
        (DupDirChoice::EndStaging, 0),
        (DupDirChoice::StageDirectory, 1),
    ] {
        let mut staging = Staging::new(&report, &dups);
        staging.answer_auto_solve(AutoSolveChoice::No, &report, &dups);
        assert!(staging.answer_on_dup_dir(0, choice, &report, &dups));
        assert_eq!(staging.rr.staged_dir_removals.len(), queued);
        assert_eq!(staging.rr.staged_removals.len(), 3 * queued);
        assert_eq!(staging.rr.broken, choice == DupDirChoice::EndStaging);
    }
}
