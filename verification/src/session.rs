//! A staging session: the questions in their order, each answer applied,
//! and the proof that whatever the answers are, every set of identical
//! files keeps a file.

use vstd::prelude::*;
use crate::ask::{
    all_copies_of, answer_auto_solve, answer_on_brotherhood, answer_on_dir_pair, answer_on_dup_dir,
    ask_on_brotherhood, ask_on_dir_pair, ask_on_dirs, ask_on_dup_dir, asks_about_auto_solve, auto_solve_refs,
    comes_after, copies_of, is_put, left_of, others_of, place, removable_pairs_of, right_of, same_members,
    AutoSolveChoice, BrotherhoodChoice, DirPairChoice, DupDirChoice, Proposal,
};
use crate::brothers::are_brotherhoods;
use crate::dirs::{lemma_dup_dir_is_no_brotherhood_parent, Brotherhood, DirsReport};
use crate::dup::{file_ref, DupFileRef, DupSet};
use crate::pairs::cross_pair;
use crate::parents::parent_at;
use crate::removal_report::{is_emptied, lemma_stage_all_keeps, stage_all, RemovalReport};
use crate::safety::{
    keeps_every_set, lemma_auto_solving_keeps_every_set, lemma_keeping_a_brother_keeps_every_set,
    lemma_staging_a_safe_directory_keeps_every_set, lemma_staging_one_side_keeps_every_set,
};
use crate::tally::lemma_refs_in;
use crate::text::texts;

verus! {

/// Every set has a file.
pub open spec fn sets_hold_files(dups: Seq<DupSet>) -> bool {
    forall|s: int| 0 <= s < dups.len() ==> (#[trigger] dups[s]).files@.len() > 0
}

/// `r` is a member of the brotherhood `b`.
pub open spec fn is_member(b: Brotherhood, r: DupFileRef) -> bool {
    exists|m: int| 0 <= m < b.files@.len() && r == file_ref(b.dup_set_idx as int, #[trigger] b.files@[m] as int)
}

/// No member of the brotherhood is staged.
pub open spec fn untouched(b: Brotherhood, staged: Seq<DupFileRef>) -> bool {
    forall|r: DupFileRef| #[trigger] is_member(b, r) ==> !staged.contains(r)
}

/// The brotherhood at position `k` is still to be asked about: its
/// question comes after the question `last`, and it is not solved.
pub open spec fn is_pending(report: DirsReport, last: Option<Proposal>, auto_solved: bool, k: int) -> bool {
    &&& 0 <= k < report.brotherhoods@.len()
    &&& comes_after(report, last, Proposal::Brotherhood(k as usize))
    &&& !(auto_solved && report.brotherhoods@[k].is_auto_solvable)
}

/// A file is a member of one brotherhood at most.
pub proof fn lemma_one_brotherhood(found: Seq<Brotherhood>, dups: Seq<DupSet>, j: int, k: int, r: DupFileRef)
    requires
        are_brotherhoods(found, dups, dups.len() as int),
        0 <= j < found.len(),
        0 <= k < found.len(),
        is_member(found[j], r),
        is_member(found[k], r),
    ensures
        j == k,
{
    assert(found[j].describes(dups) && found[k].describes(dups));
    let m = choose|m: int|
        0 <= m < found[j].files@.len() && r == file_ref(
            found[j].dup_set_idx as int,
            #[trigger] found[j].files@[m] as int,
        );
    let n = choose|n: int|
        0 <= n < found[k].files@.len() && r == file_ref(
            found[k].dup_set_idx as int,
            #[trigger] found[k].files@[n] as int,
        );
    assert(parent_at(dups, found[j].dup_set_idx as int, found[j].files@[m] as int) == found[j].parent@);
    assert(parent_at(dups, found[k].dup_set_idx as int, found[k].files@[n] as int) == found[k].parent@);
}

/// The copies of a brotherhood are members of it.
proof fn lemma_copies_are_members(dups: Seq<DupSet>, b: Brotherhood, n: int)
    requires
        0 <= n <= b.files@.len(),
    ensures
        forall|x: int| 0 <= x < copies_of(dups, b, n).len() ==> is_member(b, #[trigger] copies_of(dups, b, n)[x]),
    decreases n,
{
    if n > 0 {
        lemma_copies_are_members(dups, b, n - 1);
        let here = copies_of(dups, b, n);
        let fewer = copies_of(dups, b, n - 1);
        assert forall|x: int| 0 <= x < here.len() implies is_member(b, #[trigger] here[x]) by {
            if x < fewer.len() {
                assert(here[x] == fewer[x]);
            } else {
                assert(here[x] == file_ref(b.dup_set_idx as int, b.files@[n - 1] as int));
            }
        }
    }
}

/// `r` is a member of a solvable brotherhood among the first `n`.
pub open spec fn is_solvable_member(found: Seq<Brotherhood>, n: int, r: DupFileRef) -> bool {
    exists|j: int| 0 <= j < n && (#[trigger] found[j]).is_auto_solvable && is_member(found[j], r)
}

/// What the answer "yes" to the question about all solvable brotherhoods
/// stages are members of solvable brotherhoods.
proof fn lemma_auto_solve_refs_are_members(found: Seq<Brotherhood>, dups: Seq<DupSet>, n: int)
    requires
        0 <= n <= found.len(),
    ensures
        forall|x: int|
            0 <= x < auto_solve_refs(found, dups, n).len() ==> is_solvable_member(
                found,
                n,
                #[trigger] auto_solve_refs(found, dups, n)[x],
            ),
    decreases n,
{
    if n > 0 {
        lemma_auto_solve_refs_are_members(found, dups, n - 1);
        let here = auto_solve_refs(found, dups, n);
        let fewer = auto_solve_refs(found, dups, n - 1);
        lemma_copies_are_members(dups, found[n - 1], found[n - 1].files@.len() as int);
        assert forall|x: int| 0 <= x < here.len() implies is_solvable_member(found, n, #[trigger] here[x]) by {
            if x < fewer.len() {
                assert(here[x] == fewer[x]);
                assert(is_solvable_member(found, n - 1, fewer[x]));
                let j = choose|j: int|
                    0 <= j < n - 1 && (#[trigger] found[j]).is_auto_solvable && is_member(found[j], fewer[x]);
                assert(found[j].is_auto_solvable && is_member(found[j], here[x]));
            } else {
                assert(here[x] == all_copies_of(dups, found[n - 1])[x - fewer.len()]);
                assert(found[n - 1].is_auto_solvable && is_member(found[n - 1], here[x]));
            }
        }
    }
}

/// The members of a brotherhood other than one file are members of it.
proof fn lemma_others_are_members(b: Brotherhood, kept: usize, n: int)
    requires
        0 <= n <= b.files@.len(),
    ensures
        forall|x: int| 0 <= x < others_of(b, kept, n).len() ==> is_member(b, #[trigger] others_of(b, kept, n)[x]),
    decreases n,
{
    if n > 0 {
        lemma_others_are_members(b, kept, n - 1);
        let here = others_of(b, kept, n);
        let fewer = others_of(b, kept, n - 1);
        assert forall|x: int| 0 <= x < here.len() implies is_member(b, #[trigger] here[x]) by {
            if x < fewer.len() {
                assert(here[x] == fewer[x]);
            } else {
                assert(here[x] == file_ref(b.dup_set_idx as int, b.files@[n - 1] as int));
            }
        }
    }
}

/// The state of a staging session: what is staged, the question answered
/// last, and whether the solvable brotherhoods were solved in one go.
#[derive(Debug)]
pub struct Staging {
    pub rr: RemovalReport,
    pub last: Option<Proposal>,
    pub auto_solved: bool,
}

impl Staging {
    /// The session is sound: every set keeps a file that is not staged, and
    /// no file is staged of the brotherhoods that are still to be asked
    /// about.
    pub open spec fn inv(&self, report: DirsReport, dups: Seq<DupSet>) -> bool {
        &&& self.rr.wf(dups)
        &&& keeps_every_set(self.rr.staged_removals@, dups)
        &&& self.last is None ==> self.rr.staged_removals@.len() == 0
        &&& forall|k: int| #[trigger]
            is_pending(report, self.last, self.auto_solved, k) ==> untouched(
                report.brotherhoods@[k],
                self.rr.staged_removals@,
            )
    }

    /// A session in which no question is answered yet.
    pub fn new(report: &DirsReport, dups: &[DupSet]) -> (r: Staging)
        requires
            sets_hold_files(dups@),
        ensures
            r.inv(*report, dups@),
            r.last is None,
            !r.auto_solved,
            r.rr.staged_removals@.len() == 0,
            r.rr.staged_dir_removals@.len() == 0,
            r.rr.len_to_remove == 0,
            !r.rr.broken,
            !r.rr.quit,
    {
        let r = Staging { rr: RemovalReport::new(), last: None, auto_solved: false };
        proof {
            let nothing = r.rr.staged_removals@;
            assert forall|s: int| 0 <= s < dups@.len() implies !#[trigger] is_emptied(nothing, dups@, s) by {
                assert(dups@[s].files@.len() > 0);
                assert(!nothing.contains(file_ref(s, 0)));
            }
        }
        r
    }

    /// The question that comes next, if there is one.
    pub fn next(&self, report: &DirsReport) -> (r: Option<Proposal>)
        ensures
            self.rr.quit || self.rr.broken ==> r is None,
            r matches Some(p) ==> {
                &&& is_put(*report, p, self.auto_solved)
                &&& comes_after(*report, self.last, p)
                &&& forall|q: Proposal|
                    #[trigger] is_put(*report, q, self.auto_solved) && comes_after(*report, self.last, q)
                        ==> place(*report, q) >= place(*report, p)
            },
            r is None && !self.rr.quit && !self.rr.broken ==> forall|q: Proposal|
                !(#[trigger] is_put(*report, q, self.auto_solved) && comes_after(*report, self.last, q)),
    {
        ask_on_dirs(report, &self.rr, self.last, self.auto_solved)
    }
}

/// The report is one of `dups`, with sets that hold files: what a staging
/// session starts from.
pub open spec fn is_ground(report: DirsReport, dups: Seq<DupSet>) -> bool {
    &&& report.describes(dups)
    &&& sets_hold_files(dups)
}

impl Staging {
    /// Applies the answer to the question about all solvable brotherhoods,
    /// which is the first question.
    pub fn answer_auto_solve(&mut self, choice: AutoSolveChoice, report: &DirsReport, dups: &[DupSet])
        requires
            is_ground(*report, dups@),
            old(self).inv(*report, dups@),
            old(self).last is None,
        ensures
            final(self).inv(*report, dups@),
            final(self).last == Some(Proposal::AutoSolve),
            final(self).auto_solved == (choice == AutoSolveChoice::Yes),
            final(self).rr.staged_removals@ == (if choice == AutoSolveChoice::Yes {
                stage_all(
                    old(self).rr.staged_removals@,
                    auto_solve_refs(report.brotherhoods@, dups@, report.brotherhoods@.len() as int),
                )
            } else {
                old(self).rr.staged_removals@
            }),
            final(self).rr.quit == (old(self).rr.quit || choice == AutoSolveChoice::Quit),
            final(self).rr.broken == old(self).rr.broken,
            final(self).rr.staged_dir_removals == old(self).rr.staged_dir_removals,
    {
        proof {
            assert(dups@.len() == dups.len());
            report.lemma_describes_fits(dups@);
        }
        let ghost found = report.brotherhoods@;
        let ghost before = self.rr.staged_removals@;
        self.auto_solved = answer_auto_solve(choice, report, dups, &mut self.rr);
        self.last = Some(Proposal::AutoSolve);
        proof {
            let after = self.rr.staged_removals@;
            assert(before =~= Seq::<DupFileRef>::empty());
            if choice == AutoSolveChoice::Yes {
                let refs = auto_solve_refs(found, dups@, found.len() as int);
                lemma_auto_solving_keeps_every_set(found, dups@);
                lemma_auto_solve_refs_are_members(found, dups@, found.len() as int);
                assert forall|k: int| #[trigger]
                    is_pending(*report, self.last, self.auto_solved, k) implies untouched(found[k], after) by {
                    assert forall|r: DupFileRef| #[trigger] is_member(found[k], r) implies !after.contains(
                        r,
                    ) by {
                        lemma_stage_all_keeps(before, refs, r);
                        if refs.contains(r) {
                            let x = choose|x: int| 0 <= x < refs.len() && refs[x] == r;
                            assert(is_solvable_member(found, found.len() as int, refs[x]));
                            let j = choose|j: int|
                                0 <= j < found.len() && (#[trigger] found[j]).is_auto_solvable && is_member(
                                    found[j],
                                    r,
                                );
                            lemma_one_brotherhood(found, dups@, j, k, r);
                        }
                    }
                }
            } else {
                assert forall|k: int| #[trigger]
                    is_pending(*report, self.last, self.auto_solved, k) implies untouched(found[k], after) by {
                    assert forall|r: DupFileRef| #[trigger] is_member(found[k], r) implies !after.contains(
                        r,
                    ) by {}
                }
            }
        }
    }
}

impl Staging {
    /// Applies the answer to the question about the directory of
    /// duplicates at position `k`. Where staging the directory would take
    /// the last files of a set, the question is not put and no answer is
    /// applied: the result tells whether the answer was applied.
    pub fn answer_on_dup_dir(&mut self, k: usize, choice: DupDirChoice, report: &DirsReport, dups: &[DupSet]) -> (applied:
        bool)
        requires
            is_ground(*report, dups@),
            old(self).inv(*report, dups@),
            k < report.dup_dirs@.len(),
            comes_after(*report, old(self).last, Proposal::DupDir(k)),
        ensures
            final(self).inv(*report, dups@),
            final(self).last == Some(Proposal::DupDir(k)),
            final(self).auto_solved == old(self).auto_solved,
            applied == crate::ask::is_safe_to_stage(
                report.dup_dirs@[k as int].files@,
                dups@,
                old(self).rr.staged_removals@,
            ),
            final(self).rr.staged_removals@ == (if applied && choice == DupDirChoice::StageDirectory {
                stage_all(old(self).rr.staged_removals@, report.dup_dirs@[k as int].files@)
            } else {
                old(self).rr.staged_removals@
            }),
            texts(final(self).rr.staged_dir_removals@) == (if applied && choice
                == DupDirChoice::StageDirectory {
                texts(old(self).rr.staged_dir_removals@).push(report.dup_dirs@[k as int].path@)
            } else {
                texts(old(self).rr.staged_dir_removals@)
            }),
            final(self).rr.broken == (old(self).rr.broken || (applied && choice == DupDirChoice::EndStaging)),
            final(self).rr.quit == old(self).rr.quit,
    {
        proof {
            assert(dups@.len() == dups.len());
            report.lemma_describes_fits(dups@);
        }
        let ghost found = report.brotherhoods@;
        let ghost before = self.rr.staged_removals@;
        let ghost last_before = self.last;
        let dup_dir = &report.dup_dirs[k];
        let applied = match ask_on_dup_dir(dup_dir, dups, &self.rr) {
            Some(_) => {
                answer_on_dup_dir(choice, dup_dir, dups, &mut self.rr);
                true
            },
            None => false,
        };
        self.last = Some(Proposal::DupDir(k));
        proof {
            let after = self.rr.staged_removals@;
            let files = dup_dir.files@;
            if applied && choice == DupDirChoice::StageDirectory {
                lemma_staging_a_safe_directory_keeps_every_set(before, files, dups@);
            }
            assert forall|j: int| #[trigger]
                is_pending(*report, self.last, self.auto_solved, j) implies untouched(found[j], after) by {
                assert(is_pending(*report, last_before, self.auto_solved, j));
                assert(untouched(found[j], before));
                assert forall|r: DupFileRef| #[trigger] is_member(found[j], r) implies !after.contains(r) by {
                    if applied && choice == DupDirChoice::StageDirectory {
                        lemma_stage_all_keeps(before, files, r);
                        if files.contains(r) {
                            let x = choose|x: int| 0 <= x < files.len() && files[x] == r;
                            assert(dup_dir.describes(dups@));
                            lemma_refs_in(dups@, dup_dir.path@, dups@.len() as int);
                            lemma_dup_dir_is_no_brotherhood_parent(*report, dups@, k as int, j);
                            assert(found[j].describes(dups@));
                            let m = choose|m: int|
                                0 <= m < found[j].files@.len() && r == file_ref(
                                    found[j].dup_set_idx as int,
                                    #[trigger] found[j].files@[m] as int,
                                );
                            assert(parent_at(dups@, found[j].dup_set_idx as int, found[j].files@[m] as int)
                                == found[j].parent@);
                        }
                    }
                }
            }
        }
        applied
    }

    /// Applies the answer to the question about the brotherhood at position
    /// `k`, which is still to be asked about.
    pub fn answer_on_brotherhood(&mut self, k: usize, choice: BrotherhoodChoice, report: &DirsReport, dups: &[DupSet])
        requires
            is_ground(*report, dups@),
            old(self).inv(*report, dups@),
            is_pending(*report, old(self).last, old(self).auto_solved, k as int),
        ensures
            final(self).inv(*report, dups@),
            final(self).last == Some(Proposal::Brotherhood(k)),
            final(self).auto_solved == old(self).auto_solved,
            final(self).rr.broken == (old(self).rr.broken || choice == BrotherhoodChoice::EndStaging),
            final(self).rr.quit == old(self).rr.quit,
            final(self).rr.staged_dir_removals == old(self).rr.staged_dir_removals,
            final(self).rr.staged_removals@ == stage_all(
                old(self).rr.staged_removals@,
                crate::ask::staged_by(
                    choice,
                    crate::ask::candidates_of(dups@, report.brotherhoods@[k as int]),
                    report.brotherhoods@[k as int],
                ),
            ),
    {
        proof {
            assert(dups@.len() == dups.len());
            report.lemma_describes_fits(dups@);
        }
        let ghost found = report.brotherhoods@;
        let ghost before = self.rr.staged_removals@;
        let ghost last_before = self.last;
        let b = &report.brotherhoods[k];
        let q = ask_on_brotherhood(b, dups);
        answer_on_brotherhood(choice, &q.candidates, b, dups, &mut self.rr);
        self.last = Some(Proposal::Brotherhood(k));
        proof {
            let after = self.rr.staged_removals@;
            let staged_now = crate::ask::staged_by(choice, q.candidates@, *b);
            assert(b.describes(dups@));
            assert(untouched(*b, before));
            match choice {
                BrotherhoodChoice::Keep(number) => {
                    if 1 <= number <= q.candidates@.len() {
                        let kept = q.candidates@[number - 1];
                        assert(q.candidates@.contains(kept));
                        assert(b.files@.contains(kept));
                        let m = choose|m: int| 0 <= m < b.files@.len() && b.files@[m] == kept;
                        assert(is_member(*b, file_ref(b.dup_set_idx as int, b.files@[m] as int)));
                        lemma_keeping_a_brother_keeps_every_set(before, *b, kept, dups@);
                        lemma_others_are_members(*b, kept, b.files@.len() as int);
                    } else {
                        assert(staged_now =~= Seq::<DupFileRef>::empty());
                    }
                },
                _ => {
                    assert(staged_now =~= Seq::<DupFileRef>::empty());
                },
            }
            assert forall|j: int| #[trigger]
                is_pending(*report, self.last, self.auto_solved, j) implies untouched(found[j], after) by {
                assert(is_pending(*report, last_before, self.auto_solved, j));
                assert(untouched(found[j], before));
                assert(j != k);
                assert forall|r: DupFileRef| #[trigger] is_member(found[j], r) implies !after.contains(r) by {
                    lemma_stage_all_keeps(before, staged_now, r);
                    if staged_now.contains(r) {
                        let x = choose|x: int| 0 <= x < staged_now.len() && staged_now[x] == r;
                        assert(is_member(*b, staged_now[x]));
                        lemma_one_brotherhood(found, dups@, j, k as int, r);
                    }
                }
            }
        }
    }

    /// Applies the answer to the question about the pair of directories at
    /// position `k`. Where no pair of files is left of which neither file
    /// is staged, the question is not put and no answer is applied: the
    /// result tells whether the answer was applied.
    pub fn answer_on_dir_pair(&mut self, k: usize, choice: DirPairChoice, report: &DirsReport, dups: &[DupSet]) -> (applied:
        bool)
        requires
            is_ground(*report, dups@),
            old(self).inv(*report, dups@),
            k < report.dir_pairs@.len(),
            comes_after(*report, old(self).last, Proposal::DirPair(k)),
        ensures
            final(self).inv(*report, dups@),
            final(self).last == Some(Proposal::DirPair(k)),
            final(self).auto_solved == old(self).auto_solved,
            applied == (removable_pairs_of(
                report.dir_pairs@[k as int].file_pairs@,
                old(self).rr.staged_removals@,
                report.dir_pairs@[k as int].file_pairs@.len() as int,
            ).len() > 0),
            final(self).rr.staged_removals@ == (if applied {
                stage_all(
                    old(self).rr.staged_removals@,
                    crate::ask::staged_of(
                        choice,
                        removable_pairs_of(
                            report.dir_pairs@[k as int].file_pairs@,
                            old(self).rr.staged_removals@,
                            report.dir_pairs@[k as int].file_pairs@.len() as int,
                        ),
                    ),
                )
            } else {
                old(self).rr.staged_removals@
            }),
            final(self).rr.broken == (old(self).rr.broken || (applied && choice == DirPairChoice::EndStaging)),
            final(self).rr.quit == old(self).rr.quit,
            final(self).rr.staged_dir_removals == old(self).rr.staged_dir_removals,
    {
        proof {
            assert(dups@.len() == dups.len());
            report.lemma_describes_fits(dups@);
        }
        let ghost before = self.rr.staged_removals@;
        let dir_pair = &report.dir_pairs[k];
        let ghost pairs = dir_pair.file_pairs@;
        let applied = match ask_on_dir_pair(dir_pair, dups, &self.rr) {
            Some(q) => {
                proof {
                    assert(dir_pair.describes(dups@));
                    assert forall|i: int| 0 <= i < q.removable_pairs@.len() implies left_of(
                        #[trigger] q.removable_pairs@[i],
                    ).valid(dups@) && right_of(q.removable_pairs@[i]).valid(dups@) by {
                        assert(pairs.contains(q.removable_pairs@[i]));
                        let y = choose|y: int| 0 <= y < pairs.len() && pairs[y] == q.removable_pairs@[i];
                        assert(cross_pair(dups@, pairs[y]));
                    }
                    lemma_staging_one_side_keeps_every_set(before, *dir_pair, dups@);
                    if choice == DirPairChoice::Skip || choice == DirPairChoice::EndStaging {
                        assert(crate::ask::staged_of(choice, q.removable_pairs@) =~= Seq::<DupFileRef>::empty());
                    }
                }
                answer_on_dir_pair(choice, &q.removable_pairs, dups, &mut self.rr);
                true
            },
            None => false,
        };
        self.last = Some(Proposal::DirPair(k));
        applied
    }

    /// However the questions were answered, no set has lost all its files:
    /// the check before the removal passes.
    pub proof fn lemma_no_set_is_emptied(&self, report: DirsReport, dups: Seq<DupSet>)
        requires
            self.inv(report, dups),
        ensures
            forall|s: int| 0 <= s < dups.len() ==> !#[trigger] is_emptied(self.rr.staged_removals@, dups, s),
    {
    }

    /// The staging is over: what was staged, which passes the check that
    /// no set is emptied.
    pub fn finish(self, report: &DirsReport, dups: &[DupSet]) -> (rr: RemovalReport)
        requires
            self.inv(*report, dups@),
        ensures
            rr == self.rr,
            rr.wf(dups@),
            keeps_every_set(rr.staged_removals@, dups@),
    {
        self.rr
    }
}

} // verus!
