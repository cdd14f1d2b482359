//! The staging questions: which question comes next, what each question
//! tells the user, and what each answer stages. Putting the questions to
//! the user is left to the caller.

use vstd::prelude::*;
use crate::copy_name::is_copy_name;
use crate::dirs::{Brotherhood, DirPair, DirsReport, DupDir};
use crate::dup::{file_ref, DupFileRef, DupSet};
use crate::file_pair::FilePair;
use crate::parents::name_at;
use crate::removal_report::{stage_all, staged_bytes, total_len, RemovalReport};
use crate::text::{chars_of, lemma_lex_transitive, lex_less, precedes};

verus! {

/// Up to this many pairs of files, a question about two directories lists
/// the files by name.
pub const MAX_LISTED_FILES: usize = 5;

impl Brotherhood {
    /// The brotherhood points at files of `dups`, and has a member.
    pub open spec fn fits(&self, dups: Seq<DupSet>) -> bool {
        &&& self.dup_set_idx < dups.len()
        &&& self.files@.len() >= 1
        &&& forall|k: int|
            0 <= k < self.files@.len() ==> (#[trigger] self.files@[k]) < dups[self.dup_set_idx as int].files@.len()
    }
}

impl DupDir {
    /// The files of the directory are files of `dups`.
    pub open spec fn fits(&self, dups: Seq<DupSet>) -> bool {
        forall|k: int| 0 <= k < self.files@.len() ==> (#[trigger] self.files@[k]).valid(dups)
    }
}

impl DirPair {
    /// The pairs of files are pairs of files of `dups`.
    pub open spec fn fits(&self, dups: Seq<DupSet>) -> bool {
        forall|k: int|
            0 <= k < self.file_pairs@.len() ==> {
                &&& (#[trigger] self.file_pairs@[k]).dup_set_idx < dups.len()
                &&& self.file_pairs@[k].left_file_idx < dups[self.file_pairs@[k].dup_set_idx as int].files@.len()
                &&& self.file_pairs@[k].right_file_idx < dups[self.file_pairs@[k].dup_set_idx as int].files@.len()
            }
    }
}

impl DirsReport {
    /// All that the report holds points at files of `dups`.
    pub open spec fn fits(&self, dups: Seq<DupSet>) -> bool {
        &&& forall|k: int| 0 <= k < self.dup_dirs@.len() ==> (#[trigger] self.dup_dirs@[k]).fits(dups)
        &&& forall|k: int| 0 <= k < self.brotherhoods@.len() ==> (#[trigger] self.brotherhoods@[k]).fits(dups)
        &&& forall|k: int| 0 <= k < self.dir_pairs@.len() ==> (#[trigger] self.dir_pairs@[k]).fits(dups)
    }

    /// A report of `dups` points at files of `dups`.
    pub proof fn lemma_describes_fits(&self, dups: Seq<DupSet>)
        requires
            self.describes(dups),
            dups.len() <= usize::MAX,
        ensures
            self.fits(dups),
    {
        assert forall|k: int| 0 <= k < self.dup_dirs@.len() implies (#[trigger] self.dup_dirs@[k]).fits(
            dups,
        ) by {
            crate::tally::lemma_refs_in(dups, self.dup_dirs@[k].path@, dups.len() as int);
        }
        assert forall|k: int| 0 <= k < self.brotherhoods@.len() implies (#[trigger] self.brotherhoods@[k]).fits(
            dups,
        ) by {
            assert(self.brotherhoods@[k].describes(dups));
        }
        assert forall|k: int| 0 <= k < self.dir_pairs@.len() implies (#[trigger] self.dir_pairs@[k]).fits(
            dups,
        ) by {
            assert(self.dir_pairs@[k].describes(dups));
        }
    }
}

/// A question of the staging phase.
#[derive(Debug, Clone, Copy, PartialEq, Eq, Structural)]
pub enum Proposal {
    /// Whether to stage, in one go, the copies of all brotherhoods that need
    /// no asking.
    AutoSolve,
    /// What to do with the directory of duplicates at this position.
    DupDir(usize),
    /// What to do with the brotherhood at this position.
    Brotherhood(usize),
    /// What to do with the pair of directories at this position.
    DirPair(usize),
}

/// Whether the question about all solvable brotherhoods is put: it is
/// where there are two of them or more.
pub open spec fn asks_about_auto_solve(report: DirsReport) -> bool {
    report.auto_solvable_brotherhoods_count > 1
}

/// The place of a question in the order of the questions: first the one
/// about the solvable brotherhoods, then the directories of duplicates, the
/// brotherhoods, and the pairs of directories.
pub open spec fn place(report: DirsReport, p: Proposal) -> int {
    match p {
        Proposal::AutoSolve => 0,
        Proposal::DupDir(k) => 1 + k,
        Proposal::Brotherhood(k) => 1 + report.dup_dirs@.len() + k,
        Proposal::DirPair(k) => 1 + report.dup_dirs@.len() + report.brotherhoods@.len() + k,
    }
}

/// Whether the question `p` is put at all. A brotherhood that needs no
/// asking is passed over once the user has let them all be solved.
pub open spec fn is_put(report: DirsReport, p: Proposal, auto_solved: bool) -> bool {
    match p {
        Proposal::AutoSolve => asks_about_auto_solve(report),
        Proposal::DupDir(k) => k < report.dup_dirs@.len(),
        Proposal::Brotherhood(k) => k < report.brotherhoods@.len() && !(auto_solved
            && report.brotherhoods@[k as int].is_auto_solvable),
        Proposal::DirPair(k) => k < report.dir_pairs@.len(),
    }
}

/// The number that the question `p` is shown with. Brotherhoods that are
/// passed over keep their number.
pub open spec fn number_of(report: DirsReport, p: Proposal) -> int {
    if p == Proposal::AutoSolve {
        1
    } else if asks_about_auto_solve(report) {
        place(report, p) + 1
    } else {
        place(report, p)
    }
}

/// How many questions there are at most.
pub open spec fn count_of(report: DirsReport) -> int {
    report.dup_dirs@.len() + report.brotherhoods@.len() + report.dir_pairs@.len() + (if asks_about_auto_solve(
        report,
    ) {
        1int
    } else {
        0int
    })
}

/// How many questions the user is asked at most.
pub fn question_count(report: &DirsReport) -> (n: u128)
    ensures
        n == count_of(*report),
{
    let auto: u128 = if report.auto_solvable_brotherhoods_count > 1 {
        1
    } else {
        0
    };
    report.dup_dirs.len() as u128 + report.brotherhoods.len() as u128 + report.dir_pairs.len() as u128
        + auto
}

/// The number that a question is shown with.
pub fn question_number(report: &DirsReport, p: Proposal) -> (n: u128)
    ensures
        n == number_of(*report, p),
{
    let auto: u128 = if report.auto_solvable_brotherhoods_count > 1 {
        1
    } else {
        0
    };
    match p {
        Proposal::AutoSolve => 1,
        Proposal::DupDir(k) => k as u128 + 1 + auto,
        Proposal::Brotherhood(k) => report.dup_dirs.len() as u128 + k as u128 + 1 + auto,
        Proposal::DirPair(k) => report.dup_dirs.len() as u128 + report.brotherhoods.len() as u128
            + k as u128 + 1 + auto,
    }
}

/// The question `p` comes after the question `last`, or is any question
/// where none was put yet.
pub open spec fn comes_after(report: DirsReport, last: Option<Proposal>, p: Proposal) -> bool {
    match last {
        None => true,
        Some(l) => place(report, p) > place(report, l),
    }
}

/// The position of the first brotherhood from `from` on that is asked
/// about, or the number of brotherhoods where there is none.
fn next_asked_brotherhood(report: &DirsReport, from: usize, auto_solved: bool) -> (k: usize)
    requires
        from <= report.brotherhoods@.len(),
    ensures
        from <= k <= report.brotherhoods@.len(),
        from < k ==> auto_solved,
        forall|j: int| from <= j < k ==> (#[trigger] report.brotherhoods@[j]).is_auto_solvable,
        k < report.brotherhoods@.len() ==> !(auto_solved && report.brotherhoods@[k as int].is_auto_solvable),
{
    let mut k: usize = from;
    if !auto_solved {
        return k;
    }
    while k < report.brotherhoods.len() && report.brotherhoods[k].is_auto_solvable
        invariant
            from <= k <= report.brotherhoods@.len(),
            auto_solved,
            forall|j: int| from <= j < k ==> (#[trigger] report.brotherhoods@[j]).is_auto_solvable,
        decreases report.brotherhoods@.len() - k,
    {
        k += 1;
    }
    k
}

/// Tells which question comes next, after the question `last`, or first
/// where `last` is `None`: the next in order of those that are put. No
/// question comes once the user has ended the staging or given up, nor
/// after the last one. `auto_solved` tells whether the user has let the
/// solvable brotherhoods be solved in one go.
pub fn ask_on_dirs(report: &DirsReport, rr: &RemovalReport, last: Option<Proposal>, auto_solved: bool) -> (r:
    Option<Proposal>)
    ensures
        rr.quit || rr.broken ==> r is None,
        r matches Some(p) ==> {
            &&& is_put(*report, p, auto_solved)
            &&& comes_after(*report, last, p)
            &&& forall|q: Proposal|
                #[trigger] is_put(*report, q, auto_solved) && comes_after(*report, last, q) ==> place(
                    *report,
                    q,
                ) >= place(*report, p)
        },
        r is None && !rr.quit && !rr.broken ==> forall|q: Proposal|
            !(#[trigger] is_put(*report, q, auto_solved) && comes_after(*report, last, q)),
{
    if rr.quit || rr.broken {
        return None;
    }
    let dup_dirs: u128 = report.dup_dirs.len() as u128;
    let brotherhoods: u128 = report.brotherhoods.len() as u128;
    let dir_pairs: u128 = report.dir_pairs.len() as u128;
    // the first place that may come
    let start: u128 = match last {
        None => 0,
        Some(Proposal::AutoSolve) => 1,
        Some(Proposal::DupDir(k)) => k as u128 + 2,
        Some(Proposal::Brotherhood(k)) => dup_dirs + k as u128 + 2,
        Some(Proposal::DirPair(k)) => dup_dirs + brotherhoods + k as u128 + 2,
    };
    assert(forall|q: Proposal| comes_after(*report, last, q) <==> place(*report, q) >= start);
    if start == 0 && report.auto_solvable_brotherhoods_count > 1 {
        return Some(Proposal::AutoSolve);
    }
    let first_dir: u128 = if start > 1 {
        start - 1
    } else {
        0
    };
    if first_dir < dup_dirs {
        return Some(Proposal::DupDir(first_dir as usize));
    }
    let first_brotherhood: u128 = if start > 1 + dup_dirs {
        start - 1 - dup_dirs
    } else {
        0
    };
    let from: usize = if first_brotherhood < brotherhoods {
        first_brotherhood as usize
    } else {
        report.brotherhoods.len()
    };
    let k = next_asked_brotherhood(report, from, auto_solved);
    if k < report.brotherhoods.len() {
        proof {
            let p = Proposal::Brotherhood(k);
            assert forall|q: Proposal|
                #[trigger] is_put(*report, q, auto_solved) && comes_after(*report, last, q) implies place(
                *report,
                q,
            ) >= place(*report, p) by {
                if q is Brotherhood {
                    let j = q->Brotherhood_0;
                    if from <= j && j < k {
                        assert(auto_solved && report.brotherhoods@[j as int].is_auto_solvable);
                    }
                }
            }
        }
        return Some(Proposal::Brotherhood(k));
    }
    let first_pair: u128 = if start > 1 + dup_dirs + brotherhoods {
        start - 1 - dup_dirs - brotherhoods
    } else {
        0
    };
    if first_pair < dir_pairs {
        proof {
            let p = Proposal::DirPair(first_pair as usize);
            assert forall|q: Proposal|
                #[trigger] is_put(*report, q, auto_solved) && comes_after(*report, last, q) implies place(
                *report,
                q,
            ) >= place(*report, p) by {
                if q is Brotherhood {
                    let j = q->Brotherhood_0;
                    if from <= j && j < k {
                        assert(auto_solved && report.brotherhoods@[j as int].is_auto_solvable);
                    }
                }
            }
        }
        return Some(Proposal::DirPair(first_pair as usize));
    }
    proof {
        assert forall|q: Proposal|
            !(#[trigger] is_put(*report, q, auto_solved) && comes_after(*report, last, q)) by {
            if q is Brotherhood {
                let j = q->Brotherhood_0;
                if from <= j && j < k {
                    assert(auto_solved && report.brotherhoods@[j as int].is_auto_solvable);
                }
            }
        }
    }
    None
}

/// The question about the brotherhood at position `k` lies between the
/// question `last` and the question `next`: after the one and, where
/// `next` is a question, before the other.
pub open spec fn lies_between(report: DirsReport, last: Option<Proposal>, next: Option<Proposal>, k: int) -> bool {
    &&& comes_after(report, last, Proposal::Brotherhood(k as usize))
    &&& next matches Some(n) ==> place(report, Proposal::Brotherhood(k as usize)) < place(report, n)
}

/// The positions of the brotherhoods among the first `n` whose questions
/// lie between the questions `last` and `next`, in rising order.
pub open spec fn passed_over_upto(report: DirsReport, last: Option<Proposal>, next: Option<Proposal>, n: int) -> Seq<
    usize,
>
    decreases n,
{
    if n <= 0 {
        Seq::empty()
    } else if lies_between(report, last, next, n - 1) {
        passed_over_upto(report, last, next, n - 1).push((n - 1) as usize)
    } else {
        passed_over_upto(report, last, next, n - 1)
    }
}

/// Tells which brotherhoods are passed over between the question `last`
/// and the question `next` that `ask_on_dirs` gave after it: those of which
/// the user is spared the question.
pub fn passed_over(report: &DirsReport, last: Option<Proposal>, next: Option<Proposal>) -> (r: Vec<usize>)
    ensures
        r@ == passed_over_upto(*report, last, next, report.brotherhoods@.len() as int),
{
    let dup_dirs: u128 = report.dup_dirs.len() as u128;
    let brotherhoods: u128 = report.brotherhoods.len() as u128;
    // the first place that may lie between, and the first that does not
    let start: u128 = match last {
        None => 0,
        Some(Proposal::AutoSolve) => 1,
        Some(Proposal::DupDir(k)) => k as u128 + 2,
        Some(Proposal::Brotherhood(k)) => dup_dirs + k as u128 + 2,
        Some(Proposal::DirPair(k)) => dup_dirs + brotherhoods + k as u128 + 2,
    };
    let end: Option<u128> = match next {
        None => None,
        Some(Proposal::AutoSolve) => Some(0),
        Some(Proposal::DupDir(k)) => Some(k as u128 + 1),
        Some(Proposal::Brotherhood(k)) => Some(dup_dirs + k as u128 + 1),
        Some(Proposal::DirPair(k)) => Some(dup_dirs + brotherhoods + k as u128 + 1),
    };
    let mut passed: Vec<usize> = Vec::new();
    let mut k: usize = 0;
    while k < report.brotherhoods.len()
        invariant
            k <= report.brotherhoods@.len(),
            dup_dirs == report.dup_dirs@.len(),
            dup_dirs <= usize::MAX,
            forall|j: int|
                0 <= j < report.brotherhoods@.len() ==> (#[trigger] lies_between(*report, last, next, j) <==> (
                1 + dup_dirs + j >= start && (end matches Some(e) ==> 1 + dup_dirs + j < e))),
            passed@ == passed_over_upto(*report, last, next, k as int),
        decreases report.brotherhoods@.len() - k,
    {
        let here: u128 = 1 + dup_dirs + k as u128;
        let before_end = match end {
            Some(e) => here < e,
            None => true,
        };
        assert(lies_between(*report, last, next, k as int) <==> (here >= start && before_end));
        if here >= start && before_end {
            passed.push(k);
        }
        k += 1;
    }
    passed
}

/// What the user answers to the question about all solvable brotherhoods.
#[derive(Debug, Clone, Copy, PartialEq, Eq, Structural)]
pub enum AutoSolveChoice {
    /// Stage the copies.
    Yes,
    /// Ask about each brotherhood.
    No,
    /// End the staging and give up.
    Quit,
}

/// What the question about all solvable brotherhoods tells the user.
#[derive(Debug)]
pub struct AutoSolveQuestion {
    /// How many files would be staged.
    pub file_count: usize,
    /// How many bytes that would free.
    pub size: u128,
    /// How many questions the user is spared.
    pub skippable_questions: usize,
    /// A copy from each of the first two solvable brotherhoods.
    pub examples: Vec<DupFileRef>,
}

/// The members of a brotherhood among its first `n` that have the name of a
/// copy, in the order of the members.
pub open spec fn copies_of(dups: Seq<DupSet>, b: Brotherhood, n: int) -> Seq<DupFileRef>
    decreases n,
{
    if n <= 0 {
        Seq::empty()
    } else if is_copy_name(name_at(dups, b.dup_set_idx as int, b.files@[n - 1] as int)) {
        copies_of(dups, b, n - 1).push(file_ref(b.dup_set_idx as int, b.files@[n - 1] as int))
    } else {
        copies_of(dups, b, n - 1)
    }
}

/// All the copies of a brotherhood.
pub open spec fn all_copies_of(dups: Seq<DupSet>, b: Brotherhood) -> Seq<DupFileRef> {
    copies_of(dups, b, b.files@.len() as int)
}

/// The copies of the solvable brotherhoods among the first `n`, brotherhood
/// after brotherhood.
pub open spec fn auto_solve_refs(found: Seq<Brotherhood>, dups: Seq<DupSet>, n: int) -> Seq<DupFileRef>
    decreases n,
{
    if n <= 0 {
        Seq::empty()
    } else if found[n - 1].is_auto_solvable {
        auto_solve_refs(found, dups, n - 1) + all_copies_of(dups, found[n - 1])
    } else {
        auto_solve_refs(found, dups, n - 1)
    }
}

/// The examples shown with the question: the first copy of each of the
/// first two solvable brotherhoods among the first `n` that have a copy.
pub open spec fn auto_solve_examples(found: Seq<Brotherhood>, dups: Seq<DupSet>, n: int) -> Seq<DupFileRef>
    decreases n,
{
    if n <= 0 {
        Seq::empty()
    } else {
        let before = auto_solve_examples(found, dups, n - 1);
        if before.len() < 2 && found[n - 1].is_auto_solvable && all_copies_of(dups, found[n - 1]).len() > 0 {
            before.push(all_copies_of(dups, found[n - 1])[0])
        } else {
            before
        }
    }
}

/// The first member of a brotherhood that has the name of a copy.
fn first_copy(b: &Brotherhood, dups: &[DupSet]) -> (r: Option<DupFileRef>)
    requires
        b.fits(dups@),
    ensures
        r is Some <==> all_copies_of(dups@, *b).len() > 0,
        r matches Some(c) ==> c == all_copies_of(dups@, *b)[0],
{
    let mut k: usize = 0;
    while k < b.files.len()
        invariant
            k <= b.files@.len(),
            b.fits(dups@),
            copies_of(dups@, *b, k as int).len() == 0,
        decreases b.files@.len() - k,
    {
        let member = b.file_ref(k);
        if member.is_copy_named(dups) {
            proof {
                lemma_copies_grow(dups@, *b, k + 1, b.files@.len() as int);
            }
            return Some(member);
        }
        k += 1;
    }
    None
}

/// The copies among more members start with the copies among fewer.
proof fn lemma_copies_grow(dups: Seq<DupSet>, b: Brotherhood, n: int, m: int)
    requires
        0 <= n <= m,
    ensures
        copies_of(dups, b, n).len() <= copies_of(dups, b, m).len(),
        forall|x: int| 0 <= x < copies_of(dups, b, n).len() ==> copies_of(dups, b, m)[x] == copies_of(dups, b, n)[x],
    decreases m - n,
{
    if n < m {
        lemma_copies_grow(dups, b, n, m - 1);
    }
}

/// The files that the answer "yes" to the question about all solvable
/// brotherhoods stages: the copies of those brotherhoods.
pub fn auto_solve_copies(report: &DirsReport, dups: &[DupSet]) -> (r: Vec<DupFileRef>)
    requires
        report.fits(dups@),
    ensures
        r@ == auto_solve_refs(report.brotherhoods@, dups@, report.brotherhoods@.len() as int),
        forall|i: int| 0 <= i < r@.len() ==> (#[trigger] r@[i]).valid(dups@),
{
    let ghost found = report.brotherhoods@;
    let mut refs: Vec<DupFileRef> = Vec::new();
    let mut k: usize = 0;
    while k < report.brotherhoods.len()
        invariant
            k <= found.len(),
            found == report.brotherhoods@,
            report.fits(dups@),
            refs@ == auto_solve_refs(found, dups@, k as int),
            forall|i: int| 0 <= i < refs@.len() ==> (#[trigger] refs@[i]).valid(dups@),
        decreases found.len() - k,
    {
        let b = &report.brotherhoods[k];
        assert(b.fits(dups@));
        if b.is_auto_solvable {
            let ghost before = refs@;
            let mut m: usize = 0;
            while m < b.files.len()
                invariant
                    m <= b.files@.len(),
                    b.fits(dups@),
                    refs@ == before + copies_of(dups@, *b, m as int),
                    forall|i: int| 0 <= i < refs@.len() ==> (#[trigger] refs@[i]).valid(dups@),
                decreases b.files@.len() - m,
            {
                let member = b.file_ref(m);
                if member.is_copy_named(dups) {
                    refs.push(member);
                }
                m += 1;
            }
        }
        k += 1;
    }
    refs
}

/// Tells what the question about all solvable brotherhoods shows: how many
/// files would be staged, the bytes that frees, the questions spared, and
/// two examples.
pub fn ask_auto_solve(report: &DirsReport, dups: &[DupSet]) -> (q: AutoSolveQuestion)
    requires
        report.fits(dups@),
    ensures
        q.file_count == auto_solve_refs(report.brotherhoods@, dups@, report.brotherhoods@.len() as int).len(),
        q.size == staged_bytes(
            auto_solve_refs(report.brotherhoods@, dups@, report.brotherhoods@.len() as int),
            dups@,
        ),
        q.skippable_questions == crate::dirs::auto_solvable_count(report.brotherhoods@),
        q.examples@ == auto_solve_examples(report.brotherhoods@, dups@, report.brotherhoods@.len() as int),
{
    let ghost found = report.brotherhoods@;
    let copies = auto_solve_copies(report, dups);
    let size = total_len(&copies, dups);
    let mut skippable_questions: usize = 0;
    let mut examples: Vec<DupFileRef> = Vec::new();
    let mut k: usize = 0;
    while k < report.brotherhoods.len()
        invariant
            k <= found.len(),
            found == report.brotherhoods@,
            report.fits(dups@),
            skippable_questions == crate::dirs::auto_solvable_count(found.take(k as int)),
            skippable_questions <= k,
            examples@ == auto_solve_examples(found, dups@, k as int),
        decreases found.len() - k,
    {
        let b = &report.brotherhoods[k];
        assert(b.fits(dups@));
        proof {
            assert(found.take(k + 1).drop_last() == found.take(k as int));
        }
        if b.is_auto_solvable {
            skippable_questions += 1;
            if examples.len() < 2 {
                match first_copy(b, dups) {
                    Some(c) => {
                        examples.push(c);
                    },
                    None => {},
                }
            }
        }
        k += 1;
    }
    proof {
        assert(found.take(k as int) == found);
    }
    AutoSolveQuestion { file_count: copies.len(), size, skippable_questions, examples }
}

/// Applies the answer to the question about all solvable brotherhoods, and
/// tells whether they are solved now. "Yes" stages their copies; "quit"
/// ends the staging with nothing to remove.
pub fn answer_auto_solve(choice: AutoSolveChoice, report: &DirsReport, dups: &[DupSet], rr: &mut RemovalReport) -> (solved:
    bool)
    requires
        report.fits(dups@),
        old(rr).wf(dups@),
    ensures
        final(rr).wf(dups@),
        solved == (choice == AutoSolveChoice::Yes),
        final(rr).staged_removals@ == (if choice == AutoSolveChoice::Yes {
            stage_all(
                old(rr).staged_removals@,
                auto_solve_refs(report.brotherhoods@, dups@, report.brotherhoods@.len() as int),
            )
        } else {
            old(rr).staged_removals@
        }),
        final(rr).quit == (old(rr).quit || choice == AutoSolveChoice::Quit),
        final(rr).broken == old(rr).broken,
        final(rr).staged_dir_removals == old(rr).staged_dir_removals,
{
    match choice {
        AutoSolveChoice::Yes => {
            let copies = auto_solve_copies(report, dups);
            stage_files(rr, &copies, dups);
            true
        },
        AutoSolveChoice::No => false,
        AutoSolveChoice::Quit => {
            rr.quit = true;
            false
        },
    }
}

/// Stages the files `refs`, one after the other.
pub fn stage_files(rr: &mut RemovalReport, refs: &Vec<DupFileRef>, dups: &[DupSet])
    requires
        old(rr).wf(dups@),
        forall|i: int| 0 <= i < refs@.len() ==> (#[trigger] refs@[i]).valid(dups@),
    ensures
        final(rr).wf(dups@),
        final(rr).staged_removals@ == stage_all(old(rr).staged_removals@, refs@),
        final(rr).staged_dir_removals == old(rr).staged_dir_removals,
        final(rr).broken == old(rr).broken,
        final(rr).quit == old(rr).quit,
{
    let mut i: usize = 0;
    while i < refs.len()
        invariant
            i <= refs@.len(),
            rr.wf(dups@),
            forall|i: int| 0 <= i < refs@.len() ==> (#[trigger] refs@[i]).valid(dups@),
            rr.staged_removals@ == stage_all(old(rr).staged_removals@, refs@.take(i as int)),
            rr.staged_dir_removals == old(rr).staged_dir_removals,
            rr.broken == old(rr).broken,
            rr.quit == old(rr).quit,
        decreases refs@.len() - i,
    {
        proof {
            assert(refs@.take(i + 1).drop_last() == refs@.take(i as int));
        }
        rr.stage_file(refs[i], dups);
        i += 1;
    }
    proof {
        assert(refs@.take(i as int) == refs@);
    }
}

/// What the user answers to the question about a directory of duplicates.
#[derive(Debug, Clone, Copy, PartialEq, Eq, Structural)]
pub enum DupDirChoice {
    /// Stage the whole directory for removal.
    StageDirectory,
    /// Go to the next question.
    Skip,
    /// End the staging.
    EndStaging,
}

/// What the question about a directory of duplicates tells the user.
#[derive(Debug)]
pub struct DupDirQuestion {
    /// How many files the directory holds.
    pub file_count: usize,
    /// How many bytes its removal frees.
    pub size: u128,
}

/// Set `s` has a file that is neither staged nor one of `files`.
pub open spec fn leaves_a_file(files: Seq<DupFileRef>, dups: Seq<DupSet>, staged: Seq<DupFileRef>, s: int) -> bool {
    exists|i: int|
        0 <= i < dups[s].files@.len() && !staged.contains(#[trigger] file_ref(s, i)) && !files.contains(
            file_ref(s, i),
        )
}

/// Staging the files `files` leaves a file of each set that they are taken
/// from.
pub open spec fn is_safe_to_stage(files: Seq<DupFileRef>, dups: Seq<DupSet>, staged: Seq<DupFileRef>) -> bool {
    forall|k: int|
        0 <= k < files.len() ==> leaves_a_file(files, dups, staged, (#[trigger] files[k]).dup_set_idx as int)
}

/// Whether `r` is among `refs`.
pub fn contains_ref(refs: &Vec<DupFileRef>, r: DupFileRef) -> (res: bool)
    ensures
        res == refs@.contains(r),
{
    let mut k: usize = 0;
    while k < refs.len()
        invariant
            k <= refs@.len(),
            forall|j: int| 0 <= j < k ==> refs@[j] != r,
        decreases refs@.len() - k,
    {
        if refs[k].dup_set_idx == r.dup_set_idx && refs[k].dup_file_idx == r.dup_file_idx {
            return true;
        }
        k += 1;
    }
    false
}

/// Whether set `s` has a file that is neither staged nor one of `files`.
fn set_keeps_a_file(files: &Vec<DupFileRef>, dups: &[DupSet], rr: &RemovalReport, s: usize) -> (r: bool)
    requires
        rr.staged_removals.wf(),
        s < dups@.len(),
    ensures
        r == leaves_a_file(files@, dups@, rr.staged_removals@, s as int),
{
    let n = dups[s].files.len();
    let mut i: usize = 0;
    while i < n
        invariant
            i <= n,
            s < dups@.len(),
            n == dups@[s as int].files@.len(),
            rr.staged_removals.wf(),
            forall|x: int|
                0 <= x < i ==> rr.staged_removals@.contains(#[trigger] file_ref(s as int, x))
                    || files@.contains(file_ref(s as int, x)),
        decreases n - i,
    {
        let file = DupFileRef { dup_set_idx: s, dup_file_idx: i };
        if !rr.staged_removals.contains(file) && !contains_ref(files, file) {
            proof {
                assert(!rr.staged_removals@.contains(file_ref(s as int, i as int)));
            }
            return true;
        }
        i += 1;
    }
    false
}

/// Tells what the question about a directory of duplicates shows, or
/// `None` where the question is not to be put: where staging the directory
/// would take the last files of a set.
pub fn ask_on_dup_dir(dup_dir: &DupDir, dups: &[DupSet], rr: &RemovalReport) -> (r: Option<DupDirQuestion>)
    requires
        dup_dir.fits(dups@),
        rr.staged_removals.wf(),
    ensures
        r is Some <==> is_safe_to_stage(dup_dir.files@, dups@, rr.staged_removals@),
        r matches Some(q) ==> q.file_count == dup_dir.files@.len() && q.size == staged_bytes(
            dup_dir.files@,
            dups@,
        ),
{
    let mut k: usize = 0;
    while k < dup_dir.files.len()
        invariant
            k <= dup_dir.files@.len(),
            dup_dir.fits(dups@),
            rr.staged_removals.wf(),
            forall|x: int|
                0 <= x < k ==> leaves_a_file(
                    dup_dir.files@,
                    dups@,
                    rr.staged_removals@,
                    (#[trigger] dup_dir.files@[x]).dup_set_idx as int,
                ),
        decreases dup_dir.files@.len() - k,
    {
        assert(dup_dir.files@[k as int].valid(dups@));
        if !set_keeps_a_file(&dup_dir.files, dups, rr, dup_dir.files[k].dup_set_idx) {
            return None;
        }
        k += 1;
    }
    Some(DupDirQuestion { file_count: dup_dir.files.len(), size: total_len(&dup_dir.files, dups) })
}

/// Applies the answer to the question about a directory of duplicates:
/// staging stages every file of the directory and the directory itself.
pub fn answer_on_dup_dir(choice: DupDirChoice, dup_dir: &DupDir, dups: &[DupSet], rr: &mut RemovalReport)
    requires
        dup_dir.fits(dups@),
        old(rr).wf(dups@),
    ensures
        final(rr).wf(dups@),
        final(rr).staged_removals@ == (if choice == DupDirChoice::StageDirectory {
            stage_all(old(rr).staged_removals@, dup_dir.files@)
        } else {
            old(rr).staged_removals@
        }),
        crate::text::texts(final(rr).staged_dir_removals@) == (if choice == DupDirChoice::StageDirectory {
            crate::text::texts(old(rr).staged_dir_removals@).push(dup_dir.path@)
        } else {
            crate::text::texts(old(rr).staged_dir_removals@)
        }),
        final(rr).broken == (old(rr).broken || choice == DupDirChoice::EndStaging),
        final(rr).quit == old(rr).quit,
{
    match choice {
        DupDirChoice::StageDirectory => {
            rr.stage_directory(dup_dir.path.as_str(), &dup_dir.files, dups);
        },
        DupDirChoice::Skip => {},
        DupDirChoice::EndStaging => {
            rr.broken = true;
        },
    }
}

/// What the user answers to the question about a brotherhood.
#[derive(Debug, Clone, Copy, PartialEq, Eq, Structural)]
pub enum BrotherhoodChoice {
    /// Keep the file with this number in the list of the question, counted
    /// from one, and stage the others.
    Keep(usize),
    /// Go to the next question.
    Skip,
    /// End the staging.
    EndStaging,
}

/// What the question about a brotherhood tells the user.
#[derive(Debug)]
pub struct BrotherhoodQuestion {
    /// How many identical files the directory holds.
    pub file_count: usize,
    /// The length of each.
    pub file_len: u64,
    /// The files that can be kept, by their position in the set, in the
    /// order of their names.
    pub candidates: Vec<usize>,
}

/// The files of set `s` at the positions `c` come in the order of their
/// names.
pub open spec fn by_name(dups: Seq<DupSet>, s: int, c: Seq<usize>) -> bool {
    forall|i: int, j: int|
        0 <= i < j < c.len() ==> !lex_less(
            name_at(dups, s, #[trigger] c[j] as int),
            name_at(dups, s, #[trigger] c[i] as int),
        )
}

/// `c` holds the positions `files`, in some order.
pub open spec fn same_members(c: Seq<usize>, files: Seq<usize>) -> bool {
    &&& c.len() == files.len()
    &&& forall|m: usize| c.contains(m) <==> files.contains(m)
    &&& files.no_duplicates() ==> c.no_duplicates()
}

/// Where the file at position `m` of set `s` goes among the files `c`, which
/// are in the order of their names, when looked for from `from` on: before
/// the first file whose name comes after its own.
pub open spec fn place_by_name(dups: Seq<DupSet>, s: int, c: Seq<usize>, m: usize, from: int) -> int
    decreases c.len() - from,
{
    if from < 0 || from >= c.len() || lex_less(name_at(dups, s, m as int), name_at(dups, s, c[from] as int)) {
        from
    } else {
        place_by_name(dups, s, c, m, from + 1)
    }
}

/// The first `n` of the files `files` of set `s` in the order of their
/// names; files with the same name keep the order they have.
pub open spec fn name_order(dups: Seq<DupSet>, s: int, files: Seq<usize>, n: int) -> Seq<usize>
    decreases n,
{
    if n <= 0 {
        Seq::empty()
    } else {
        let fewer = name_order(dups, s, files, n - 1);
        fewer.insert(place_by_name(dups, s, fewer, files[n - 1], 0), files[n - 1])
    }
}

/// The list that the question about a brotherhood shows: its files in the
/// order of their names.
pub open spec fn candidates_of(dups: Seq<DupSet>, b: Brotherhood) -> Seq<usize> {
    name_order(dups, b.dup_set_idx as int, b.files@, b.files@.len() as int)
}

/// Tells what the question about a brotherhood shows: the number of files,
/// their length, and the files in the order of their names. Files with the
/// same name keep the order they have in the brotherhood.
pub fn ask_on_brotherhood(brotherhood: &Brotherhood, dups: &[DupSet]) -> (q: BrotherhoodQuestion)
    requires
        brotherhood.fits(dups@),
    ensures
        q.file_count == brotherhood.files@.len(),
        q.file_len == dups@[brotherhood.dup_set_idx as int].file_len,
        q.candidates@ == candidates_of(dups@, *brotherhood),
        same_members(q.candidates@, brotherhood.files@),
        by_name(dups@, brotherhood.dup_set_idx as int, q.candidates@),
{
    let s = brotherhood.dup_set_idx;
    let ghost files = brotherhood.files@;
    let mut candidates: Vec<usize> = Vec::new();
    let mut names: Vec<Vec<char>> = Vec::new();
    let mut k: usize = 0;
    while k < brotherhood.files.len()
        invariant
            k <= files.len(),
            files == brotherhood.files@,
            s == brotherhood.dup_set_idx,
            brotherhood.fits(dups@),
            candidates@.len() == k,
            candidates@ == name_order(dups@, s as int, files, k as int),
            names@.len() == k,
            forall|i: int|
                0 <= i < k ==> (#[trigger] candidates@[i]) < dups@[s as int].files@.len() && names@[i]@
                    == name_at(dups@, s as int, candidates@[i] as int),
            forall|m: usize| candidates@.contains(m) <==> files.take(k as int).contains(m),
            files.take(k as int).no_duplicates() ==> candidates@.no_duplicates(),
            by_name(dups@, s as int, candidates@),
        decreases files.len() - k,
    {
        let member = brotherhood.files[k];
        let name = chars_of(dups[s].files[member].name.as_str());
        let mut at: usize = 0;
        while at < candidates.len() && !precedes(&name, &names[at])
            invariant
                at <= candidates@.len(),
                names@.len() == candidates@.len(),
                name@ == name_at(dups@, s as int, member as int),
                forall|i: int|
                    0 <= i < candidates@.len() ==> (#[trigger] names@[i])@ == name_at(
                        dups@,
                        s as int,
                        candidates@[i] as int,
                    ),
                forall|i: int| 0 <= i < at ==> !lex_less(name@, (#[trigger] names@[i])@),
                place_by_name(dups@, s as int, candidates@, member, 0) == place_by_name(
                    dups@,
                    s as int,
                    candidates@,
                    member,
                    at as int,
                ),
            decreases candidates@.len() - at,
        {
            at += 1;
        }
        assert(place_by_name(dups@, s as int, candidates@, member, 0) == at);
        let ghost before = candidates@;
        let ghost names_before = names@;
        candidates.insert(at, member);
        names.insert(at, name);
        proof {
            let after = candidates@;
            assert forall|i: int| 0 <= i < after.len() implies (#[trigger] after[i]) < dups@[s as int].files@.len()
                && names@[i]@ == name_at(dups@, s as int, after[i] as int) by {
                if i < at {
                    assert(after[i] == before[i]);
                } else if i > at {
                    assert(after[i] == before[i - 1]);
                    assert(names@[i] == names_before[i - 1]);
                }
            }
            assert forall|i: int, j: int| 0 <= i < j < after.len() implies !lex_less(
                name_at(dups@, s as int, #[trigger] after[j] as int),
                name_at(dups@, s as int, #[trigger] after[i] as int),
            ) by {
                let ni = name_at(dups@, s as int, after[i] as int);
                let nj = name_at(dups@, s as int, after[j] as int);
                if j == at {
                    assert(after[i] == before[i]);
                    assert(names_before[i]@ == ni);
                } else if i == at {
                    assert(after[j] == before[j - 1]);
                    // the new name comes before the name at `at`, which is
                    // not after the name at `j`
                    assert(names_before[at as int]@ == name_at(dups@, s as int, before[at as int] as int));
                    if lex_less(nj, ni) {
                        lemma_lex_transitive(nj, ni, names_before[at as int]@);
                        if j - 1 > at {
                            assert(!lex_less(
                                name_at(dups@, s as int, before[j - 1] as int),
                                name_at(dups@, s as int, before[at as int] as int),
                            ));
                        } else {
                            crate::text::lemma_lex_total(nj, nj);
                        }
                    }
                } else {
                    let bi = if i < at { i } else { i - 1 };
                    let bj = if j < at { j } else { j - 1 };
                    assert(after[i] == before[bi] && after[j] == before[bj]);
                }
            }
            let shorter = files.take(k as int);
            let longer = files.take(k + 1);
            assert(longer == shorter.push(member));
            assert forall|m: usize| after.contains(m) <==> longer.contains(m) by {
                if after.contains(m) {
                    let i = choose|i: int| 0 <= i < after.len() && after[i] == m;
                    if i < at {
                        assert(before[i] == m);
                    } else if i > at {
                        assert(before[i - 1] == m);
                    }
                    if m == member {
                        assert(longer[k as int] == m);
                    } else {
                        assert(before.contains(m));
                        let x = choose|x: int| 0 <= x < shorter.len() && shorter[x] == m;
                        assert(longer[x] == m);
                    }
                }
                if longer.contains(m) {
                    let x = choose|x: int| 0 <= x < longer.len() && longer[x] == m;
                    if x == k {
                        assert(after[at as int] == m);
                    } else {
                        assert(shorter[x] == m);
                        assert(before.contains(m));
                        let i = choose|i: int| 0 <= i < before.len() && before[i] == m;
                        if i < at {
                            assert(after[i] == m);
                        } else {
                            assert(after[i + 1] == m);
                        }
                    }
                }
            }
            if longer.no_duplicates() {
                assert forall|x: int, y: int|
                    0 <= x < shorter.len() && 0 <= y < shorter.len() && x != y implies shorter[x]
                    != shorter[y] by {
                    assert(longer[x] != longer[y]);
                }
                assert(!before.contains(member)) by {
                    if shorter.contains(member) {
                        let x = choose|x: int| 0 <= x < shorter.len() && shorter[x] == member;
                        assert(longer[x] == longer[k as int]);
                    }
                }
                assert forall|i: int, j: int| 0 <= i < after.len() && 0 <= j < after.len() && i != j implies after[i]
                    != after[j] by {
                    let bi = if i < at { i } else { i - 1 };
                    let bj = if j < at { j } else { j - 1 };
                    if i != at && j != at {
                        assert(after[i] == before[bi] && after[j] == before[bj]);
                    } else if i == at {
                        assert(after[j] == before[bj]);
                        assert(before.contains(before[bj]));
                    } else {
                        assert(after[i] == before[bi]);
                        assert(before.contains(before[bi]));
                    }
                }
            }
        }
        k += 1;
    }
    proof {
        assert(files.take(k as int) == files);
    }
    BrotherhoodQuestion { file_count: brotherhood.files.len(), file_len: dups[s].file_len, candidates }
}

/// The members of a brotherhood among its first `n` other than the file at
/// position `kept` of the set, in the order of the members.
pub open spec fn others_of(b: Brotherhood, kept: usize, n: int) -> Seq<DupFileRef>
    decreases n,
{
    if n <= 0 {
        Seq::empty()
    } else if b.files@[n - 1] != kept {
        others_of(b, kept, n - 1).push(file_ref(b.dup_set_idx as int, b.files@[n - 1] as int))
    } else {
        others_of(b, kept, n - 1)
    }
}

/// The files that an answer to the question about a brotherhood stages:
/// for a number of the list, all members but the file with that number;
/// else none.
pub open spec fn staged_by(choice: BrotherhoodChoice, candidates: Seq<usize>, b: Brotherhood) -> Seq<DupFileRef> {
    match choice {
        BrotherhoodChoice::Keep(number) => if 1 <= number <= candidates.len() {
            others_of(b, candidates[number - 1], b.files@.len() as int)
        } else {
            Seq::empty()
        },
        _ => Seq::empty(),
    }
}

/// Applies the answer to the question about a brotherhood. `candidates` is
/// the list that the question showed. Keeping a file stages all the other
/// members; a number that is not in the list stages nothing.
pub fn answer_on_brotherhood(
    choice: BrotherhoodChoice,
    candidates: &Vec<usize>,
    brotherhood: &Brotherhood,
    dups: &[DupSet],
    rr: &mut RemovalReport,
)
    requires
        brotherhood.fits(dups@),
        old(rr).wf(dups@),
    ensures
        final(rr).wf(dups@),
        final(rr).staged_removals@ == stage_all(
            old(rr).staged_removals@,
            staged_by(choice, candidates@, *brotherhood),
        ),
        final(rr).staged_dir_removals == old(rr).staged_dir_removals,
        final(rr).broken == (old(rr).broken || choice == BrotherhoodChoice::EndStaging),
        final(rr).quit == old(rr).quit,
{
    match choice {
        BrotherhoodChoice::Skip => {},
        BrotherhoodChoice::EndStaging => {
            rr.broken = true;
        },
        BrotherhoodChoice::Keep(number) => {
            if 1 <= number && number <= candidates.len() {
                let kept = candidates[number - 1];
                let mut others: Vec<DupFileRef> = Vec::new();
                let mut m: usize = 0;
                while m < brotherhood.files.len()
                    invariant
                        m <= brotherhood.files@.len(),
                        brotherhood.fits(dups@),
                        others@ == others_of(*brotherhood, kept, m as int),
                        forall|i: int| 0 <= i < others@.len() ==> (#[trigger] others@[i]).valid(dups@),
                    decreases brotherhood.files@.len() - m,
                {
                    if brotherhood.files[m] != kept {
                        others.push(brotherhood.file_ref(m));
                    }
                    m += 1;
                }
                stage_files(rr, &others, dups);
            }
        },
    }
}

/// What the user answers to the question about a pair of directories.
#[derive(Debug, Clone, Copy, PartialEq, Eq, Structural)]
pub enum DirPairChoice {
    /// Stage the files of the left directory.
    StageLeft,
    /// Stage the files of the right directory.
    StageRight,
    /// Go to the next question.
    Skip,
    /// End the staging.
    EndStaging,
}

/// What the question about a pair of directories tells the user, counted
/// anew since files may have been staged by earlier answers.
#[derive(Debug)]
pub struct DirPairQuestion {
    /// Of how many pairs the left file is staged already.
    pub removed_left_count: usize,
    /// Of how many pairs the right file is staged already.
    pub removed_right_count: usize,
    /// Of how many pairs the left file is not staged.
    pub removable_left_count: usize,
    /// Of how many pairs the right file is not staged.
    pub removable_right_count: usize,
    /// The pairs of which neither file is staged.
    pub removable_pairs: Vec<FilePair>,
    /// The bytes freed by removing one file of each of these pairs.
    pub removable_len: u128,
}

/// The left file of a pair.
pub open spec fn left_of(fp: FilePair) -> DupFileRef {
    file_ref(fp.dup_set_idx as int, fp.left_file_idx as int)
}

/// The right file of a pair.
pub open spec fn right_of(fp: FilePair) -> DupFileRef {
    file_ref(fp.dup_set_idx as int, fp.right_file_idx as int)
}

/// The left files of the pairs.
pub open spec fn lefts_of(pairs: Seq<FilePair>) -> Seq<DupFileRef> {
    Seq::new(pairs.len(), |i: int| left_of(pairs[i]))
}

/// The right files of the pairs.
pub open spec fn rights_of(pairs: Seq<FilePair>) -> Seq<DupFileRef> {
    Seq::new(pairs.len(), |i: int| right_of(pairs[i]))
}

/// The pairs among the first `n` of which neither file is staged.
pub open spec fn removable_pairs_of(pairs: Seq<FilePair>, staged: Seq<DupFileRef>, n: int) -> Seq<FilePair>
    decreases n,
{
    if n <= 0 {
        Seq::empty()
    } else if !staged.contains(left_of(pairs[n - 1])) && !staged.contains(right_of(pairs[n - 1])) {
        removable_pairs_of(pairs, staged, n - 1).push(pairs[n - 1])
    } else {
        removable_pairs_of(pairs, staged, n - 1)
    }
}

/// Of how many of the first `n` pairs the left file is staged.
pub open spec fn staged_lefts(pairs: Seq<FilePair>, staged: Seq<DupFileRef>, n: int) -> nat
    decreases n,
{
    if n <= 0 {
        0
    } else {
        staged_lefts(pairs, staged, n - 1) + (if staged.contains(left_of(pairs[n - 1])) {
            1nat
        } else {
            0nat
        })
    }
}

/// Of how many of the first `n` pairs the right file is staged.
pub open spec fn staged_rights(pairs: Seq<FilePair>, staged: Seq<DupFileRef>, n: int) -> nat
    decreases n,
{
    if n <= 0 {
        0
    } else {
        staged_rights(pairs, staged, n - 1) + (if staged.contains(right_of(pairs[n - 1])) {
            1nat
        } else {
            0nat
        })
    }
}

/// The question is that of the pairs `pairs`, with `staged` staged.
pub open spec fn counts(q: DirPairQuestion, pairs: Seq<FilePair>, dups: Seq<DupSet>, staged: Seq<DupFileRef>) -> bool {
    let n = pairs.len() as int;
    &&& q.removed_left_count == staged_lefts(pairs, staged, n)
    &&& q.removed_right_count == staged_rights(pairs, staged, n)
    &&& q.removable_left_count == n - staged_lefts(pairs, staged, n)
    &&& q.removable_right_count == n - staged_rights(pairs, staged, n)
    &&& q.removable_pairs@ == removable_pairs_of(pairs, staged, n)
    &&& q.removable_len == staged_bytes(lefts_of(q.removable_pairs@), dups)
}

/// Tells what the question about a pair of directories shows, or `None`
/// where the question is not to be put: where no pair is left of which
/// neither file is staged.
pub fn ask_on_dir_pair(dir_pair: &DirPair, dups: &[DupSet], rr: &RemovalReport) -> (r: Option<DirPairQuestion>)
    requires
        dir_pair.fits(dups@),
        rr.staged_removals.wf(),
    ensures
        r is None <==> removable_pairs_of(
            dir_pair.file_pairs@,
            rr.staged_removals@,
            dir_pair.file_pairs@.len() as int,
        ).len() == 0,
        r matches Some(q) ==> counts(q, dir_pair.file_pairs@, dups@, rr.staged_removals@) && forall|i: int|
            0 <= i < q.removable_pairs@.len() ==> dir_pair.file_pairs@.contains(#[trigger] q.removable_pairs@[i]),
{
    let ghost pairs = dir_pair.file_pairs@;
    let ghost staged = rr.staged_removals@;
    let mut removed_left_count: usize = 0;
    let mut removed_right_count: usize = 0;
    let mut removable_left_count: usize = 0;
    let mut removable_right_count: usize = 0;
    let mut removable_pairs: Vec<FilePair> = Vec::new();
    let mut lefts: Vec<DupFileRef> = Vec::new();
    let mut k: usize = 0;
    while k < dir_pair.file_pairs.len()
        invariant
            k <= pairs.len(),
            pairs == dir_pair.file_pairs@,
            staged == rr.staged_removals@,
            rr.staged_removals.wf(),
            dir_pair.fits(dups@),
            removed_left_count == staged_lefts(pairs, staged, k as int),
            removed_right_count == staged_rights(pairs, staged, k as int),
            removed_left_count + removable_left_count == k,
            removed_right_count + removable_right_count == k,
            removable_pairs@ == removable_pairs_of(pairs, staged, k as int),
            lefts@ == lefts_of(removable_pairs@),
            forall|i: int| 0 <= i < lefts@.len() ==> (#[trigger] lefts@[i]).valid(dups@),
            forall|i: int| 0 <= i < removable_pairs@.len() ==> pairs.contains(#[trigger] removable_pairs@[i]),
        decreases pairs.len() - k,
    {
        let file_pair = dir_pair.file_pairs[k];
        let removed_left = rr.staged_removals.contains(file_pair.left_ref());
        let removed_right = rr.staged_removals.contains(file_pair.right_ref());
        if removed_left {
            removed_left_count += 1;
        } else {
            removable_left_count += 1;
        }
        if removed_right {
            removed_right_count += 1;
        } else {
            removable_right_count += 1;
        }
        if !removed_left && !removed_right {
            let ghost before = removable_pairs@;
            removable_pairs.push(file_pair);
            lefts.push(file_pair.left_ref());
            proof {
                assert(lefts@ =~= lefts_of(removable_pairs@));
                assert forall|i: int| 0 <= i < removable_pairs@.len() implies pairs.contains(
                    #[trigger] removable_pairs@[i],
                ) by {
                    if i < before.len() {
                        assert(removable_pairs@[i] == before[i]);
                    } else {
                        assert(pairs[k as int] == removable_pairs@[i]);
                    }
                }
            }
        }
        k += 1;
    }
    if removable_pairs.len() == 0 {
        return None;
    }
    let removable_len = total_len(&lefts, dups);
    Some(
        DirPairQuestion {
            removed_left_count,
            removed_right_count,
            removable_left_count,
            removable_right_count,
            removable_pairs,
            removable_len,
        },
    )
}

/// The entries of a directory that are none of the files of the question:
/// what is left of the `dir_count` entries that the directory holds on
/// disk. `None` where the directory holds fewer entries than files are
/// counted in it: files were removed on disk meanwhile.
pub open spec fn others_in(dir_count: usize, removed: usize, removable: usize) -> Option<usize> {
    if dir_count < removed + removable {
        None
    } else {
        Some((dir_count - removed - removable) as usize)
    }
}

/// Tells how many of the `dir_count` entries of a directory are none of
/// the files of a question, of which `removed` are staged and `removable`
/// are not.
pub fn other_entries(dir_count: usize, removed: usize, removable: usize) -> (r: Option<usize>)
    ensures
        r == others_in(dir_count, removed, removable),
{
    let files: u128 = removed as u128 + removable as u128;
    if (dir_count as u128) < files {
        None
    } else {
        Some((dir_count as u128 - files) as usize)
    }
}

impl DirPairQuestion {
    /// Whether the pairs are few enough to be listed by name.
    pub fn lists_files(&self) -> (r: bool)
        ensures
            r == (self.removable_pairs@.len() <= MAX_LISTED_FILES),
    {
        self.removable_pairs.len() <= MAX_LISTED_FILES
    }
}

/// The files that an answer to the question about a pair of directories
/// stages: the left files of the pairs, the right ones, or none.
pub open spec fn staged_of(choice: DirPairChoice, pairs: Seq<FilePair>) -> Seq<DupFileRef> {
    match choice {
        DirPairChoice::StageLeft => lefts_of(pairs),
        DirPairChoice::StageRight => rights_of(pairs),
        _ => Seq::empty(),
    }
}

/// Applies the answer to the question about a pair of directories.
/// `removable_pairs` are the pairs that the question showed.
pub fn answer_on_dir_pair(
    choice: DirPairChoice,
    removable_pairs: &Vec<FilePair>,
    dups: &[DupSet],
    rr: &mut RemovalReport,
)
    requires
        old(rr).wf(dups@),
        forall|i: int|
            0 <= i < removable_pairs@.len() ==> left_of(#[trigger] removable_pairs@[i]).valid(dups@)
                && right_of(removable_pairs@[i]).valid(dups@),
    ensures
        final(rr).wf(dups@),
        final(rr).staged_removals@ == stage_all(old(rr).staged_removals@, staged_of(choice, removable_pairs@)),
        final(rr).staged_dir_removals == old(rr).staged_dir_removals,
        final(rr).broken == (old(rr).broken || choice == DirPairChoice::EndStaging),
        final(rr).quit == old(rr).quit,
{
    match choice {
        DirPairChoice::Skip => {},
        DirPairChoice::EndStaging => {
            rr.broken = true;
        },
        DirPairChoice::StageLeft => {
            let mut files: Vec<DupFileRef> = Vec::new();
            let mut k: usize = 0;
            while k < removable_pairs.len()
                invariant
                    k <= removable_pairs@.len(),
                    files@ == lefts_of(removable_pairs@.take(k as int)),
                    forall|i: int|
                        0 <= i < removable_pairs@.len() ==> left_of(#[trigger] removable_pairs@[i]).valid(
                            dups@,
                        ),
                    forall|i: int| 0 <= i < files@.len() ==> (#[trigger] files@[i]).valid(dups@),
                decreases removable_pairs@.len() - k,
            {
                files.push(removable_pairs[k].left_ref());
                proof {
                    assert(files@ =~= lefts_of(removable_pairs@.take(k + 1)));
                }
                k += 1;
            }
            proof {
                assert(removable_pairs@.take(k as int) == removable_pairs@);
            }
            stage_files(rr, &files, dups);
        },
        DirPairChoice::StageRight => {
            let mut files: Vec<DupFileRef> = Vec::new();
            let mut k: usize = 0;
            while k < removable_pairs.len()
                invariant
                    k <= removable_pairs@.len(),
                    files@ == rights_of(removable_pairs@.take(k as int)),
                    forall|i: int|
                        0 <= i < removable_pairs@.len() ==> right_of(#[trigger] removable_pairs@[i]).valid(
                            dups@,
                        ),
                    forall|i: int| 0 <= i < files@.len() ==> (#[trigger] files@[i]).valid(dups@),
                decreases removable_pairs@.len() - k,
            {
                files.push(removable_pairs[k].right_ref());
                proof {
                    assert(files@ =~= rights_of(removable_pairs@.take(k + 1)));
                }
                k += 1;
            }
            proof {
                assert(removable_pairs@.take(k as int) == removable_pairs@);
            }
            stage_files(rr, &files, dups);
        },
    }
}

} // verus!
