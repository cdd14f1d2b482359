//! The staging of removals: which files and which whole directories are
//! marked for deletion, and the check that no set of identical files loses
//! all its members.

use vstd::prelude::*;
use std::collections::HashSet;
use crate::dup::{file_ref, DupFileRef, DupSet};
use crate::staged::StagedSet;
use crate::text::texts;

verus! {

broadcast use vstd::std_specs::hash::group_hash_axioms;

/// The largest length that a file can have.
pub open spec fn max_file_len() -> nat {
    0xffff_ffff_ffff_ffff
}

/// The summed lengths of the files that `refs` point at, a file counted as
/// often as it is pointed at.
pub open spec fn staged_bytes(refs: Seq<DupFileRef>, dups: Seq<DupSet>) -> nat
    decreases refs.len(),
{
    if refs.len() == 0 {
        0
    } else {
        staged_bytes(refs.drop_last(), dups) + dups[refs.last().dup_set_idx as int].file_len as nat
    }
}

/// No file is longer than the largest length, so a sum of lengths is bounded
/// by the number of files.
pub proof fn lemma_staged_bytes_bound(refs: Seq<DupFileRef>, dups: Seq<DupSet>)
    ensures
        staged_bytes(refs, dups) <= refs.len() * max_file_len(),
    decreases refs.len(),
{
    if refs.len() > 0 {
        lemma_staged_bytes_bound(refs.drop_last(), dups);
        assert(refs.len() * max_file_len() == refs.drop_last().len() * max_file_len()
            + max_file_len()) by (nonlinear_arith)
            requires
                refs.len() == refs.drop_last().len() + 1,
        ;
    }
}

/// The summed lengths of the files that `refs` point at.
pub fn total_len(refs: &Vec<DupFileRef>, dups: &[DupSet]) -> (r: u128)
    requires
        forall|i: int| 0 <= i < refs@.len() ==> (#[trigger] refs@[i]).valid(dups@),
    ensures
        r == staged_bytes(refs@, dups@),
{
    let mut sum: u128 = 0;
    let mut i: usize = 0;
    while i < refs.len()
        invariant
            i <= refs@.len(),
            forall|i: int| 0 <= i < refs@.len() ==> (#[trigger] refs@[i]).valid(dups@),
            sum == staged_bytes(refs@.take(i as int), dups@),
        decreases refs@.len() - i,
    {
        proof {
            assert(refs@.take(i + 1).drop_last() == refs@.take(i as int));
            lemma_staged_bytes_bound(refs@.take(i + 1), dups@);
            assert((i + 1) * max_file_len() <= u128::MAX) by (nonlinear_arith)
                requires
                    i + 1 <= 0xffff_ffff_ffff_ffff,
                    max_file_len() == 0xffff_ffff_ffff_ffff,
            ;
        }
        sum = sum + dups[refs[i].dup_set_idx].file_len as u128;
        i += 1;
    }
    proof {
        assert(refs@.take(i as int) == refs@);
    }
    sum
}

/// What marking `r` makes of the marked references `staged`: `r` comes last
/// unless it is among them already.
pub open spec fn stage(staged: Seq<DupFileRef>, r: DupFileRef) -> Seq<DupFileRef> {
    if staged.contains(r) {
        staged
    } else {
        staged.push(r)
    }
}

/// What marking all of `refs`, one after the other, makes of `staged`.
pub open spec fn stage_all(staged: Seq<DupFileRef>, refs: Seq<DupFileRef>) -> Seq<DupFileRef>
    decreases refs.len(),
{
    if refs.len() == 0 {
        staged
    } else {
        stage(stage_all(staged, refs.drop_last()), refs.last())
    }
}

/// Every file of the set at `set_idx` is among `staged`.
pub open spec fn is_emptied(staged: Seq<DupFileRef>, dups: Seq<DupSet>, set_idx: int) -> bool {
    forall|i: int|
        0 <= i < dups[set_idx].files@.len() ==> staged.contains(
            #[trigger] file_ref(set_idx, i),
        )
}

/// A set of identical files of which every member is marked for removal.
#[derive(Debug)]
pub struct EmptiedSet {
    pub dup_set_idx: usize,
}

impl EmptiedSet {
    /// What to tell the user.
    pub fn message(&self) -> (r: String)
        ensures
            r@ == "We staged all files in set for removal! Abort!"@,
    {
        "We staged all files in set for removal! Abort!".to_owned()
    }
}

/// The removals that are staged, and how the staging ended.
#[derive(Debug)]
pub struct RemovalReport {
    /// The sets of which a file is staged.
    pub dup_sets_with_staged: HashSet<usize>,
    /// The staged files.
    pub staged_removals: StagedSet,
    /// The directories staged for removal as a whole.
    pub staged_dir_removals: Vec<String>,
    /// The summed lengths of the staged files.
    pub len_to_remove: u128,
    /// The user ended the staging early.
    pub broken: bool,
    /// The user gave up: nothing is to be removed.
    pub quit: bool,
}

impl Clone for RemovalReport {
    /// A report with the same staged files and directories, the same byte
    /// total and the same flags. The sets it tells as touched are those of
    /// the staged files.
    fn clone(&self) -> (r: RemovalReport)
        ensures
            r.staged_removals@ == self.staged_removals@,
            texts(r.staged_dir_removals@) == texts(self.staged_dir_removals@),
            r.len_to_remove == self.len_to_remove,
            r.broken == self.broken,
            r.quit == self.quit,
            forall|dups: Seq<DupSet>| self.wf(dups) ==> r.wf(dups),
    {
        let staged_removals = self.staged_removals.clone();
        let mut dup_sets_with_staged: HashSet<usize> = HashSet::new();
        let mut i: usize = 0;
        while i < staged_removals.len()
            invariant
                i <= staged_removals@.len(),
                forall|s: usize|
                    dup_sets_with_staged@.contains(s) <==> exists|j: int|
                        0 <= j < i && (#[trigger] staged_removals@[j]).dup_set_idx == s,
            decreases staged_removals@.len() - i,
        {
            let ghost before = dup_sets_with_staged@;
            let r = staged_removals.get(i);
            dup_sets_with_staged.insert(r.dup_set_idx);
            proof {
                assert forall|s: usize|
                    dup_sets_with_staged@.contains(s) <==> exists|j: int|
                        0 <= j < i + 1 && (#[trigger] staged_removals@[j]).dup_set_idx == s by {
                    if dup_sets_with_staged@.contains(s) {
                        if s == r.dup_set_idx {
                            assert(staged_removals@[i as int].dup_set_idx == s);
                        } else {
                            assert(before.contains(s));
                            let j = choose|j: int|
                                0 <= j < i && (#[trigger] staged_removals@[j]).dup_set_idx == s;
                            assert(staged_removals@[j].dup_set_idx == s);
                        }
                    }
                    if exists|j: int| 0 <= j < i + 1 && (#[trigger] staged_removals@[j]).dup_set_idx == s {
                        let j = choose|j: int|
                            0 <= j < i + 1 && (#[trigger] staged_removals@[j]).dup_set_idx == s;
                        if j < i {
                            assert(before.contains(s));
                        }
                    }
                }
            }
            i += 1;
        }
        let mut staged_dir_removals: Vec<String> = Vec::new();
        let mut d: usize = 0;
        while d < self.staged_dir_removals.len()
            invariant
                d <= self.staged_dir_removals@.len(),
                staged_dir_removals@.len() == d,
                forall|x: int|
                    0 <= x < d ==> (#[trigger] staged_dir_removals@[x])@ == self.staged_dir_removals@[x]@,
            decreases self.staged_dir_removals@.len() - d,
        {
            staged_dir_removals.push(self.staged_dir_removals[d].clone());
            d += 1;
        }
        proof {
            assert(texts(staged_dir_removals@) =~= texts(self.staged_dir_removals@));
        }
        RemovalReport {
            dup_sets_with_staged,
            staged_removals,
            staged_dir_removals,
            len_to_remove: self.len_to_remove,
            broken: self.broken,
            quit: self.quit,
        }
    }
}

impl Default for RemovalReport {
    /// A report with nothing staged.
    fn default() -> (r: RemovalReport)
        ensures
            r.staged_removals@.len() == 0,
            r.staged_dir_removals@.len() == 0,
            r.len_to_remove == 0,
            !r.broken,
            !r.quit,
            forall|dups: Seq<DupSet>| r.wf(dups),
    {
        RemovalReport::new()
    }
}

impl RemovalReport {
    /// The report fits the sets `dups`: every staged reference points at a
    /// file of them, the byte total is that of the staged files, and the
    /// touched sets are those of the staged files.
    pub open spec fn wf(&self, dups: Seq<DupSet>) -> bool {
        &&& self.staged_removals.wf()
        &&& forall|i: int|
            0 <= i < self.staged_removals@.len() ==> (#[trigger] self.staged_removals@[i]).valid(
                dups,
            )
        &&& self.len_to_remove == staged_bytes(self.staged_removals@, dups)
        &&& forall|s: usize|
            self.dup_sets_with_staged@.contains(s) <==> exists|i: int|
                0 <= i < self.staged_removals@.len() && (#[trigger] self.staged_removals@[i]).dup_set_idx
                    == s
    }

    /// Whether `r` is staged.
    pub open spec fn is_staged(&self, r: DupFileRef) -> bool {
        self.staged_removals@.contains(r)
    }

    /// A report with nothing staged.
    pub fn new() -> (r: RemovalReport)
        ensures
            r.staged_removals@.len() == 0,
            r.staged_dir_removals@.len() == 0,
            r.len_to_remove == 0,
            !r.broken,
            !r.quit,
            forall|dups: Seq<DupSet>| r.wf(dups),
    {
        RemovalReport {
            dup_sets_with_staged: HashSet::new(),
            staged_removals: StagedSet::new(),
            staged_dir_removals: Vec::new(),
            len_to_remove: 0,
            broken: false,
            quit: false,
        }
    }

    /// Stages one file for removal. A file that is staged already stays
    /// staged and is not counted again.
    pub fn stage_file(&mut self, dup_file_ref: DupFileRef, dups: &[DupSet])
        requires
            old(self).wf(dups@),
            dup_file_ref.valid(dups@),
        ensures
            final(self).wf(dups@),
            final(self).staged_removals@ == stage(old(self).staged_removals@, dup_file_ref),
            final(self).len_to_remove == old(self).len_to_remove + (if old(self).is_staged(
                dup_file_ref,
            ) {
                0
            } else {
                dups@[dup_file_ref.dup_set_idx as int].file_len as int
            }),
            final(self).staged_dir_removals == old(self).staged_dir_removals,
            final(self).broken == old(self).broken,
            final(self).quit == old(self).quit,
    {
        let ghost before = self.staged_removals@;
        let staged_count = self.staged_removals.len();
        if self.staged_removals.insert(dup_file_ref) {
            proof {
                lemma_staged_bytes_bound(before, dups@);
                assert(before.len() == staged_count);
                assert(before.len() * max_file_len() + max_file_len() <= u128::MAX)
                    by (nonlinear_arith)
                    requires
                        before.len() <= 0xffff_ffff_ffff_ffff,
                        max_file_len() == 0xffff_ffff_ffff_ffff,
                ;
                assert(before.push(dup_file_ref).drop_last() == before);
            }
            self.len_to_remove = self.len_to_remove + dups[dup_file_ref.dup_set_idx].file_len as u128;
            self.dup_sets_with_staged.insert(dup_file_ref.dup_set_idx);
            proof {
                let after = self.staged_removals@;
                assert forall|s: usize|
                    self.dup_sets_with_staged@.contains(s) <==> exists|i: int|
                        0 <= i < after.len() && (#[trigger] after[i]).dup_set_idx == s by {
                    if self.dup_sets_with_staged@.contains(s) {
                        if s == dup_file_ref.dup_set_idx {
                            assert(after[after.len() - 1].dup_set_idx == s);
                        } else {
                            assert(old(self).dup_sets_with_staged@.contains(s));
                            let i = choose|i: int|
                                0 <= i < before.len() && (#[trigger] before[i]).dup_set_idx == s;
                            assert(after[i].dup_set_idx == s);
                        }
                    }
                    if exists|i: int| 0 <= i < after.len() && (#[trigger] after[i]).dup_set_idx == s {
                        let i = choose|i: int|
                            0 <= i < after.len() && (#[trigger] after[i]).dup_set_idx == s;
                        if i < before.len() {
                            assert(before[i].dup_set_idx == s);
                        }
                    }
                }
            }
        }
    }

    /// Whether nothing is staged.
    pub fn is_empty(&self) -> (r: bool)
        ensures
            r == (self.staged_removals@.len() == 0),
    {
        self.staged_removals.is_empty()
    }
}

/// Marking a reference a second time changes nothing: neither the marked
/// references nor the bytes they stand for.
pub proof fn lemma_stage_idempotent(staged: Seq<DupFileRef>, r: DupFileRef, dups: Seq<DupSet>)
    ensures
        stage(stage(staged, r), r) == stage(staged, r),
        staged_bytes(stage(stage(staged, r), r), dups) == staged_bytes(staged, dups) + (if staged.contains(
            r,
        ) {
            0
        } else {
            dups[r.dup_set_idx as int].file_len as int
        }),
{
    if !staged.contains(r) {
        assert(staged.push(r)[staged.len() as int] == r);
        assert(staged.push(r).drop_last() == staged);
    }
}

/// What is marked stays marked when more is marked.
pub proof fn lemma_stage_all_keeps(staged: Seq<DupFileRef>, refs: Seq<DupFileRef>, r: DupFileRef)
    ensures
        stage_all(staged, refs).contains(r) <==> staged.contains(r) || refs.contains(r),
        staged.len() <= stage_all(staged, refs).len(),
        forall|i: int| 0 <= i < staged.len() ==> stage_all(staged, refs)[i] == staged[i],
    decreases refs.len(),
{
    if refs.len() > 0 {
        let fewer = stage_all(staged, refs.drop_last());
        lemma_stage_all_keeps(staged, refs.drop_last(), r);
        let all = stage(fewer, refs.last());
        if fewer.contains(r) {
            let at = choose|at: int| 0 <= at < fewer.len() && fewer[at] == r;
            assert(all[at] == r);
        }
        if refs.drop_last().contains(r) {
            let at = choose|at: int| 0 <= at < refs.drop_last().len() && refs.drop_last()[at] == r;
            assert(refs[at] == r);
        }
        if r == refs.last() {
            assert(refs[refs.len() - 1] == r);
            if !fewer.contains(r) {
                assert(all[all.len() - 1] == r);
            }
        }
        if all.contains(r) && !fewer.contains(r) {
            let at = choose|at: int| 0 <= at < all.len() && all[at] == r;
            assert(at == fewer.len());
        }
        if refs.contains(r) && r != refs.last() {
            let at = choose|at: int| 0 <= at < refs.len() && refs[at] == r;
            assert(refs.drop_last()[at] == r);
        }
    }
}

/// A file that is staged for removal: its path and its length.
#[derive(Debug)]
pub struct StagedFile {
    pub file: DupFileRef,
    pub path: String,
    pub len: u64,
}

/// What a removal is to delete: first the files, in the order in which they
/// were staged, then the directories.
#[derive(Debug)]
pub struct RemovalPlan {
    pub files: Vec<StagedFile>,
    pub dirs: Vec<String>,
}

/// What a removal did delete.
#[derive(Debug)]
pub struct RemovalTally {
    pub removed_count: usize,
    pub removed_len: u128,
}

/// A file of a touched set, and whether it is to be removed or kept.
#[derive(Debug)]
pub struct FileAction {
    pub path: String,
    pub remove: bool,
}

/// A set of which a file is staged, with what happens to each of its files.
#[derive(Debug)]
pub struct TouchedSet {
    pub dup_set_idx: usize,
    pub file_len: u64,
    pub files: Vec<FileAction>,
}

/// `listed` tells of each file of `staged` the path and the length.
pub open spec fn lists(listed: Seq<StagedFile>, staged: Seq<DupFileRef>, dups: Seq<DupSet>) -> bool {
    &&& listed.len() == staged.len()
    &&& forall|i: int|
        0 <= i < listed.len() ==> {
            &&& (#[trigger] listed[i]).file == staged[i]
            &&& listed[i].path@ == staged[i].file(dups).path@
            &&& listed[i].len == dups[staged[i].dup_set_idx as int].file_len
        }
}

/// How many of the first `n` files were removed.
pub open spec fn count_removed(removed: Seq<bool>, n: int) -> nat
    decreases n,
{
    if n <= 0 {
        0
    } else {
        count_removed(removed, n - 1) + (if removed[n - 1] {
            1nat
        } else {
            0nat
        })
    }
}

/// The summed lengths of those of the first `n` files that were removed.
pub open spec fn bytes_removed(files: Seq<StagedFile>, removed: Seq<bool>, n: int) -> nat
    decreases n,
{
    if n <= 0 {
        0
    } else {
        bytes_removed(files, removed, n - 1) + (if removed[n - 1] {
            files[n - 1].len as nat
        } else {
            0nat
        })
    }
}

impl RemovalPlan {
    /// Counts what was removed: `removed` tells of each file of the plan,
    /// in turn, whether its removal succeeded.
    pub fn tally(&self, removed: &Vec<bool>) -> (r: RemovalTally)
        requires
            removed@.len() == self.files@.len(),
        ensures
            r.removed_count == count_removed(removed@, removed@.len() as int),
            r.removed_len == bytes_removed(self.files@, removed@, removed@.len() as int),
    {
        let mut removed_count: usize = 0;
        let mut removed_len: u128 = 0;
        let mut i: usize = 0;
        while i < removed.len()
            invariant
                i <= removed@.len(),
                removed@.len() == self.files@.len(),
                removed_count == count_removed(removed@, i as int),
                removed_len == bytes_removed(self.files@, removed@, i as int),
                removed_count <= i,
                removed_len <= i * 0xffff_ffff_ffff_ffff,
            decreases removed@.len() - i,
        {
            if removed[i] {
                proof {
                    assert((i + 1) * 0xffff_ffff_ffff_ffff == i * 0xffff_ffff_ffff_ffff
                        + 0xffff_ffff_ffff_ffff) by (nonlinear_arith);
                    assert((i + 1) * 0xffff_ffff_ffff_ffff <= 0xffff_ffff_ffff_ffff * 0xffff_ffff_ffff_ffff)
                        by (nonlinear_arith)
                        requires
                            i + 1 <= 0xffff_ffff_ffff_ffff,
                    ;
                }
                removed_count += 1;
                removed_len = removed_len + self.files[i].len as u128;
            } else {
                proof {
                    assert((i + 1) * 0xffff_ffff_ffff_ffff == i * 0xffff_ffff_ffff_ffff
                        + 0xffff_ffff_ffff_ffff) by (nonlinear_arith);
                }
            }
            i += 1;
        }
        RemovalTally { removed_count, removed_len }
    }
}

impl RemovalReport {
    /// Stages every file of a directory, and the directory itself.
    pub fn stage_directory(&mut self, path: &str, refs: &Vec<DupFileRef>, dups: &[DupSet])
        requires
            old(self).wf(dups@),
            forall|i: int| 0 <= i < refs@.len() ==> (#[trigger] refs@[i]).valid(dups@),
        ensures
            final(self).wf(dups@),
            final(self).staged_removals@ == stage_all(old(self).staged_removals@, refs@),
            texts(final(self).staged_dir_removals@) == texts(old(self).staged_dir_removals@).push(path@),
            final(self).broken == old(self).broken,
            final(self).quit == old(self).quit,
    {
        let mut i: usize = 0;
        while i < refs.len()
            invariant
                i <= refs@.len(),
                self.wf(dups@),
                forall|i: int| 0 <= i < refs@.len() ==> (#[trigger] refs@[i]).valid(dups@),
                self.staged_removals@ == stage_all(old(self).staged_removals@, refs@.take(i as int)),
                self.staged_dir_removals == old(self).staged_dir_removals,
                self.broken == old(self).broken,
                self.quit == old(self).quit,
            decreases refs@.len() - i,
        {
            proof {
                assert(refs@.take(i + 1).drop_last() == refs@.take(i as int));
            }
            self.stage_file(refs[i], dups);
            i += 1;
        }
        proof {
            assert(refs@.take(i as int) == refs@);
        }
        self.staged_dir_removals.push(path.to_owned());
        proof {
            assert(texts(self.staged_dir_removals@) =~= texts(old(self).staged_dir_removals@).push(path@));
        }
    }

    /// Checks that no set loses all its files: a set of which every file is
    /// staged is an error. This is to be called just before any removal.
    pub fn check_no_emptied_set(&self, dups: &[DupSet]) -> (r: Result<(), EmptiedSet>)
        requires
            self.staged_removals.wf(),
        ensures
            r is Err <==> exists|s: int|
                0 <= s < dups@.len() && #[trigger] is_emptied(self.staged_removals@, dups@, s),
            r matches Err(e) ==> {
                &&& e.dup_set_idx < dups@.len()
                &&& is_emptied(self.staged_removals@, dups@, e.dup_set_idx as int)
                &&& forall|s: int|
                    0 <= s < e.dup_set_idx ==> !#[trigger] is_emptied(self.staged_removals@, dups@, s)
            },
    {
        let mut s: usize = 0;
        while s < dups.len()
            invariant
                s <= dups@.len(),
                self.staged_removals.wf(),
                forall|x: int| 0 <= x < s ==> !#[trigger] is_emptied(self.staged_removals@, dups@, x),
            decreases dups@.len() - s,
        {
            let n = dups[s].files.len();
            let mut kept = false;
            let mut i: usize = 0;
            while i < n && !kept
                invariant
                    s < dups@.len(),
                    n == dups@[s as int].files@.len(),
                    i <= n,
                    self.staged_removals.wf(),
                    !kept ==> forall|x: int|
                        0 <= x < i ==> self.staged_removals@.contains(#[trigger] file_ref(s as int, x)),
                    kept ==> exists|x: int|
                        0 <= x < n && !self.staged_removals@.contains(#[trigger] file_ref(s as int, x)),
                decreases n - i + (if kept { 0int } else { 1int }),
            {
                if !self.staged_removals.contains(DupFileRef { dup_set_idx: s, dup_file_idx: i }) {
                    kept = true;
                    proof {
                        assert(!self.staged_removals@.contains(file_ref(s as int, i as int)));
                    }
                } else {
                    i += 1;
                }
            }
            if !kept {
                assert(is_emptied(self.staged_removals@, dups@, s as int));
                return Err(EmptiedSet { dup_set_idx: s });
            }
            s += 1;
        }
        Ok(())
    }

    /// The staged files with their paths and lengths, in the order in which
    /// they were staged.
    pub fn list_staged_removals(&self, dups: &[DupSet]) -> (r: Vec<StagedFile>)
        requires
            self.wf(dups@),
        ensures
            lists(r@, self.staged_removals@, dups@),
    {
        let mut listed: Vec<StagedFile> = Vec::new();
        let mut i: usize = 0;
        while i < self.staged_removals.len()
            invariant
                i <= self.staged_removals@.len(),
                self.wf(dups@),
                lists(listed@, self.staged_removals@.take(i as int), dups@),
            decreases self.staged_removals@.len() - i,
        {
            let file = self.staged_removals.get(i);
            assert(self.staged_removals@[i as int].valid(dups@));
            listed.push(
                StagedFile {
                    file,
                    path: file.path(dups).to_owned(),
                    len: dups[file.dup_set_idx].file_len,
                },
            );
            i += 1;
        }
        proof {
            assert(self.staged_removals@.take(i as int) == self.staged_removals@);
        }
        listed
    }

    /// Decides the removal. Where a set would lose all its files, nothing is
    /// to be removed: that is an error. Else the plan tells what to delete:
    /// the staged files, then the staged directories.
    pub fn do_the_removal(&self, dups: &[DupSet]) -> (r: Result<RemovalPlan, EmptiedSet>)
        requires
            self.wf(dups@),
        ensures
            r is Err <==> exists|s: int|
                0 <= s < dups@.len() && #[trigger] is_emptied(self.staged_removals@, dups@, s),
            r matches Err(e) ==> {
                &&& e.dup_set_idx < dups@.len()
                &&& is_emptied(self.staged_removals@, dups@, e.dup_set_idx as int)
                &&& forall|s: int|
                    0 <= s < e.dup_set_idx ==> !#[trigger] is_emptied(self.staged_removals@, dups@, s)
            },
            r matches Ok(plan) ==> lists(plan.files@, self.staged_removals@, dups@) && texts(plan.dirs@)
                == texts(self.staged_dir_removals@),
    {
        match self.check_no_emptied_set(dups) {
            Err(e) => Err(e),
            Ok(()) => {
                let files = self.list_staged_removals(dups);
                let mut dirs: Vec<String> = Vec::new();
                let mut d: usize = 0;
                while d < self.staged_dir_removals.len()
                    invariant
                        d <= self.staged_dir_removals@.len(),
                        dirs@.len() == d,
                        forall|x: int| 0 <= x < d ==> (#[trigger] dirs@[x])@ == self.staged_dir_removals@[x]@,
                    decreases self.staged_dir_removals@.len() - d,
                {
                    dirs.push(self.staged_dir_removals[d].clone());
                    d += 1;
                }
                proof {
                    assert(texts(dirs@) =~= texts(self.staged_dir_removals@));
                }
                Ok(RemovalPlan { files, dirs })
            },
        }
    }

    /// The sets of which a file is staged, in rising order, each with all
    /// its files and whether each is to be removed or kept.
    pub fn list_dup_sets(&self, dups: &[DupSet]) -> (r: Vec<TouchedSet>)
        requires
            self.wf(dups@),
        ensures
            forall|k: int|
                0 <= k < r@.len() ==> {
                    let t = #[trigger] r@[k];
                    &&& t.dup_set_idx < dups@.len()
                    &&& self.dup_sets_with_staged@.contains(t.dup_set_idx)
                    &&& t.file_len == dups@[t.dup_set_idx as int].file_len
                    &&& t.files@.len() == dups@[t.dup_set_idx as int].files@.len()
                    &&& forall|i: int|
                        0 <= i < t.files@.len() ==> (#[trigger] t.files@[i]).path@
                            == dups@[t.dup_set_idx as int].files@[i].path@ && t.files@[i].remove
                            == self.is_staged(file_ref(t.dup_set_idx as int, i))
                },
            forall|k: int, l: int| 0 <= k < l < r@.len() ==> r@[k].dup_set_idx < r@[l].dup_set_idx,
            forall|s: usize|
                s < dups@.len() && self.dup_sets_with_staged@.contains(s) ==> exists|k: int|
                    0 <= k < r@.len() && (#[trigger] r@[k]).dup_set_idx == s,
    {
        let mut touched: Vec<TouchedSet> = Vec::new();
        let mut s: usize = 0;
        while s < dups.len()
            invariant
                s <= dups@.len(),
                self.wf(dups@),
                forall|k: int|
                    0 <= k < touched@.len() ==> {
                        let t = #[trigger] touched@[k];
                        &&& t.dup_set_idx < s
                        &&& self.dup_sets_with_staged@.contains(t.dup_set_idx)
                        &&& t.file_len == dups@[t.dup_set_idx as int].file_len
                        &&& t.files@.len() == dups@[t.dup_set_idx as int].files@.len()
                        &&& forall|i: int|
                            0 <= i < t.files@.len() ==> (#[trigger] t.files@[i]).path@
                                == dups@[t.dup_set_idx as int].files@[i].path@ && t.files@[i].remove
                                == self.is_staged(file_ref(t.dup_set_idx as int, i))
                    },
                forall|k: int, l: int|
                    0 <= k < l < touched@.len() ==> touched@[k].dup_set_idx < touched@[l].dup_set_idx,
                forall|x: usize|
                    x < s && self.dup_sets_with_staged@.contains(x) ==> exists|k: int|
                        0 <= k < touched@.len() && (#[trigger] touched@[k]).dup_set_idx == x,
            decreases dups@.len() - s,
        {
            let ghost before = touched@;
            if self.dup_sets_with_staged.contains(&s) {
                let set = &dups[s];
                let mut files: Vec<FileAction> = Vec::new();
                let mut i: usize = 0;
                while i < set.files.len()
                    invariant
                        s < dups@.len(),
                        set == &dups@[s as int],
                        i <= set.files@.len(),
                        self.wf(dups@),
                        files@.len() == i,
                        forall|x: int|
                            0 <= x < i ==> (#[trigger] files@[x]).path@ == set.files@[x].path@
                                && files@[x].remove == self.is_staged(file_ref(s as int, x)),
                    decreases set.files@.len() - i,
                {
                    let remove = self.staged_removals.contains(DupFileRef { dup_set_idx: s, dup_file_idx: i });
                    files.push(FileAction { path: set.files[i].path.clone(), remove });
                    i += 1;
                }
                touched.push(TouchedSet { dup_set_idx: s, file_len: set.file_len, files });
                proof {
                    let after = touched@;
                    assert forall|x: usize|
                        x < s + 1 && self.dup_sets_with_staged@.contains(x) implies exists|k: int|
                        0 <= k < after.len() && (#[trigger] after[k]).dup_set_idx == x by {
                        if x < s {
                            let k = choose|k: int|
                                0 <= k < before.len() && (#[trigger] before[k]).dup_set_idx == x;
                            assert(after[k].dup_set_idx == x);
                        } else {
                            assert(after[after.len() - 1].dup_set_idx == x);
                        }
                    }
                }
            }
            s += 1;
        }
        touched
    }
}

/// The check never fails when every set has files and every touched set
/// keeps a file that is not staged.
pub proof fn lemma_kept_files_pass_the_check(staged: Seq<DupFileRef>, dups: Seq<DupSet>)
    requires
        dups.len() <= usize::MAX,
        forall|s: int| 0 <= s < dups.len() ==> (#[trigger] dups[s]).files@.len() > 0,
        forall|k: int|
            0 <= k < staged.len() ==> exists|i: int|
                0 <= i < dups[(#[trigger] staged[k]).dup_set_idx as int].files@.len() && !staged.contains(
                    #[trigger] file_ref(staged[k].dup_set_idx as int, i),
                ),
    ensures
        forall|s: int| 0 <= s < dups.len() ==> !#[trigger] is_emptied(staged, dups, s),
{
    assert forall|s: int| 0 <= s < dups.len() implies !#[trigger] is_emptied(staged, dups, s) by {
        if is_emptied(staged, dups, s) {
            assert(staged.contains(file_ref(s, 0)));
            let k = choose|k: int| 0 <= k < staged.len() && staged[k] == file_ref(s, 0);
            assert(staged[k].dup_set_idx == s);
            let i = choose|i: int|
                0 <= i < dups[staged[k].dup_set_idx as int].files@.len() && !staged.contains(
                    #[trigger] file_ref(staged[k].dup_set_idx as int, i),
                );
            assert(staged.contains(file_ref(s, i)));
        }
    }
}

} // verus!
