//! The relations among the directories that hold duplicates: directories
//! made of duplicates only, sets of identical files in one directory, and
//! pairs of directories with files in common.

use vstd::prelude::*;
use crate::brothers::{all_brotherhoods, are_brotherhoods, as_found, found_before};
use crate::dup::{DupFileRef, DupSet};
use crate::file_pair::FilePair;
use crate::pairs::{all_dir_pairs, are_dir_pairs, as_met, cross_pair, lies_in, met_before};
use crate::parents::number_parents;
use crate::sorting::sort_descending;
use crate::parents::ref_before;
use crate::tally::{are_candidates, by_first_file, candidates, dir_files, has_brothers, is_candidate, tally};
use crate::paths::{lemma_path_total, path_less, path_text_precedes};
use crate::text::chars_of;

verus! {

/// Two directories, the one whose path comes first in the order of paths on
/// the left.
#[derive(Debug, Clone, PartialEq, Eq, Hash)]
pub struct DirPairKey {
    pub left_dir: String,
    pub right_dir: String,
}

/// Two directories and the identical files that they share.
#[derive(Debug)]
pub struct DirPair {
    pub key: DirPairKey,
    pub file_pairs: Vec<FilePair>,
}

/// The files of one set that lie in one directory.
#[derive(Debug)]
pub struct Brotherhood {
    pub parent: String,
    pub dup_set_idx: usize,
    /// The positions of the files in their set.
    pub files: Vec<usize>,
    /// Whether all files but one have the name of a copy, so that the one
    /// can be kept and the others removed without asking.
    pub is_auto_solvable: bool,
}

/// A directory that holds nothing but duplicates of files found elsewhere.
#[derive(Debug)]
pub struct DupDir {
    pub path: String,
    pub files: Vec<DupFileRef>,
}

/// The two directories `a` and `b` in canonical order, and whether they had
/// to be swapped for it.
pub open spec fn canonical_pair(a: Seq<char>, b: Seq<char>) -> (Seq<char>, Seq<char>, bool) {
    if path_less(a, b) {
        (a, b, false)
    } else {
        (b, a, true)
    }
}

/// The key of two different directories does not depend on the order in
/// which they are given.
pub proof fn lemma_key_symmetric(a: Seq<char>, b: Seq<char>)
    requires
        a != b,
    ensures
        canonical_pair(a, b).0 == canonical_pair(b, a).0,
        canonical_pair(a, b).1 == canonical_pair(b, a).1,
        canonical_pair(a, b).2 != canonical_pair(b, a).2,
        path_less(canonical_pair(a, b).0, canonical_pair(a, b).1),
{
    lemma_path_total(a, b);
}

impl DirPairKey {
    /// The key of the directories `a` and `b`, and whether `a` became the
    /// right one.
    pub fn new(a: &str, b: &str) -> (r: (DirPairKey, bool))
        ensures
            (r.0.left_dir@, r.0.right_dir@, r.1) == canonical_pair(a@, b@),
    {
        if path_text_precedes(a, b) {
            (DirPairKey { left_dir: a.to_owned(), right_dir: b.to_owned() }, false)
        } else {
            (DirPairKey { left_dir: b.to_owned(), right_dir: a.to_owned() }, true)
        }
    }
}

impl DirPair {
    /// The pair of the directories of `key`, with the files they share.
    pub fn new(key: DirPairKey, file_pairs: Vec<FilePair>) -> (r: DirPair)
        ensures
            r.key == key,
            r.file_pairs == file_pairs,
    {
        DirPair { key, file_pairs }
    }
}

/// What adding `i` makes of the positions `files`: `i` comes last unless it
/// is among them already.
pub open spec fn with_file(files: Seq<usize>, i: usize) -> Seq<usize> {
    if files.contains(i) {
        files
    } else {
        files.push(i)
    }
}

/// The largest number of bytes that removing all files of a brotherhood but
/// one can free.
pub open spec fn gain_of(member_count: nat, file_len: u64) -> nat {
    ((member_count - 1) * file_len) as nat
}

impl Brotherhood {
    /// Adds the files at the positions `a_idx` and `b_idx`, each unless it is
    /// a member already.
    pub fn maybe_add_files(&mut self, a_idx: usize, b_idx: usize)
        ensures
            final(self).files@ == with_file(with_file(old(self).files@, a_idx), b_idx),
            final(self).parent == old(self).parent,
            final(self).dup_set_idx == old(self).dup_set_idx,
            final(self).is_auto_solvable == old(self).is_auto_solvable,
    {
        if !contains_position(&self.files, a_idx) {
            self.files.push(a_idx);
        }
        if !contains_position(&self.files, b_idx) {
            self.files.push(b_idx);
        }
    }

    /// The reference to member number `i`.
    pub fn file_ref(&self, i: usize) -> (r: DupFileRef)
        requires
            i < self.files@.len(),
        ensures
            r.dup_set_idx == self.dup_set_idx,
            r.dup_file_idx == self.files@[i as int],
    {
        DupFileRef { dup_set_idx: self.dup_set_idx, dup_file_idx: self.files[i] }
    }

    /// The bytes freed by keeping one member and removing the others.
    pub fn gain(&self, dups: &[DupSet]) -> (r: u128)
        requires
            self.files@.len() >= 1,
            self.dup_set_idx < dups@.len(),
        ensures
            r == gain_of(self.files@.len(), dups@[self.dup_set_idx as int].file_len),
    {
        let others: u128 = (self.files.len() - 1) as u128;
        let file_len: u128 = dups[self.dup_set_idx].file_len as u128;
        assert(others * file_len <= u128::MAX) by (nonlinear_arith)
            requires
                others <= 0xffff_ffff_ffff_ffff,
                file_len <= 0xffff_ffff_ffff_ffff,
        ;
        others * file_len
    }
}

/// Whether `i` is among `positions`.
pub fn contains_position(positions: &Vec<usize>, i: usize) -> (r: bool)
    ensures
        r == positions@.contains(i),
{
    let mut k: usize = 0;
    while k < positions.len()
        invariant
            k <= positions.len(),
            forall|j: int| 0 <= j < k ==> positions@[j] != i,
        decreases positions.len() - k,
    {
        if positions[k] == i {
            return true;
        }
        k += 1;
    }
    false
}

impl Brotherhood {
    /// The bytes freed by keeping one member and removing the others.
    pub open spec fn spec_gain(&self, dups: Seq<DupSet>) -> nat {
        gain_of(self.files@.len(), dups[self.dup_set_idx as int].file_len)
    }
}

/// The brotherhoods come in descending order of the bytes they can free,
/// and those that free the same in the order in which they are found.
pub open spec fn by_gain(found: Seq<Brotherhood>, dups: Seq<DupSet>) -> bool {
    forall|i: int, j: int|
        0 <= i < j < found.len() ==> (#[trigger] found[i]).spec_gain(dups) > (#[trigger] found[j]).spec_gain(
            dups,
        ) || (found[i].spec_gain(dups) == found[j].spec_gain(dups) && found_before(found[i], found[j]))
}

/// The pairs of directories come in descending order of the number of
/// files they share, and those that share as many in the order in which
/// they are met.
pub open spec fn by_shared_files(pairs: Seq<DirPair>) -> bool {
    forall|i: int, j: int|
        0 <= i < j < pairs.len() ==> (#[trigger] pairs[i]).file_pairs@.len() > (#[trigger] pairs[j]).file_pairs@.len()
            || (pairs[i].file_pairs@.len() == pairs[j].file_pairs@.len() && met_before(
            pairs[i].file_pairs@[0],
            pairs[j].file_pairs@[0],
        ))
}

/// The directories come in descending order of the number of files they
/// hold.
pub open spec fn by_file_count(found: Seq<DupDir>) -> bool {
    forall|i: int, j: int|
        0 <= i <= j < found.len() ==> (#[trigger] found[i]).files@.len() >= (#[trigger] found[j]).files@.len()
}

/// How many of the brotherhoods are marked as solvable without asking.
pub open spec fn auto_solvable_count(found: Seq<Brotherhood>) -> nat
    decreases found.len(),
{
    if found.len() == 0 {
        0
    } else {
        auto_solvable_count(found.drop_last()) + (if found.last().is_auto_solvable {
            1nat
        } else {
            0nat
        })
    }
}

fn count_auto_solvable(found: &Vec<Brotherhood>) -> (n: usize)
    ensures
        n == auto_solvable_count(found@),
{
    let mut n: usize = 0;
    let mut k: usize = 0;
    while k < found.len()
        invariant
            k <= found@.len(),
            n == auto_solvable_count(found@.take(k as int)),
            n <= k,
        decreases found@.len() - k,
    {
        proof {
            assert(found@.take(k + 1).drop_last() == found@.take(k as int));
        }
        if found[k].is_auto_solvable {
            n += 1;
        }
        k += 1;
    }
    proof {
        assert(found@.take(k as int) == found@);
    }
    n
}

fn sort_brotherhoods(found: Vec<Brotherhood>, dups: &[DupSet]) -> (r: Vec<Brotherhood>)
    requires
        are_brotherhoods(found@, dups@, dups@.len() as int),
        as_found(found@),
    ensures
        are_brotherhoods(r@, dups@, dups@.len() as int),
        by_gain(r@, dups@),
{
    let mut keys: Vec<u128> = Vec::new();
    let mut k: usize = 0;
    while k < found.len()
        invariant
            k <= found@.len(),
            are_brotherhoods(found@, dups@, dups@.len() as int),
            as_found(found@),
            keys@.len() == k,
            forall|x: int| 0 <= x < k ==> #[trigger] keys@[x] == found@[x].spec_gain(dups@),
        decreases found@.len() - k,
    {
        assert(found@[k as int].describes(dups@));
        keys.push(found[k].gain(dups));
        k += 1;
    }
    let ghost before = found@;
    let (sorted, order) = sort_descending(found, &keys);
    proof {
        let after = sorted@;
        let order = order@;
        assert forall|i: int, j: int| 0 <= i < j < after.len() implies (#[trigger] after[i]).spec_gain(
            dups@,
        ) > (#[trigger] after[j]).spec_gain(dups@) || (after[i].spec_gain(dups@) == after[j].spec_gain(
            dups@,
        ) && found_before(after[i], after[j])) by {
            assert(after[i] == before[order[i] as int]);
            assert(after[j] == before[order[j] as int]);
            assert(keys@[order[i] as int] >= keys@[order[j] as int]);
            if keys@[order[i] as int] == keys@[order[j] as int] {
                assert(order[i] < order[j]);
                assert(found_before(before[order[i] as int], before[order[j] as int]));
            }
        }
        assert forall|i: int| 0 <= i < after.len() implies (#[trigger] after[i]).describes(dups@)
            && after[i].dup_set_idx < dups@.len() by {
            assert(after[i] == before[order[i] as int]);
        }
        assert forall|i: int, j: int|
            0 <= i < after.len() && 0 <= j < after.len() && i != j implies !((#[trigger] after[i]).dup_set_idx
            == (#[trigger] after[j]).dup_set_idx && after[i].parent@ == after[j].parent@) by {
            assert(after[i] == before[order[i] as int]);
            assert(after[j] == before[order[j] as int]);
            assert(order[i] != order[j]);
        }
        assert forall|s: int, i: int, j: int|
            0 <= s < dups@.len() && crate::parents::in_set(dups@, s, i) && crate::parents::in_set(
                dups@,
                s,
                j,
            ) && i != j && #[trigger] crate::parents::parent_at(dups@, s, i)
                == #[trigger] crate::parents::parent_at(dups@, s, j) implies exists|k: int|
            0 <= k < after.len() && (#[trigger] after[k]).dup_set_idx == s && after[k].parent@
                == crate::parents::parent_at(dups@, s, i) by {
            let b = choose|b: int|
                0 <= b < before.len() && (#[trigger] before[b]).dup_set_idx == s && before[b].parent@
                    == crate::parents::parent_at(dups@, s, i);
            assert(order.contains(b as usize));
            let k = choose|k: int| 0 <= k < order.len() && order[k] == b as usize;
            assert(after[k] == before[order[k] as int]);
        }
    }
    sorted
}

fn sort_dir_pairs(pairs: Vec<DirPair>, dups: &[DupSet]) -> (r: Vec<DirPair>)
    requires
        are_dir_pairs(pairs@, dups@),
        as_met(pairs@),
    ensures
        are_dir_pairs(r@, dups@),
        by_shared_files(r@),
{
    let mut keys: Vec<u128> = Vec::new();
    let mut k: usize = 0;
    while k < pairs.len()
        invariant
            k <= pairs@.len(),
            keys@.len() == k,
            forall|x: int| 0 <= x < k ==> #[trigger] keys@[x] == pairs@[x].file_pairs@.len(),
        decreases pairs@.len() - k,
    {
        keys.push(pairs[k].file_pairs.len() as u128);
        k += 1;
    }
    let ghost before = pairs@;
    let (sorted, order) = sort_descending(pairs, &keys);
    proof {
        let after = sorted@;
        let order = order@;
        assert forall|i: int, j: int| 0 <= i < j < after.len() implies (#[trigger] after[i]).file_pairs@.len()
            > (#[trigger] after[j]).file_pairs@.len() || (after[i].file_pairs@.len()
            == after[j].file_pairs@.len() && met_before(after[i].file_pairs@[0], after[j].file_pairs@[0])) by {
            assert(after[i] == before[order[i] as int]);
            assert(after[j] == before[order[j] as int]);
            assert(keys@[order[i] as int] >= keys@[order[j] as int]);
            if keys@[order[i] as int] == keys@[order[j] as int] {
                assert(order[i] < order[j]);
                assert(met_before(
                    before[order[i] as int].file_pairs@[0],
                    before[order[j] as int].file_pairs@[0],
                ));
            }
        }
        assert forall|i: int| 0 <= i < after.len() implies (#[trigger] after[i]).describes(dups@) by {
            assert(after[i] == before[order[i] as int]);
        }
        assert forall|i: int, j: int|
            0 <= i < after.len() && 0 <= j < after.len() && i != j implies !((#[trigger] after[i]).key.left_dir@
            == (#[trigger] after[j]).key.left_dir@ && after[i].key.right_dir@
            == after[j].key.right_dir@) by {
            assert(after[i] == before[order[i] as int]);
            assert(after[j] == before[order[j] as int]);
            assert(order[i] != order[j]);
        }
        assert forall|fp: FilePair| #[trigger] cross_pair(dups@, fp) implies exists|k: int|
            0 <= k < after.len() && lies_in(
                dups@,
                fp,
                (#[trigger] after[k]).key.left_dir@,
                after[k].key.right_dir@,
            ) by {
            let b = choose|b: int|
                0 <= b < before.len() && lies_in(
                    dups@,
                    fp,
                    (#[trigger] before[b]).key.left_dir@,
                    before[b].key.right_dir@,
                );
            assert(order.contains(b as usize));
            let k = choose|k: int| 0 <= k < order.len() && order[k] == b as usize;
            assert(after[k] == before[order[k] as int]);
        }
    }
    sorted
}

/// No two of the directories have the same path.
pub open spec fn distinct_paths(found: Seq<DupDir>) -> bool {
    forall|k: int, l: int|
        0 <= k < found.len() && 0 <= l < found.len() && k != l ==> (#[trigger] found[k]).path@
            != (#[trigger] found[l]).path@
}

/// Directories that hold as many files come in the order in which they
/// are met: by the first file of each.
pub open spec fn ties_by_first_file(found: Seq<DupDir>) -> bool {
    forall|i: int, j: int|
        0 <= i < j < found.len() && (#[trigger] found[i]).files@.len() == (#[trigger] found[j]).files@.len()
            ==> ref_before(found[i].files@[0], found[j].files@[0])
}

/// The directories in descending order of the number of their files, those
/// with as many in the order they had, and the position that each had.
fn sort_kept(found: Vec<DupDir>) -> (r: (Vec<DupDir>, Ghost<Seq<usize>>))
    ensures
        by_file_count(r.0@),
        by_first_file(found@) ==> ties_by_first_file(r.0@),
        distinct_paths(found@) ==> distinct_paths(r.0@),
        r.0@.len() == found@.len(),
        forall|k: int| 0 <= k < r.0@.len() ==> found@.contains(#[trigger] r.0@[k]),
        forall|k: int| 0 <= k < found@.len() ==> r.0@.contains(#[trigger] found@[k]),
        crate::sorting::is_arrangement(r.1@, found@.len()),
        forall|k: int| 0 <= k < r.0@.len() ==> r.0@[k] == found@[#[trigger] r.1@[k] as int],
        forall|i: int, j: int|
            0 <= i < j < r.0@.len() ==> (#[trigger] r.0@[i]).files@.len() > (#[trigger] r.0@[j]).files@.len() || (
            r.0@[i].files@.len() == r.0@[j].files@.len() && r.1@[i] < r.1@[j]),
{
    let mut keys: Vec<u128> = Vec::new();
    let mut k: usize = 0;
    while k < found.len()
        invariant
            k <= found@.len(),
            keys@.len() == k,
            forall|x: int| 0 <= x < k ==> #[trigger] keys@[x] == found@[x].files@.len(),
        decreases found@.len() - k,
    {
        keys.push(found[k].files.len() as u128);
        k += 1;
    }
    let ghost before = found@;
    let (sorted, order) = sort_descending(found, &keys);
    proof {
        let after = sorted@;
        let order = order@;
        assert forall|i: int, j: int| 0 <= i <= j < after.len() implies (#[trigger] after[i]).files@.len()
            >= (#[trigger] after[j]).files@.len() by {
            assert(after[i] == before[order[i] as int]);
            assert(after[j] == before[order[j] as int]);
            assert(keys@[order[i] as int] >= keys@[order[j] as int]);
        }
        assert forall|k: int| 0 <= k < after.len() implies before.contains(#[trigger] after[k]) by {
            assert(after[k] == before[order[k] as int]);
        }
        assert forall|b: int| 0 <= b < before.len() implies after.contains(#[trigger] before[b]) by {
            assert(order.contains(b as usize));
            let k = choose|k: int| 0 <= k < order.len() && order[k] == b as usize;
            assert(after[k] == before[order[k] as int]);
        }
        if distinct_paths(before) {
            assert forall|k: int, l: int|
                0 <= k < after.len() && 0 <= l < after.len() && k != l implies (#[trigger] after[k]).path@
                != (#[trigger] after[l]).path@ by {
                assert(after[k] == before[order[k] as int]);
                assert(after[l] == before[order[l] as int]);
                assert(order[k] != order[l]);
            }
        }
        if by_first_file(before) {
            assert forall|i: int, j: int|
                0 <= i < j < after.len() && (#[trigger] after[i]).files@.len() == (#[trigger] after[j]).files@.len()
                implies ref_before(after[i].files@[0], after[j].files@[0]) by {
                assert(after[i] == before[order[i] as int]);
                assert(after[j] == before[order[j] as int]);
                assert(keys@[order[i] as int] == keys@[order[j] as int]);
                assert(order[i] < order[j]);
                assert(ref_before(before[order[i] as int].files@[0], before[order[j] as int].files@[0]));
            }
        }
        assert forall|i: int, j: int| 0 <= i < j < after.len() implies (#[trigger] after[i]).files@.len()
            > (#[trigger] after[j]).files@.len() || (after[i].files@.len() == after[j].files@.len()
            && order[i] < order[j]) by {
            assert(after[i] == before[order[i] as int]);
            assert(after[j] == before[order[j] as int]);
            assert(keys@[order[i] as int] >= keys@[order[j] as int]);
        }
    }
    (sorted, Ghost(order@))
}

/// What the analysis of the duplicates found: the directories that hold
/// nothing but duplicates, the brotherhoods, and the pairs of directories.
#[derive(Debug)]
pub struct DirsReport {
    pub dup_dirs: Vec<DupDir>,
    pub brotherhoods: Vec<Brotherhood>,
    pub auto_solvable_brotherhoods_count: usize,
    pub dir_pairs: Vec<DirPair>,
}

/// What the analysis finds without looking at the disk. Whether a candidate
/// holds nothing but its duplicates is for the disk to tell.
#[derive(Debug)]
pub struct DirsAnalysis {
    pub candidates: Vec<DupDir>,
    pub brotherhoods: Vec<Brotherhood>,
    pub auto_solvable_brotherhoods_count: usize,
    pub dir_pairs: Vec<DirPair>,
}

/// A directory and the number of entries, files and directories, that it
/// holds on disk; `None` where the directory could not be read.
#[derive(Debug)]
pub struct DirSize {
    pub path: String,
    pub entries: Option<usize>,
}

/// A directory whose entries could not be counted.
#[derive(Debug)]
pub struct UnreadableDir {
    pub path: String,
}

/// The number of entries that `sizes` gives for `dir`: that of the first
/// item for it. `None` where no item is for `dir`, or the first one has no
/// number.
pub open spec fn entries_of(sizes: Seq<DirSize>, dir: Seq<char>) -> Option<usize>
    decreases sizes.len(),
{
    if sizes.len() == 0 {
        None
    } else if sizes[0].path@ == dir {
        sizes[0].entries
    } else {
        entries_of(sizes.drop_first(), dir)
    }
}

/// The directory `dir` is one of `candidates`, and its number of entries
/// on disk is the number of duplicates it holds.
pub open spec fn is_kept_candidate(dir: DupDir, candidates: Seq<DupDir>, entry_counts: Seq<Option<usize>>) -> bool {
    exists|c: int|
        0 <= c < candidates.len() && #[trigger] candidates[c] == dir && entry_counts[c] == Some(
            candidates[c].files@.len() as usize,
        )
}

/// The directories `kept` are those of `candidates` whose number of
/// entries on disk is the number of duplicates they hold: `kept[k]` is the
/// candidate at position `origin[k]`. They come in descending order of the
/// number of their files, those with as many in the order of the
/// candidates.
pub open spec fn kept_as(
    kept: Seq<DupDir>,
    candidates: Seq<DupDir>,
    entry_counts: Seq<Option<usize>>,
    origin: Seq<int>,
) -> bool {
    &&& origin.len() == kept.len()
    &&& forall|k: int|
        0 <= k < kept.len() ==> {
            &&& 0 <= #[trigger] origin[k] < candidates.len()
            &&& candidates[origin[k]] == kept[k]
            &&& entry_counts[origin[k]] == Some(kept[k].files@.len() as usize)
        }
    &&& forall|c: int|
        0 <= c < candidates.len() && entry_counts[c] == Some(
            (#[trigger] candidates[c]).files@.len() as usize,
        ) ==> exists|k: int| 0 <= k < kept.len() && #[trigger] origin[k] == c
    &&& forall|i: int, j: int|
        0 <= i < j < kept.len() ==> kept[i].files@.len() > kept[j].files@.len() || (kept[i].files@.len()
            == kept[j].files@.len() && #[trigger] origin[i] < #[trigger] origin[j])
}

/// The directories `kept` are those of `candidates` whose number of
/// entries on disk is the number of duplicates they hold.
pub open spec fn kept_from(kept: Seq<DupDir>, candidates: Seq<DupDir>, entry_counts: Seq<Option<usize>>) -> bool {
    &&& forall|k: int| 0 <= k < kept.len() ==> is_kept_candidate(#[trigger] kept[k], candidates, entry_counts)
    &&& forall|c: int|
        0 <= c < candidates.len() && entry_counts[c] == Some(
            (#[trigger] candidates[c]).files@.len() as usize,
        ) ==> kept.contains(candidates[c])
    &&& distinct_paths(candidates) ==> distinct_paths(kept)
}

/// The directory at position `c` is the first whose entries could not be
/// counted.
pub open spec fn is_first_unread(entry_counts: Seq<Option<usize>>, c: int) -> bool {
    &&& 0 <= c < entry_counts.len()
    &&& entry_counts[c] is None
    &&& forall|x: int| 0 <= x < c ==> #[trigger] entry_counts[x] is Some
}

impl DirsAnalysis {
    /// The analysis is that of `dups`.
    pub open spec fn describes(&self, dups: Seq<DupSet>) -> bool {
        &&& are_candidates(self.candidates@, dups)
        &&& by_first_file(self.candidates@)
        &&& are_brotherhoods(self.brotherhoods@, dups, dups.len() as int)
        &&& by_gain(self.brotherhoods@, dups)
        &&& self.auto_solvable_brotherhoods_count == auto_solvable_count(self.brotherhoods@)
        &&& are_dir_pairs(self.dir_pairs@, dups)
        &&& by_shared_files(self.dir_pairs@)
    }
}

impl DirsReport {
    /// The report is one of `dups`: the brotherhoods and the pairs of
    /// directories are those of `dups`, and each proposed directory is a
    /// candidate, proposed once, with all the duplicates it holds. Each of
    /// the three lists is in descending order: of the bytes to gain, of the
    /// number of shared files, of the number of files. What is equal in
    /// that comes in the order in which it is met.
    pub open spec fn describes(&self, dups: Seq<DupSet>) -> bool {
        &&& forall|k: int| 0 <= k < self.dup_dirs@.len() ==> (#[trigger] self.dup_dirs@[k]).describes(dups)
        &&& distinct_paths(self.dup_dirs@)
        &&& by_file_count(self.dup_dirs@)
        &&& ties_by_first_file(self.dup_dirs@)
        &&& are_brotherhoods(self.brotherhoods@, dups, dups.len() as int)
        &&& by_gain(self.brotherhoods@, dups)
        &&& self.auto_solvable_brotherhoods_count == auto_solvable_count(self.brotherhoods@)
        &&& are_dir_pairs(self.dir_pairs@, dups)
        &&& by_shared_files(self.dir_pairs@)
    }

    /// The proposed directories are the candidates that, by `sizes`, hold on
    /// disk exactly as many entries as they hold duplicates.
    pub open spec fn proposes(&self, dups: Seq<DupSet>, sizes: Seq<DirSize>) -> bool {
        &&& forall|k: int|
            0 <= k < self.dup_dirs@.len() ==> entries_of(sizes, (#[trigger] self.dup_dirs@[k]).path@)
                == Some(self.dup_dirs@[k].files@.len() as usize)
        &&& forall|dir: Seq<char>|
            #[trigger] is_candidate(dups, dir) && entries_of(sizes, dir) == Some(
                dir_files(dups, dir).len() as usize,
            ) ==> exists|k: int| 0 <= k < self.dup_dirs@.len() && (#[trigger] self.dup_dirs@[k]).path@ == dir
    }

    /// Analyses the duplicates as far as that goes without the disk.
    pub fn analyze(dups: &[DupSet]) -> (r: DirsAnalysis)
        ensures
            r.describes(dups@),
    {
        let (index, dir_of, first) = number_parents(dups);
        let mut dir_chars: Vec<Vec<char>> = Vec::new();
        let mut d: usize = 0;
        while d < index.len()
            invariant
                d <= index.texts().len(),
                dir_chars@.len() == d,
                forall|x: int| 0 <= x < d ==> (#[trigger] dir_chars@[x])@ == index.texts()[x],
            decreases index.texts().len() - d,
        {
            dir_chars.push(chars_of(index.text(d).as_str()));
            d += 1;
        }
        let (brotherhoods, marks) = all_brotherhoods(dups, &dir_of, &index);
        let brotherhoods = sort_brotherhoods(brotherhoods, dups);
        let auto_solvable_brotherhoods_count = count_auto_solvable(&brotherhoods);
        let dir_pairs = sort_dir_pairs(all_dir_pairs(dups, &dir_of, &index, &dir_chars), dups);
        let held = tally(dups, &dir_of, &index);
        let candidates = candidates(dups, &dir_of, &index, held, &marks, first);
        DirsAnalysis { candidates, brotherhoods, auto_solvable_brotherhoods_count, dir_pairs }
    }
}

/// The number of entries that `sizes` gives for `dir`.
pub fn lookup_entries(sizes: &[DirSize], dir: &String) -> (r: Option<usize>)
    ensures
        r == entries_of(sizes@, dir@),
{
    let mut k: usize = 0;
    proof {
        assert(sizes@.skip(0) == sizes@);
    }
    while k < sizes.len()
        invariant
            k <= sizes@.len(),
            entries_of(sizes@, dir@) == entries_of(sizes@.skip(k as int), dir@),
        decreases sizes@.len() - k,
    {
        proof {
            assert(sizes@.skip(k as int)[0] == sizes@[k as int]);
            assert(sizes@.skip(k as int).drop_first() == sizes@.skip(k + 1));
        }
        if sizes[k].path == *dir {
            return sizes[k].entries;
        }
        k += 1;
    }
    None
}

impl DirsAnalysis {
    /// Finishes the analysis with what the disk says: `entry_counts` holds,
    /// for each candidate in turn, the number of entries of the directory,
    /// or `None` where it could not be read. A candidate is proposed where
    /// that number is the number of its duplicates. One directory that could
    /// not be read fails the whole.
    pub fn conclude(self, entry_counts: &Vec<Option<usize>>) -> (r: Result<DirsReport, UnreadableDir>)
        requires
            entry_counts@.len() == self.candidates@.len(),
        ensures
            r is Err <==> exists|c: int| 0 <= c < entry_counts@.len() && #[trigger] entry_counts@[c] is None,
            r matches Err(e) ==> exists|c: int|
                is_first_unread(entry_counts@, c) && e.path@ == (#[trigger] self.candidates@[c]).path@,
            r matches Ok(report) ==> {
                &&& report.brotherhoods == self.brotherhoods
                &&& report.auto_solvable_brotherhoods_count == self.auto_solvable_brotherhoods_count
                &&& report.dir_pairs == self.dir_pairs
                &&& exists|origin: Seq<int>| kept_as(report.dup_dirs@, self.candidates@, entry_counts@, origin)
                &&& kept_from(report.dup_dirs@, self.candidates@, entry_counts@)
                &&& by_file_count(report.dup_dirs@)
                &&& by_first_file(self.candidates@) ==> ties_by_first_file(report.dup_dirs@)
            },
    {
        let mut c: usize = 0;
        while c < entry_counts.len()
            invariant
                c <= entry_counts@.len(),
                entry_counts@.len() == self.candidates@.len(),
                forall|x: int| 0 <= x < c ==> #[trigger] entry_counts@[x] is Some,
            decreases entry_counts@.len() - c,
        {
            if entry_counts[c].is_none() {
                assert(is_first_unread(entry_counts@, c as int));
                return Err(UnreadableDir { path: self.candidates[c].path.clone() });
            }
            c += 1;
        }
        let ghost all = self.candidates@;
        let ghost counts = entry_counts@;
        let DirsAnalysis { candidates, brotherhoods, auto_solvable_brotherhoods_count, dir_pairs } = self;
        let candidate_count = candidates.len();
        let mut kept: Vec<DupDir> = Vec::new();
        let ghost mut origin: Seq<int> = Seq::empty();
        let mut c: usize = 0;
        for candidate in it: candidates
            invariant
                it.seq() == all,
                c == it.index(),
                all.len() == candidate_count,
                counts == entry_counts@,
                counts.len() == all.len(),
                origin.len() == kept@.len(),
                forall|k: int|
                    0 <= k < kept@.len() ==> 0 <= #[trigger] origin[k] < c && all[origin[k]] == kept@[k]
                        && counts[origin[k]] == Some(all[origin[k]].files@.len() as usize),
                forall|k: int, l: int| 0 <= k < l < kept@.len() ==> #[trigger] origin[k] < #[trigger] origin[l],
                forall|x: int|
                    0 <= x < c && counts[x] == Some((#[trigger] all[x]).files@.len() as usize) ==> exists|k: int|
                        0 <= k < kept@.len() && #[trigger] origin[k] == x,
        {
            let ghost before = kept@;
            let ghost origin_before = origin;
            let fits = match entry_counts[c] {
                Some(n) => n == candidate.files.len(),
                None => false,
            };
            if fits {
                kept.push(candidate);
                proof {
                    origin = origin.push(c as int);
                    let after = kept@;
                    assert forall|k: int| 0 <= k < after.len() implies 0 <= #[trigger] origin[k] < c + 1
                        && all[origin[k]] == after[k] && counts[origin[k]] == Some(
                        all[origin[k]].files@.len() as usize,
                    ) by {
                        if k < before.len() {
                            assert(after[k] == before[k]);
                            assert(origin[k] == origin_before[k]);
                            assert(0 <= origin_before[k] < c);
                        }
                    }
                    assert forall|k: int, l: int| 0 <= k < l < after.len() implies #[trigger] origin[k]
                        < #[trigger] origin[l] by {
                        assert(origin[k] == origin_before[k]);
                        assert(0 <= origin_before[k] < c);
                        if l < before.len() {
                            assert(origin[l] == origin_before[l]);
                        }
                    }
                    assert forall|x: int|
                        0 <= x < c + 1 && counts[x] == Some(
                            (#[trigger] all[x]).files@.len() as usize,
                        ) implies exists|k: int| 0 <= k < after.len() && #[trigger] origin[k] == x by {
                        if x < c {
                            let k = choose|k: int| 0 <= k < before.len() && #[trigger] origin_before[k] == x;
                            assert(origin[k] == x);
                        } else {
                            assert(origin[after.len() - 1] == x);
                        }
                    }
                }
            } else {
                proof {
                    assert forall|k: int| 0 <= k < kept@.len() implies 0 <= #[trigger] origin[k] < c + 1
                        && all[origin[k]] == kept@[k] && counts[origin[k]] == Some(
                        all[origin[k]].files@.len() as usize,
                    ) by {
                        assert(0 <= origin_before[k] < c);
                    }
                }
            }
            c += 1;
        }
        let ghost unsorted = kept@;
        proof {
            if distinct_paths(all) {
                assert forall|k: int, l: int|
                    0 <= k < unsorted.len() && 0 <= l < unsorted.len() && k != l implies (#[trigger] unsorted[k]).path@
                    != (#[trigger] unsorted[l]).path@ by {
                    assert(all[origin[k]] == unsorted[k] && all[origin[l]] == unsorted[l]);
                    if k < l {
                        assert(origin[k] < origin[l]);
                    } else {
                        assert(origin[l] < origin[k]);
                    }
                }
            }
            if by_first_file(all) {
                assert forall|k: int, l: int| 0 <= k < l < unsorted.len() implies ref_before(
                    (#[trigger] unsorted[k]).files@[0],
                    (#[trigger] unsorted[l]).files@[0],
                ) by {
                    assert(all[origin[k]] == unsorted[k] && all[origin[l]] == unsorted[l]);
                    assert(origin[k] < origin[l]);
                }
            }
        }
        let (dup_dirs, order) = sort_kept(kept);
        proof {
            let sorted = dup_dirs@;
            let order = order@;
            let origin_sorted = Seq::new(sorted.len(), |k: int| origin[order[k] as int]);
            assert(sorted.len() == dup_dirs.len());
            assert(unsorted.len() == sorted.len());
            assert forall|k: int| 0 <= k < sorted.len() implies {
                &&& 0 <= #[trigger] origin_sorted[k] < all.len()
                &&& all[origin_sorted[k]] == sorted[k]
                &&& counts[origin_sorted[k]] == Some(sorted[k].files@.len() as usize)
            } by {
                assert(sorted[k] == unsorted[order[k] as int]);
                assert(0 <= origin[order[k] as int] < all.len());
            }
            assert forall|x: int|
                0 <= x < all.len() && counts[x] == Some(
                    (#[trigger] all[x]).files@.len() as usize,
                ) implies exists|k: int| 0 <= k < sorted.len() && #[trigger] origin_sorted[k] == x by {
                let u = choose|u: int| 0 <= u < unsorted.len() && #[trigger] origin[u] == x;
                assert(order.contains(u as usize));
                let k = choose|k: int| 0 <= k < order.len() && order[k] == u as usize;
                assert(origin_sorted[k] == x);
            }
            assert forall|i: int, j: int| 0 <= i < j < sorted.len() implies sorted[i].files@.len()
                > sorted[j].files@.len() || (sorted[i].files@.len() == sorted[j].files@.len()
                && #[trigger] origin_sorted[i] < #[trigger] origin_sorted[j]) by {
                if sorted[i].files@.len() == sorted[j].files@.len() {
                    assert(order[i] < order[j]);
                    assert(origin[order[i] as int] < origin[order[j] as int]);
                }
            }
            assert(kept_as(sorted, all, counts, origin_sorted));
            assert forall|k: int| 0 <= k < sorted.len() implies is_kept_candidate(
                #[trigger] sorted[k],
                all,
                counts,
            ) by {
                assert(unsorted.contains(sorted[k]));
                let u = choose|u: int| 0 <= u < unsorted.len() && unsorted[u] == sorted[k];
                let x = origin[u];
                assert(0 <= x < all.len());
                assert(all[x] == sorted[k]);
                assert(counts[x] == Some(all[x].files@.len() as usize));
            }
            assert forall|x: int|
                0 <= x < all.len() && counts[x] == Some(
                    (#[trigger] all[x]).files@.len() as usize,
                ) implies sorted.contains(all[x]) by {
                let u = choose|u: int| 0 <= u < unsorted.len() && #[trigger] origin[u] == x;
                assert(unsorted[u] == all[x]);
                assert(sorted.contains(unsorted[u]));
            }
        }
        assert(kept_from(dup_dirs@, all, counts));
        Ok(DirsReport { dup_dirs, brotherhoods, auto_solvable_brotherhoods_count, dir_pairs })
    }
}

impl DirsReport {
    /// Analyses the duplicates. `sizes` tells how many entries the
    /// directories hold on disk: a candidate is proposed for removal as a
    /// whole where that number is the number of its duplicates, so that
    /// nothing else lies in it. A candidate of which `sizes` gives no number
    /// fails the analysis: the failure names the first such directory met.
    pub fn compute(dups: &[DupSet], sizes: &[DirSize]) -> (r: Result<DirsReport, UnreadableDir>)
        ensures
            r is Err <==> exists|dir: Seq<char>| #[trigger]
                is_candidate(dups@, dir) && entries_of(sizes@, dir) is None,
            r matches Err(e) ==> {
                &&& is_candidate(dups@, e.path@)
                &&& entries_of(sizes@, e.path@) is None
                &&& forall|dir: Seq<char>|
                    #[trigger] is_candidate(dups@, dir) && entries_of(sizes@, dir) is None ==> !ref_before(
                        dir_files(dups@, dir)[0],
                        dir_files(dups@, e.path@)[0],
                    )
            },
            r matches Ok(report) ==> report.describes(dups@) && report.proposes(dups@, sizes@),
    {
        let analysis = DirsReport::analyze(dups);
        let mut entry_counts: Vec<Option<usize>> = Vec::new();
        let mut c: usize = 0;
        while c < analysis.candidates.len()
            invariant
                c <= analysis.candidates@.len(),
                entry_counts@.len() == c,
                forall|x: int|
                    0 <= x < c ==> #[trigger] entry_counts@[x] == entries_of(
                        sizes@,
                        analysis.candidates@[x].path@,
                    ),
            decreases analysis.candidates@.len() - c,
        {
            entry_counts.push(lookup_entries(sizes, &analysis.candidates[c].path));
            c += 1;
        }
        let ghost all = analysis.candidates@;
        let ghost counts = entry_counts@;
        let r = analysis.conclude(&entry_counts);
        proof {
            assert forall|dir: Seq<char>| #[trigger]
                is_candidate(dups@, dir) && entries_of(sizes@, dir) is None implies r is Err by {
                let x = choose|x: int| 0 <= x < all.len() && (#[trigger] all[x]).path@ == dir;
                assert(counts[x] is None);
            }
            match &r {
                Err(e) => {
                    let x = choose|x: int| is_first_unread(counts, x) && e.path@ == (#[trigger] all[x]).path@;
                    assert(all[x].describes(dups@));
                    assert(is_candidate(dups@, e.path@) && entries_of(sizes@, e.path@) is None);
                    assert forall|dir: Seq<char>|
                        #[trigger] is_candidate(dups@, dir) && entries_of(sizes@, dir) is None implies !ref_before(
                        dir_files(dups@, dir)[0],
                        dir_files(dups@, e.path@)[0],
                    ) by {
                        let y = choose|y: int| 0 <= y < all.len() && (#[trigger] all[y]).path@ == dir;
                        assert(all[y].describes(dups@));
                        assert(counts[y] is None);
                        if y > x {
                            assert(ref_before(all[x].files@[0], all[y].files@[0]));
                        }
                    }
                },
                Ok(report) => {
                    let kept = report.dup_dirs@;
                    assert forall|k: int| 0 <= k < kept.len() implies (#[trigger] kept[k]).describes(dups@)
                        && entries_of(sizes@, kept[k].path@) == Some(kept[k].files@.len() as usize) by {
                        assert(is_kept_candidate(kept[k], all, counts));
                        let x = choose|x: int|
                            0 <= x < all.len() && #[trigger] all[x] == kept[k] && counts[x] == Some(
                                all[x].files@.len() as usize,
                            );
                        assert(all[x].describes(dups@));
                    }
                    assert forall|dir: Seq<char>|
                        #[trigger] is_candidate(dups@, dir) && entries_of(sizes@, dir) == Some(
                            dir_files(dups@, dir).len() as usize,
                        ) implies exists|k: int| 0 <= k < kept.len() && (#[trigger] kept[k]).path@ == dir by {
                        let x = choose|x: int| 0 <= x < all.len() && (#[trigger] all[x]).path@ == dir;
                        assert(all[x].describes(dups@));
                        assert(kept.contains(all[x]));
                        let k = choose|k: int| 0 <= k < kept.len() && kept[k] == all[x];
                        assert(kept[k].path@ == dir);
                    }
                    assert(distinct_paths(all));
                },
            }
        }
        r
    }
}

/// A directory that is proposed for removal as a whole is the directory of
/// no brotherhood.
pub proof fn lemma_dup_dir_is_no_brotherhood_parent(report: DirsReport, dups: Seq<DupSet>, k: int, l: int)
    requires
        report.describes(dups),
        0 <= k < report.dup_dirs@.len(),
        0 <= l < report.brotherhoods@.len(),
    ensures
        report.dup_dirs@[k].path@ != report.brotherhoods@[l].parent@,
{
    let b = report.brotherhoods@[l];
    assert(b.describes(dups));
    assert(report.dup_dirs@[k].describes(dups));
    if report.dup_dirs@[k].path@ == b.parent@ {
        let s = b.dup_set_idx as int;
        let i = b.files@[0] as int;
        let j = b.files@[1] as int;
        assert(crate::parents::in_set(dups, s, i) && crate::parents::in_set(dups, s, j));
        assert(crate::parents::parent_at(dups, s, i) == b.parent@);
        assert(crate::parents::parent_at(dups, s, j) == b.parent@);
        assert(has_brothers(dups, b.parent@));
    }
}

/// A directory is proposed for removal as a whole only where it holds, on
/// disk, exactly as many entries as it holds duplicates, and these are
/// three or more.
pub proof fn lemma_dup_dir_holds_only_duplicates(report: DirsReport, dups: Seq<DupSet>, sizes: Seq<DirSize>, k: int)
    requires
        report.describes(dups),
        report.proposes(dups, sizes),
        0 <= k < report.dup_dirs@.len(),
    ensures
        report.dup_dirs@[k].files@ == dir_files(dups, report.dup_dirs@[k].path@),
        report.dup_dirs@[k].files@.len() >= 3,
        entries_of(sizes, report.dup_dirs@[k].path@) == Some(report.dup_dirs@[k].files@.len() as usize),
{
    assert(report.dup_dirs@[k].describes(dups));
}

/// A brotherhood of a report is marked as solvable without asking exactly
/// when one of its files alone does not have the name of a copy.
pub proof fn lemma_auto_solvable_has_one_original(report: DirsReport, dups: Seq<DupSet>, l: int)
    requires
        report.describes(dups),
        0 <= l < report.brotherhoods@.len(),
    ensures
        report.brotherhoods@[l].is_auto_solvable <==> crate::brothers::one_original(
            dups,
            report.brotherhoods@[l].dup_set_idx as int,
            report.brotherhoods@[l].files@,
        ),
{
    assert(report.brotherhoods@[l].describes(dups));
}

} // verus!
