//! What keeps the staging safe: the answers to the staging questions never
//! take the last file of a set of identical files.

use vstd::prelude::*;
use crate::ask::{
    all_copies_of, auto_solve_refs, copies_of, is_safe_to_stage, leaves_a_file, left_of, lefts_of,
    others_of, removable_pairs_of, right_of, rights_of,
};
use crate::brothers::one_original;
use crate::copy_name::is_copy_name;
use crate::dirs::{Brotherhood, DirPair};
use crate::dup::{file_ref, DupFileRef, DupSet};
use crate::file_pair::FilePair;
use crate::pairs::{cross_pair, lies_in};
use crate::parents::name_at;
use crate::removal_report::{is_emptied, lemma_stage_all_keeps, stage_all};
use crate::paths::lemma_path_total;

verus! {

/// Every set keeps a file that is not staged.
pub open spec fn keeps_every_set(staged: Seq<DupFileRef>, dups: Seq<DupSet>) -> bool {
    forall|s: int| 0 <= s < dups.len() ==> !#[trigger] is_emptied(staged, dups, s)
}

/// A set that keeps a file has a file that is not staged.
proof fn lemma_kept_file(staged: Seq<DupFileRef>, dups: Seq<DupSet>, s: int) -> (i: int)
    requires
        !is_emptied(staged, dups, s),
    ensures
        0 <= i < dups[s].files@.len(),
        !staged.contains(file_ref(s, i)),
{
    choose|i: int| 0 <= i < dups[s].files@.len() && !staged.contains(#[trigger] file_ref(s, i))
}

/// Staging the files of a directory that is safe to stage leaves a file of
/// every set.
pub proof fn lemma_staging_a_safe_directory_keeps_every_set(
    staged: Seq<DupFileRef>,
    files: Seq<DupFileRef>,
    dups: Seq<DupSet>,
)
    requires
        dups.len() <= usize::MAX,
        keeps_every_set(staged, dups),
        is_safe_to_stage(files, dups, staged),
    ensures
        keeps_every_set(stage_all(staged, files), dups),
{
    let after = stage_all(staged, files);
    assert forall|s: int| 0 <= s < dups.len() implies !#[trigger] is_emptied(after, dups, s) by {
        if exists|k: int| 0 <= k < files.len() && (#[trigger] files[k]).dup_set_idx == s {
            let k = choose|k: int| 0 <= k < files.len() && (#[trigger] files[k]).dup_set_idx == s;
            assert(leaves_a_file(files, dups, staged, files[k].dup_set_idx as int));
            let i = choose|i: int|
                0 <= i < dups[s].files@.len() && !staged.contains(#[trigger] file_ref(s, i))
                    && !files.contains(file_ref(s, i));
            lemma_stage_all_keeps(staged, files, file_ref(s, i));
            assert(!after.contains(file_ref(s, i)));
        } else {
            let i = lemma_kept_file(staged, dups, s);
            lemma_stage_all_keeps(staged, files, file_ref(s, i));
            if files.contains(file_ref(s, i)) {
                let k = choose|k: int| 0 <= k < files.len() && files[k] == file_ref(s, i);
                assert(files[k].dup_set_idx == s);
            }
            assert(!after.contains(file_ref(s, i)));
        }
    }
}

/// The members of a brotherhood other than one file are members of its set,
/// and the one file is not among them.
proof fn lemma_others(b: Brotherhood, kept: usize, n: int)
    requires
        0 <= n <= b.files@.len(),
    ensures
        forall|x: int|
            0 <= x < others_of(b, kept, n).len() ==> (#[trigger] others_of(b, kept, n)[x]).dup_set_idx
                == b.dup_set_idx && others_of(b, kept, n)[x].dup_file_idx != kept,
    decreases n,
{
    if n > 0 {
        lemma_others(b, kept, n - 1);
        let here = others_of(b, kept, n);
        let fewer = others_of(b, kept, n - 1);
        assert forall|x: int| 0 <= x < here.len() implies (#[trigger] here[x]).dup_set_idx == b.dup_set_idx
            && here[x].dup_file_idx != kept by {
            if x < fewer.len() {
                assert(here[x] == fewer[x]);
            }
        }
    }
}

/// Keeping a file of a brotherhood that is not staged, and staging the
/// other members, leaves a file of every set.
pub proof fn lemma_keeping_a_brother_keeps_every_set(
    staged: Seq<DupFileRef>,
    b: Brotherhood,
    kept: usize,
    dups: Seq<DupSet>,
)
    requires
        dups.len() <= usize::MAX,
        keeps_every_set(staged, dups),
        b.dup_set_idx < dups.len(),
        kept < dups[b.dup_set_idx as int].files@.len(),
        !staged.contains(file_ref(b.dup_set_idx as int, kept as int)),
    ensures
        keeps_every_set(stage_all(staged, others_of(b, kept, b.files@.len() as int)), dups),
{
    let others = others_of(b, kept, b.files@.len() as int);
    let after = stage_all(staged, others);
    lemma_others(b, kept, b.files@.len() as int);
    assert forall|s: int| 0 <= s < dups.len() implies !#[trigger] is_emptied(after, dups, s) by {
        let i = if s == b.dup_set_idx {
            kept as int
        } else {
            lemma_kept_file(staged, dups, s)
        };
        lemma_stage_all_keeps(staged, others, file_ref(s, i));
        if others.contains(file_ref(s, i)) {
            let x = choose|x: int| 0 <= x < others.len() && others[x] == file_ref(s, i);
            assert(others[x].dup_set_idx == b.dup_set_idx && others[x].dup_file_idx != kept);
        }
        assert(!after.contains(file_ref(s, i)));
    }
}

/// The pairs of which neither file is staged are among the pairs, and
/// neither of their files is staged.
proof fn lemma_removable_pairs(pairs: Seq<FilePair>, staged: Seq<DupFileRef>, n: int)
    requires
        0 <= n <= pairs.len(),
    ensures
        forall|x: int|
            0 <= x < removable_pairs_of(pairs, staged, n).len() ==> {
                let p = #[trigger] removable_pairs_of(pairs, staged, n)[x];
                pairs.contains(p) && !staged.contains(left_of(p)) && !staged.contains(right_of(p))
            },
    decreases n,
{
    if n > 0 {
        lemma_removable_pairs(pairs, staged, n - 1);
        let here = removable_pairs_of(pairs, staged, n);
        let fewer = removable_pairs_of(pairs, staged, n - 1);
        assert forall|x: int| 0 <= x < here.len() implies pairs.contains(#[trigger] here[x])
            && !staged.contains(left_of(here[x])) && !staged.contains(right_of(here[x])) by {
            if x < fewer.len() {
                assert(here[x] == fewer[x]);
            } else {
                assert(here[x] == pairs[n - 1]);
            }
        }
    }
}

/// Staging the files of one side of a pair of directories, for the pairs of
/// which neither file is staged, leaves a file of every set.
pub proof fn lemma_staging_one_side_keeps_every_set(
    staged: Seq<DupFileRef>,
    dir_pair: DirPair,
    dups: Seq<DupSet>,
)
    requires
        dups.len() <= usize::MAX,
        keeps_every_set(staged, dups),
        dir_pair.describes(dups),
    ensures
        keeps_every_set(
            stage_all(
                staged,
                lefts_of(removable_pairs_of(dir_pair.file_pairs@, staged, dir_pair.file_pairs@.len() as int)),
            ),
            dups,
        ),
        keeps_every_set(
            stage_all(
                staged,
                rights_of(removable_pairs_of(dir_pair.file_pairs@, staged, dir_pair.file_pairs@.len() as int)),
            ),
            dups,
        ),
{
    let pairs = dir_pair.file_pairs@;
    let removable = removable_pairs_of(pairs, staged, pairs.len() as int);
    lemma_removable_pairs(pairs, staged, pairs.len() as int);
    lemma_path_total(dir_pair.key.left_dir@, dir_pair.key.left_dir@);
    assert forall|x: int| 0 <= x < removable.len() implies cross_pair(dups, #[trigger] removable[x])
        && lies_in(dups, removable[x], dir_pair.key.left_dir@, dir_pair.key.right_dir@) by {
        assert(pairs.contains(removable[x]));
        let y = choose|y: int| 0 <= y < pairs.len() && pairs[y] == removable[x];
        assert(cross_pair(dups, pairs[y]));
    }
    let lefts = lefts_of(removable);
    let rights = rights_of(removable);
    let after_left = stage_all(staged, lefts);
    let after_right = stage_all(staged, rights);
    assert forall|s: int| 0 <= s < dups.len() implies !#[trigger] is_emptied(after_left, dups, s) by {
        if exists|x: int| 0 <= x < removable.len() && (#[trigger] removable[x]).dup_set_idx == s {
            // the right file stays when the left files go
            let x = choose|x: int| 0 <= x < removable.len() && (#[trigger] removable[x]).dup_set_idx == s;
            let p = removable[x];
            assert(cross_pair(dups, p));
            let r = right_of(p);
            lemma_stage_all_keeps(staged, lefts, r);
            if lefts.contains(r) {
                let y = choose|y: int| 0 <= y < lefts.len() && lefts[y] == r;
                assert(cross_pair(dups, removable[y]));
                assert(left_of(removable[y]) == right_of(p));
            }
            assert(r == file_ref(s, p.right_file_idx as int));
            assert(!after_left.contains(file_ref(s, p.right_file_idx as int)));
        } else {
            let i = lemma_kept_file(staged, dups, s);
            lemma_stage_all_keeps(staged, lefts, file_ref(s, i));
            if lefts.contains(file_ref(s, i)) {
                let y = choose|y: int| 0 <= y < lefts.len() && lefts[y] == file_ref(s, i);
                assert(removable[y].dup_set_idx == s);
            }
            assert(!after_left.contains(file_ref(s, i)));
        }
    }
    assert forall|s: int| 0 <= s < dups.len() implies !#[trigger] is_emptied(after_right, dups, s) by {
        if exists|x: int| 0 <= x < removable.len() && (#[trigger] removable[x]).dup_set_idx == s {
            // the left file stays when the right files go
            let x = choose|x: int| 0 <= x < removable.len() && (#[trigger] removable[x]).dup_set_idx == s;
            let p = removable[x];
            assert(cross_pair(dups, p));
            let l = left_of(p);
            lemma_stage_all_keeps(staged, rights, l);
            if rights.contains(l) {
                let y = choose|y: int| 0 <= y < rights.len() && rights[y] == l;
                assert(cross_pair(dups, removable[y]));
                assert(right_of(removable[y]) == left_of(p));
            }
            assert(l == file_ref(s, p.left_file_idx as int));
            assert(!after_right.contains(file_ref(s, p.left_file_idx as int)));
        } else {
            let i = lemma_kept_file(staged, dups, s);
            lemma_stage_all_keeps(staged, rights, file_ref(s, i));
            if rights.contains(file_ref(s, i)) {
                let y = choose|y: int| 0 <= y < rights.len() && rights[y] == file_ref(s, i);
                assert(removable[y].dup_set_idx == s);
            }
            assert(!after_right.contains(file_ref(s, i)));
        }
    }
}

/// The copies of a brotherhood are files of its set that have the name of a
/// copy.
proof fn lemma_copies(dups: Seq<DupSet>, b: Brotherhood, n: int)
    requires
        0 <= n <= b.files@.len(),
    ensures
        forall|x: int|
            0 <= x < copies_of(dups, b, n).len() ==> {
                let r = #[trigger] copies_of(dups, b, n)[x];
                r.dup_set_idx == b.dup_set_idx && is_copy_name(
                    name_at(dups, b.dup_set_idx as int, r.dup_file_idx as int),
                )
            },
    decreases n,
{
    if n > 0 {
        lemma_copies(dups, b, n - 1);
        let here = copies_of(dups, b, n);
        let fewer = copies_of(dups, b, n - 1);
        assert forall|x: int| 0 <= x < here.len() implies (#[trigger] here[x]).dup_set_idx == b.dup_set_idx
            && is_copy_name(name_at(dups, b.dup_set_idx as int, here[x].dup_file_idx as int)) by {
            if x < fewer.len() {
                assert(here[x] == fewer[x]);
            }
        }
    }
}

/// What the answer "yes" to the question about all solvable brotherhoods
/// stages are files with the name of a copy, each of the set of a solvable
/// brotherhood.
proof fn lemma_auto_solve_refs(found: Seq<Brotherhood>, dups: Seq<DupSet>, n: int)
    requires
        0 <= n <= found.len(),
    ensures
        forall|x: int|
            0 <= x < auto_solve_refs(found, dups, n).len() ==> {
                let r = #[trigger] auto_solve_refs(found, dups, n)[x];
                is_copy_name(name_at(dups, r.dup_set_idx as int, r.dup_file_idx as int)) && exists|
                    k: int,
                |
                    0 <= k < n && (#[trigger] found[k]).is_auto_solvable && found[k].dup_set_idx
                        == r.dup_set_idx
            },
    decreases n,
{
    if n > 0 {
        lemma_auto_solve_refs(found, dups, n - 1);
        let here = auto_solve_refs(found, dups, n);
        let fewer = auto_solve_refs(found, dups, n - 1);
        lemma_copies(dups, found[n - 1], found[n - 1].files@.len() as int);
        assert forall|x: int| 0 <= x < here.len() implies is_copy_name(
            name_at(dups, (#[trigger] here[x]).dup_set_idx as int, here[x].dup_file_idx as int),
        ) && exists|k: int|
            0 <= k < n && (#[trigger] found[k]).is_auto_solvable && found[k].dup_set_idx
                == here[x].dup_set_idx by {
            if x < fewer.len() {
                assert(here[x] == fewer[x]);
                let k = choose|k: int|
                    0 <= k < n - 1 && (#[trigger] found[k]).is_auto_solvable && found[k].dup_set_idx
                        == fewer[x].dup_set_idx;
                assert(found[k].is_auto_solvable);
            } else {
                assert(here[x] == all_copies_of(dups, found[n - 1])[x - fewer.len()]);
                assert(found[n - 1].is_auto_solvable);
            }
        }
    }
}

/// Staging the copies of the solvable brotherhoods leaves a file of every
/// set, where nothing was staged before and every set has a file.
pub proof fn lemma_auto_solving_keeps_every_set(found: Seq<Brotherhood>, dups: Seq<DupSet>)
    requires
        dups.len() <= usize::MAX,
        forall|s: int| 0 <= s < dups.len() ==> (#[trigger] dups[s]).files@.len() > 0,
        forall|k: int| 0 <= k < found.len() ==> (#[trigger] found[k]).describes(dups),
    ensures
        keeps_every_set(
            stage_all(Seq::<DupFileRef>::empty(), auto_solve_refs(found, dups, found.len() as int)),
            dups,
        ),
{
    let nothing = Seq::<DupFileRef>::empty();
    let refs = auto_solve_refs(found, dups, found.len() as int);
    let after = stage_all(nothing, refs);
    lemma_auto_solve_refs(found, dups, found.len() as int);
    assert forall|s: int| 0 <= s < dups.len() implies !#[trigger] is_emptied(after, dups, s) by {
        if exists|k: int| 0 <= k < found.len() && (#[trigger] found[k]).is_auto_solvable && found[k].dup_set_idx == s {
            let k = choose|k: int|
                0 <= k < found.len() && (#[trigger] found[k]).is_auto_solvable && found[k].dup_set_idx == s;
            let b = found[k];
            assert(b.describes(dups));
            assert(one_original(dups, s, b.files@));
            let o = choose|o: int|
                0 <= o < b.files@.len() && !is_copy_name(#[trigger] name_at(dups, s, b.files@[o] as int));
            let i = b.files@[o] as int;
            lemma_stage_all_keeps(nothing, refs, file_ref(s, i));
            if refs.contains(file_ref(s, i)) {
                let x = choose|x: int| 0 <= x < refs.len() && refs[x] == file_ref(s, i);
                assert(is_copy_name(name_at(dups, refs[x].dup_set_idx as int, refs[x].dup_file_idx as int)));
            }
            assert(!after.contains(file_ref(s, i)));
        } else {
            lemma_stage_all_keeps(nothing, refs, file_ref(s, 0));
            if refs.contains(file_ref(s, 0)) {
                let x = choose|x: int| 0 <= x < refs.len() && refs[x] == file_ref(s, 0);
                let k = choose|k: int|
                    0 <= k < found.len() && (#[trigger] found[k]).is_auto_solvable && found[k].dup_set_idx
                        == refs[x].dup_set_idx;
                assert(found[k].dup_set_idx == s);
            }
            assert(!after.contains(file_ref(s, 0)));
        }
    }
}

} // verus!
