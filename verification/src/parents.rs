//! The directories that hold duplicates, numbered in order of first
//! appearance, and the number of each file's directory.

use vstd::prelude::*;
use crate::dup::{DupFileRef, DupSet};
use crate::index::TextIndex;

verus! {

/// The directory that holds file `i` of set `s`.
pub open spec fn parent_at(dups: Seq<DupSet>, s: int, i: int) -> Seq<char> {
    dups[s].files@[i].parent@
}

/// The name of file `i` of set `s`.
pub open spec fn name_at(dups: Seq<DupSet>, s: int, i: int) -> Seq<char> {
    dups[s].files@[i].name@
}

/// `i` is the position of a file of set `s`.
pub open spec fn in_set(dups: Seq<DupSet>, s: int, i: int) -> bool {
    0 <= s < dups.len() && 0 <= i < dups[s].files@.len()
}

/// `dirs` holds no directory twice.
pub open spec fn distinct(dirs: Seq<Seq<char>>) -> bool {
    forall|x: int, y: int| 0 <= x < dirs.len() && 0 <= y < dirs.len() && dirs[x] == dirs[y] ==> x == y
}

/// `dir_of` gives, for each file of the first `upto` sets, the number of its
/// directory among `dirs`.
pub open spec fn numbered(
    dups: Seq<DupSet>,
    dirs: Seq<Seq<char>>,
    dir_of: Seq<Vec<usize>>,
    upto: int,
) -> bool {
    &&& dir_of.len() == upto
    &&& forall|s: int| 0 <= s < upto ==> (#[trigger] dir_of[s])@.len() == dups[s].files@.len()
    &&& forall|s: int, i: int|
        0 <= s < upto && 0 <= i < dups[s].files@.len() ==> {
            &&& (#[trigger] dir_of[s]@[i]) < dirs.len()
            &&& dirs[dir_of[s]@[i] as int] == parent_at(dups, s, i)
        }
}

/// File `j` of set `t` comes before file `i` of set `s` when the sets, and
/// in each set the files, are gone through in rising order.
pub open spec fn comes_before(t: int, j: int, s: int, i: int) -> bool {
    t < s || (t == s && j < i)
}

/// The file `r` comes before the file `other` when the sets, and in each
/// set the files, are gone through in rising order.
pub open spec fn ref_before(r: DupFileRef, other: DupFileRef) -> bool {
    comes_before(
        r.dup_set_idx as int,
        r.dup_file_idx as int,
        other.dup_set_idx as int,
        other.dup_file_idx as int,
    )
}

/// `first` holds, for each directory of `dirs`, the first file that lies
/// in it, and the directories are numbered in the order of these files.
pub open spec fn first_seen(dups: Seq<DupSet>, dirs: Seq<Seq<char>>, first: Seq<DupFileRef>) -> bool {
    &&& first.len() == dirs.len()
    &&& forall|d: int|
        0 <= d < first.len() ==> (#[trigger] first[d]).valid(dups) && first[d].file(dups).parent@ == dirs[d]
    &&& forall|d: int, s: int, i: int|
        0 <= d < first.len() && in_set(dups, s, i) && #[trigger] parent_at(dups, s, i) == dirs[d] ==> !comes_before(
            s,
            i,
            (#[trigger] first[d]).dup_set_idx as int,
            first[d].dup_file_idx as int,
        )
    &&& forall|d: int, e: int| 0 <= d < e < first.len() ==> ref_before(#[trigger] first[d], #[trigger] first[e])
}

/// Numbers the directories of all files of `dups`, in the order in which
/// they are first met.
pub(crate) fn number_parents(dups: &[DupSet]) -> (r: (TextIndex, Vec<Vec<usize>>, Ghost<Seq<DupFileRef>>))
    ensures
        r.0.wf(),
        distinct(r.0.texts()),
        numbered(dups@, r.0.texts(), r.1@, dups@.len() as int),
        first_seen(dups@, r.0.texts(), r.2@),
{
    let mut index = TextIndex::new();
    let mut dir_of: Vec<Vec<usize>> = Vec::new();
    let ghost mut first: Seq<DupFileRef> = Seq::empty();
    let mut s: usize = 0;
    while s < dups.len()
        invariant
            s <= dups@.len(),
            index.wf(),
            numbered(dups@, index.texts(), dir_of@, s as int),
            first.len() == index.texts().len(),
            forall|d: int|
                0 <= d < first.len() ==> (#[trigger] first[d]).valid(dups@) && first[d].file(dups@).parent@
                    == index.texts()[d] && first[d].dup_set_idx < s,
            forall|d: int, t: int, j: int|
                0 <= d < first.len() && 0 <= t < s && in_set(dups@, t, j) && #[trigger] parent_at(dups@, t, j)
                    == index.texts()[d] ==> !comes_before(
                    t,
                    j,
                    (#[trigger] first[d]).dup_set_idx as int,
                    first[d].dup_file_idx as int,
                ),
            forall|d: int, e: int| 0 <= d < e < first.len() ==> ref_before(#[trigger] first[d], #[trigger] first[e]),
        decreases dups@.len() - s,
    {
        let files = &dups[s].files;
        let mut row: Vec<usize> = Vec::new();
        let mut i: usize = 0;
        while i < files.len()
            invariant
                s < dups@.len(),
                files == &dups@[s as int].files,
                i <= files@.len(),
                index.wf(),
                numbered(dups@, index.texts(), dir_of@, s as int),
                row@.len() == i,
                forall|j: int|
                    0 <= j < i ==> {
                        &&& (#[trigger] row@[j]) < index.texts().len()
                        &&& index.texts()[row@[j] as int] == parent_at(dups@, s as int, j)
                    },
                first.len() == index.texts().len(),
                forall|d: int|
                    0 <= d < first.len() ==> (#[trigger] first[d]).valid(dups@) && first[d].file(
                        dups@,
                    ).parent@ == index.texts()[d] && comes_before(
                        first[d].dup_set_idx as int,
                        first[d].dup_file_idx as int,
                        s as int,
                        i as int,
                    ),
                forall|d: int, t: int, j: int|
                    0 <= d < first.len() && in_set(dups@, t, j) && comes_before(t, j, s as int, i as int)
                        && #[trigger] parent_at(dups@, t, j) == index.texts()[d] ==> !comes_before(
                        t,
                        j,
                        (#[trigger] first[d]).dup_set_idx as int,
                        first[d].dup_file_idx as int,
                    ),
                forall|d: int, e: int|
                    0 <= d < e < first.len() ==> ref_before(#[trigger] first[d], #[trigger] first[e]),
            decreases files@.len() - i,
        {
            let ghost before = index.texts();
            let ghost first_before = first;
            let id = index.intern(files[i].parent.as_str());
            proof {
                // numbers given earlier still stand for the same directories
                assert forall|j: int| 0 <= j < before.len() implies index.texts()[j] == before[j] by {
                    if !before.contains(files@[i as int].parent@) {
                        assert(index.texts() == before.push(files@[i as int].parent@));
                    }
                }
                let here = DupFileRef { dup_set_idx: s, dup_file_idx: i };
                if !before.contains(files@[i as int].parent@) {
                    first = first.push(here);
                    assert(parent_at(dups@, s as int, i as int) == index.texts()[id as int]);
                }
                assert forall|d: int, t: int, j: int|
                    0 <= d < first.len() && in_set(dups@, t, j) && comes_before(t, j, s as int, i + 1)
                        && #[trigger] parent_at(dups@, t, j) == index.texts()[d] implies !comes_before(
                    t,
                    j,
                    (#[trigger] first[d]).dup_set_idx as int,
                    first[d].dup_file_idx as int,
                ) by {
                    if d < first_before.len() {
                        assert(first[d] == first_before[d]);
                    } else {
                        // the directory is new: no file lay in it before
                        if !(t == s && j == i) {
                            if t < s {
                                assert(dir_of@[t]@[j] < before.len());
                                assert(before[dir_of@[t]@[j] as int] == parent_at(dups@, t, j));
                            } else {
                                assert(row@[j] < before.len());
                                assert(before[row@[j] as int] == parent_at(dups@, t, j));
                            }
                            assert(before.contains(parent_at(dups@, t, j)));
                        }
                    }
                }
                assert forall|d: int| 0 <= d < first.len() implies (#[trigger] first[d]).valid(dups@)
                    && first[d].file(dups@).parent@ == index.texts()[d] && comes_before(
                    first[d].dup_set_idx as int,
                    first[d].dup_file_idx as int,
                    s as int,
                    i + 1,
                ) by {
                    if d < first_before.len() {
                        assert(first[d] == first_before[d]);
                    }
                }
                assert forall|d: int, e: int| 0 <= d < e < first.len() implies ref_before(
                    #[trigger] first[d],
                    #[trigger] first[e],
                ) by {
                    assert(first[d] == first_before[d]);
                    if e < first_before.len() {
                        assert(first[e] == first_before[e]);
                    }
                }
            }
            row.push(id);
            i += 1;
        }
        dir_of.push(row);
        s += 1;
    }
    proof {
        index.lemma_distinct();
    }
    (index, dir_of, Ghost(first))
}

} // verus!
