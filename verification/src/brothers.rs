//! Brotherhoods: the files of one set that lie in one directory.

use vstd::prelude::*;
use crate::copy_name::is_copy_name;
use crate::dirs::Brotherhood;
use crate::dup::{DupFileRef, DupSet};
use crate::index::TextIndex;
use crate::parents::{distinct, in_set, name_at, parent_at};

verus! {

/// Exactly one of the files of set `s` at the positions `files` does not
/// have the name of a copy.
pub open spec fn one_original(dups: Seq<DupSet>, s: int, files: Seq<usize>) -> bool {
    exists|k: int|
        0 <= k < files.len() && !is_copy_name(#[trigger] name_at(dups, s, files[k] as int)) && forall|
            l: int,
        |
            0 <= l < files.len() && l != k ==> is_copy_name(
                #[trigger] name_at(dups, s, files[l] as int),
            )
}

impl Brotherhood {
    /// The members are the files of the set that lie in the directory
    /// `parent`: all of them, each once, in rising order.
    pub open spec fn gathers(&self, dups: Seq<DupSet>) -> bool {
        let s = self.dup_set_idx as int;
        &&& s < dups.len()
        &&& forall|k: int, l: int| 0 <= k < l < self.files@.len() ==> self.files@[k] < self.files@[l]
        &&& forall|k: int|
            0 <= k < self.files@.len() ==> in_set(dups, s, (#[trigger] self.files@[k]) as int)
                && parent_at(dups, s, self.files@[k] as int) == self.parent@
        &&& forall|i: int|
            in_set(dups, s, i) && #[trigger] parent_at(dups, s, i) == self.parent@
                ==> self.files@.contains(i as usize)
    }

    /// The brotherhood is that of its set and directory: it gathers two
    /// files or more, and it is marked as solvable without asking exactly
    /// when one member alone does not have the name of a copy.
    pub open spec fn describes(&self, dups: Seq<DupSet>) -> bool {
        &&& self.gathers(dups)
        &&& self.files@.len() >= 2
        &&& self.is_auto_solvable == one_original(dups, self.dup_set_idx as int, self.files@)
    }
}

/// The brotherhood `b` is found before the brotherhood `other`: it is of
/// an earlier set, or of the same set with an earlier first member.
pub open spec fn found_before(b: Brotherhood, other: Brotherhood) -> bool {
    b.dup_set_idx < other.dup_set_idx || (b.dup_set_idx == other.dup_set_idx && b.files@[0] < other.files@[0])
}

/// The brotherhoods come in the order in which they are found.
pub open spec fn as_found(found: Seq<Brotherhood>) -> bool {
    forall|k: int, l: int| 0 <= k < l < found.len() ==> found_before(#[trigger] found[k], #[trigger] found[l])
}

/// Tells whether exactly one of the files of set `s` at the positions
/// `files` does not have the name of a copy.
pub fn has_one_original(dups: &[DupSet], s: usize, files: &Vec<usize>) -> (r: bool)
    requires
        s < dups@.len(),
        forall|k: int| 0 <= k < files@.len() ==> in_set(dups@, s as int, (#[trigger] files@[k]) as int),
    ensures
        r == one_original(dups@, s as int, files@),
{
    let mut originals: usize = 0;
    let ghost mut first: int = 0;
    let ghost mut second: int = 0;
    let mut k: usize = 0;
    while k < files.len()
        invariant
            k <= files@.len(),
            s < dups@.len(),
            forall|k: int| 0 <= k < files@.len() ==> in_set(dups@, s as int, (#[trigger] files@[k]) as int),
            originals <= 2,
            originals == 0 ==> forall|l: int|
                0 <= l < k ==> is_copy_name(#[trigger] name_at(dups@, s as int, files@[l] as int)),
            originals >= 1 ==> 0 <= first < k && !is_copy_name(
                name_at(dups@, s as int, files@[first] as int),
            ),
            originals == 1 ==> forall|l: int|
                0 <= l < k && l != first ==> is_copy_name(
                    #[trigger] name_at(dups@, s as int, files@[l] as int),
                ),
            originals == 2 ==> 0 <= second < k && second != first && !is_copy_name(
                name_at(dups@, s as int, files@[second] as int),
            ),
        decreases files@.len() - k,
    {
        let member = DupFileRef { dup_set_idx: s, dup_file_idx: files[k] };
        if !member.is_copy_named(dups) {
            if originals == 0 {
                originals = 1;
                proof {
                    first = k as int;
                }
            } else if originals == 1 {
                originals = 2;
                proof {
                    second = k as int;
                }
            }
        }
        k += 1;
    }
    proof {
        if originals == 1 {
            assert(!is_copy_name(name_at(dups@, s as int, files@[first] as int)));
        } else if originals == 2 {
            assert forall|x: int|
                0 <= x < files@.len() && !is_copy_name(
                    #[trigger] name_at(dups@, s as int, files@[x] as int),
                ) implies !(forall|l: int|
                0 <= l < files@.len() && l != x ==> is_copy_name(
                    #[trigger] name_at(dups@, s as int, files@[l] as int),
                )) by {
                if x == first {
                    assert(!is_copy_name(name_at(dups@, s as int, files@[second] as int)));
                } else {
                    assert(!is_copy_name(name_at(dups@, s as int, files@[first] as int)));
                }
            }
        }
    }
    originals == 1
}

/// Whether a file of the set before position `a` lies in the same directory
/// as the file at `a`.
fn has_earlier_brother(dir_of: &Vec<usize>, a: usize) -> (r: bool)
    requires
        a < dir_of@.len(),
    ensures
        r == exists|e: int| 0 <= e < a && #[trigger] dir_of@[e] == dir_of@[a as int],
{
    let mut e: usize = 0;
    while e < a
        invariant
            e <= a < dir_of@.len(),
            forall|x: int| 0 <= x < e ==> #[trigger] dir_of@[x] != dir_of@[a as int],
        decreases a - e,
    {
        if dir_of[e] == dir_of[a] {
            return true;
        }
        e += 1;
    }
    false
}

/// The brotherhoods of set `s`, and beside each the number of its directory.
pub(crate) fn set_brotherhoods(dups: &[DupSet], s: usize, dir_of: &Vec<usize>, index: &TextIndex) -> (r: (
    Vec<Brotherhood>,
    Vec<usize>,
))
    requires
        s < dups@.len(),
        distinct(index.texts()),
        dir_of@.len() == dups@[s as int].files@.len(),
        forall|i: int|
            0 <= i < dir_of@.len() ==> (#[trigger] dir_of@[i]) < index.texts().len()
                && index.texts()[dir_of@[i] as int] == parent_at(dups@, s as int, i),
    ensures
        r.0@.len() == r.1@.len(),
        forall|k: int|
            0 <= k < r.0@.len() ==> {
                &&& (#[trigger] r.0@[k]).dup_set_idx == s
                &&& r.0@[k].describes(dups@)
                &&& r.1@[k] < index.texts().len()
                &&& index.texts()[r.1@[k] as int] == r.0@[k].parent@
            },
        forall|k: int, l: int|
            0 <= k < r.0@.len() && 0 <= l < r.0@.len() && k != l ==> (#[trigger] r.0@[k]).parent@
                != (#[trigger] r.0@[l]).parent@,
        as_found(r.0@),
        forall|i: int, j: int|
            in_set(dups@, s as int, i) && in_set(dups@, s as int, j) && i != j && #[trigger] parent_at(
                dups@,
                s as int,
                i,
            ) == #[trigger] parent_at(dups@, s as int, j) ==> exists|k: int|
                0 <= k < r.0@.len() && (#[trigger] r.0@[k]).parent@ == parent_at(dups@, s as int, i),
{
    let n = dir_of.len();
    let mut found: Vec<Brotherhood> = Vec::new();
    let mut found_dirs: Vec<usize> = Vec::new();
    let mut a: usize = 0;
    while a < n
        invariant
            a <= n,
            n == dir_of@.len(),
            s < dups@.len(),
            distinct(index.texts()),
            dir_of@.len() == dups@[s as int].files@.len(),
            forall|i: int|
                0 <= i < dir_of@.len() ==> (#[trigger] dir_of@[i]) < index.texts().len()
                    && index.texts()[dir_of@[i] as int] == parent_at(dups@, s as int, i),
            found@.len() == found_dirs@.len(),
            forall|k: int|
                0 <= k < found@.len() ==> {
                    &&& (#[trigger] found@[k]).dup_set_idx == s
                    &&& found@[k].describes(dups@)
                    &&& found@[k].files@[0] < a
                    &&& found_dirs@[k] < index.texts().len()
                    &&& index.texts()[found_dirs@[k] as int] == found@[k].parent@
                },
            forall|k: int, l: int|
                0 <= k < found@.len() && 0 <= l < found@.len() && k != l ==> (#[trigger] found@[k]).parent@
                    != (#[trigger] found@[l]).parent@,
            as_found(found@),
            forall|f: int, j: int|
                0 <= f < a && in_set(dups@, s as int, j) && f != j && #[trigger] parent_at(
                    dups@,
                    s as int,
                    f,
                ) == #[trigger] parent_at(dups@, s as int, j) ==> exists|k: int|
                    0 <= k < found@.len() && (#[trigger] found@[k]).parent@ == parent_at(
                        dups@,
                        s as int,
                        f,
                    ),
        decreases n - a,
    {
        if has_earlier_brother(dir_of, a) {
            proof {
                let e = choose|e: int| 0 <= e < a && #[trigger] dir_of@[e] == dir_of@[a as int];
                assert(parent_at(dups@, s as int, e) == parent_at(dups@, s as int, a as int));
                assert forall|j: int|
                    in_set(dups@, s as int, j) && a != j && parent_at(dups@, s as int, a as int)
                        == #[trigger] parent_at(dups@, s as int, j) implies exists|k: int|
                    0 <= k < found@.len() && (#[trigger] found@[k]).parent@ == parent_at(
                        dups@,
                        s as int,
                        a as int,
                    ) by {
                    if j == e {
                        assert(parent_at(dups@, s as int, e) == parent_at(dups@, s as int, a as int));
                    } else {
                        assert(parent_at(dups@, s as int, e) == parent_at(dups@, s as int, j));
                    }
                }
            }
        } else {
            let mut brotherhood = Brotherhood {
                parent: index.text(dir_of[a]).clone(),
                dup_set_idx: s,
                files: Vec::new(),
                is_auto_solvable: false,
            };
            let mut b: usize = a + 1;
            while b < n
                invariant
                    a < b <= n,
                    n == dir_of@.len(),
                    brotherhood.dup_set_idx == s,
                    brotherhood.parent@ == parent_at(dups@, s as int, a as int),
                    forall|k: int, l: int|
                        0 <= k < l < brotherhood.files@.len() ==> brotherhood.files@[k]
                            < brotherhood.files@[l],
                    brotherhood.files@.len() > 0 ==> brotherhood.files@[0] == a,
                    brotherhood.files@.len() != 1,
                    forall|k: int|
                        0 <= k < brotherhood.files@.len() ==> a <= (#[trigger] brotherhood.files@[k])
                            < b && dir_of@[brotherhood.files@[k] as int] == dir_of@[a as int],
                    forall|x: int|
                        a < x < b && #[trigger] dir_of@[x] == dir_of@[a as int]
                            ==> brotherhood.files@.contains(x as usize),
                decreases n - b,
            {
                if dir_of[b] == dir_of[a] {
                    let ghost before = brotherhood.files@;
                    brotherhood.maybe_add_files(a, b);
                    proof {
                        if before.len() > 0 {
                            assert(before[0] == a);
                            assert(before.contains(a));
                        }
                        assert(!before.contains(b));
                        let with_a = crate::dirs::with_file(before, a);
                        assert(!with_a.contains(b));
                        assert(brotherhood.files@ == with_a.push(b));
                        assert forall|x: int|
                            a < x < b + 1 && #[trigger] dir_of@[x] == dir_of@[a as int]
                                implies brotherhood.files@.contains(x as usize) by {
                            if x < b {
                                assert(before.contains(x as usize));
                                let at = choose|at: int| 0 <= at < before.len() && before[at] == x as usize;
                                assert(brotherhood.files@[at] == x as usize);
                            } else {
                                assert(brotherhood.files@[brotherhood.files@.len() - 1] == b);
                            }
                        }
                    }
                }
                b += 1;
            }
            if brotherhood.files.len() >= 2 {
                proof {
                    assert forall|i: int|
                        in_set(dups@, s as int, i) && #[trigger] parent_at(dups@, s as int, i)
                            == brotherhood.parent@ implies brotherhood.files@.contains(i as usize) by {
                        assert(dir_of@[i] == dir_of@[a as int]);
                        if i == a {
                            assert(brotherhood.files@[0] == a);
                        }
                    }
                    assert forall|k: int| 0 <= k < brotherhood.files@.len() implies in_set(
                        dups@,
                        s as int,
                        (#[trigger] brotherhood.files@[k]) as int,
                    ) && parent_at(dups@, s as int, brotherhood.files@[k] as int)
                        == brotherhood.parent@ by {}
                    assert(brotherhood.gathers(dups@));
                }
                brotherhood.is_auto_solvable = has_one_original(dups, s, &brotherhood.files);
                proof {
                    assert forall|k: int| 0 <= k < found@.len() implies (#[trigger] found@[k]).parent@
                        != brotherhood.parent@ by {
                        if found@[k].parent@ == brotherhood.parent@ {
                            let e = found@[k].files@[0] as int;
                            assert(in_set(dups@, s as int, e));
                            assert(dir_of@[e] == dir_of@[a as int]);
                        }
                    }
                }
                let ghost before = found@;
                found.push(brotherhood);
                found_dirs.push(dir_of[a]);
                proof {
                    assert forall|k: int, l: int| 0 <= k < l < found@.len() implies found_before(
                        #[trigger] found@[k],
                        #[trigger] found@[l],
                    ) by {
                        assert(found@[k] == before[k]);
                        if l < before.len() {
                            assert(found@[l] == before[l]);
                        } else {
                            assert(found@[l].files@[0] == a);
                        }
                    }
                    assert forall|f: int, j: int|
                        0 <= f < a + 1 && in_set(dups@, s as int, j) && f != j && #[trigger] parent_at(
                            dups@,
                            s as int,
                            f,
                        ) == #[trigger] parent_at(dups@, s as int, j) implies exists|k: int|
                        0 <= k < found@.len() && (#[trigger] found@[k]).parent@ == parent_at(
                            dups@,
                            s as int,
                            f,
                        ) by {
                        if f < a {
                            let k = choose|k: int|
                                0 <= k < before.len() && (#[trigger] before[k]).parent@ == parent_at(
                                    dups@,
                                    s as int,
                                    f,
                                );
                            assert(found@[k].parent@ == parent_at(dups@, s as int, f));
                        } else {
                            assert(found@[found@.len() - 1].parent@ == parent_at(dups@, s as int, f));
                        }
                    }
                }
            } else {
                proof {
                    assert forall|j: int|
                        in_set(dups@, s as int, j) && a != j && parent_at(dups@, s as int, a as int)
                            == #[trigger] parent_at(dups@, s as int, j) implies false by {
                        assert(dir_of@[j] == dir_of@[a as int]);
                        if j > a {
                            assert(brotherhood.files@.contains(j as usize));
                        }
                    }
                }
            }
        }
        a += 1;
    }
    proof {
        assert forall|i: int, j: int|
            in_set(dups@, s as int, i) && in_set(dups@, s as int, j) && i != j && #[trigger] parent_at(
                dups@,
                s as int,
                i,
            ) == #[trigger] parent_at(dups@, s as int, j) implies exists|k: int|
            0 <= k < found@.len() && (#[trigger] found@[k]).parent@ == parent_at(dups@, s as int, i) by {
            assert(0 <= i < a);
        }
    }
    (found, found_dirs)
}

/// Two files of one of the first `upto` sets lie in `dir`.
pub open spec fn has_brothers_upto(dups: Seq<DupSet>, dir: Seq<char>, upto: int) -> bool {
    exists|s: int, i: int, j: int|
        0 <= s < upto && in_set(dups, s, i) && in_set(dups, s, j) && i != j && #[trigger] parent_at(
            dups,
            s,
            i,
        ) == dir && #[trigger] parent_at(dups, s, j) == dir
}

/// `found` are the brotherhoods of the first `upto` sets of `dups`: one for
/// each set and directory with two files of the set or more.
pub open spec fn are_brotherhoods(found: Seq<Brotherhood>, dups: Seq<DupSet>, upto: int) -> bool {
    &&& forall|k: int|
        0 <= k < found.len() ==> (#[trigger] found[k]).describes(dups) && found[k].dup_set_idx < upto
    &&& forall|k: int, l: int|
        0 <= k < found.len() && 0 <= l < found.len() && k != l ==> !((#[trigger] found[k]).dup_set_idx
            == (#[trigger] found[l]).dup_set_idx && found[k].parent@ == found[l].parent@)
    &&& forall|s: int, i: int, j: int|
        0 <= s < upto && in_set(dups, s, i) && in_set(dups, s, j) && i != j && #[trigger] parent_at(
            dups,
            s,
            i,
        ) == #[trigger] parent_at(dups, s, j) ==> exists|k: int|
            0 <= k < found.len() && (#[trigger] found[k]).dup_set_idx == s && found[k].parent@
                == parent_at(dups, s, i)
}

/// The brotherhoods of all sets, set after set, and for each directory
/// whether it holds one.
pub(crate) fn all_brotherhoods(dups: &[DupSet], dir_of: &Vec<Vec<usize>>, index: &TextIndex) -> (r: (
    Vec<Brotherhood>,
    Vec<bool>,
))
    requires
        distinct(index.texts()),
        crate::parents::numbered(dups@, index.texts(), dir_of@, dups@.len() as int),
    ensures
        are_brotherhoods(r.0@, dups@, dups@.len() as int),
        as_found(r.0@),
        r.1@.len() == index.texts().len(),
        forall|d: int|
            0 <= d < r.1@.len() ==> #[trigger] r.1@[d] == has_brothers_upto(
                dups@,
                index.texts()[d],
                dups@.len() as int,
            ),
{
    let ghost dirs = index.texts();
    let mut all: Vec<Brotherhood> = Vec::new();
    let mut marks: Vec<bool> = Vec::new();
    let mut d: usize = 0;
    while d < index.len()
        invariant
            d <= dirs.len(),
            dirs == index.texts(),
            marks@.len() == d,
            forall|x: int| 0 <= x < d ==> !(#[trigger] marks@[x]),
        decreases dirs.len() - d,
    {
        marks.push(false);
        d += 1;
    }
    let mut s: usize = 0;
    while s < dups.len()
        invariant
            s <= dups@.len(),
            dirs == index.texts(),
            distinct(dirs),
            crate::parents::numbered(dups@, dirs, dir_of@, dups@.len() as int),
            are_brotherhoods(all@, dups@, s as int),
            as_found(all@),
            marks@.len() == dirs.len(),
            forall|x: int|
                0 <= x < dirs.len() ==> #[trigger] marks@[x] == has_brothers_upto(dups@, dirs[x], s as int),
        decreases dups@.len() - s,
    {
        let (mut found, found_dirs) = set_brotherhoods(dups, s, &dir_of[s], index);
        let ghost marks_before = marks@;
        proof {
            assert forall|x: int| 0 <= x < found_dirs@.len() implies (#[trigger] found_dirs@[x])
                < dirs.len() by {
                assert(found@[x].dup_set_idx == s);
            }
        }
        let mut k: usize = 0;
        while k < found_dirs.len()
            invariant
                k <= found_dirs@.len(),
                marks@.len() == dirs.len(),
                marks_before.len() == dirs.len(),
                forall|x: int| 0 <= x < found_dirs@.len() ==> (#[trigger] found_dirs@[x]) < dirs.len(),
                forall|x: int|
                    0 <= x < dirs.len() ==> #[trigger] marks@[x] == (marks_before[x] || exists|y: int|
                        0 <= y < k && #[trigger] found_dirs@[y] == x),
            decreases found_dirs@.len() - k,
        {
            let ghost before = marks@;
            marks[found_dirs[k]] = true;
            proof {
                assert forall|x: int| 0 <= x < dirs.len() implies #[trigger] marks@[x] == (marks_before[x]
                    || exists|y: int| 0 <= y < k + 1 && #[trigger] found_dirs@[y] == x) by {
                    if x == found_dirs@[k as int] {
                    } else {
                        assert(marks@[x] == before[x]);
                        if exists|y: int| 0 <= y < k + 1 && #[trigger] found_dirs@[y] == x {
                            let y = choose|y: int| 0 <= y < k + 1 && #[trigger] found_dirs@[y] == x;
                            assert(y < k);
                        }
                    }
                }
            }
            k += 1;
        }
        proof {
            let fs = found@;
            assert forall|x: int| 0 <= x < dirs.len() implies #[trigger] marks@[x] == has_brothers_upto(
                dups@,
                dirs[x],
                s + 1,
            ) by {
                if marks@[x] && !marks_before[x] {
                    let y = choose|y: int| 0 <= y < k && #[trigger] found_dirs@[y] == x;
                    assert(fs[y].describes(dups@));
                    let i = fs[y].files@[0] as int;
                    let j = fs[y].files@[1] as int;
                    assert(in_set(dups@, s as int, i) && in_set(dups@, s as int, j));
                    assert(parent_at(dups@, s as int, i) == dirs[x]);
                    assert(parent_at(dups@, s as int, j) == dirs[x]);
                }
                if has_brothers_upto(dups@, dirs[x], s + 1) && !has_brothers_upto(dups@, dirs[x], s as int) {
                    let (s2, i, j) = choose|s2: int, i: int, j: int|
                        0 <= s2 < s + 1 && in_set(dups@, s2, i) && in_set(dups@, s2, j) && i != j
                            && #[trigger] parent_at(dups@, s2, i) == dirs[x] && #[trigger] parent_at(
                            dups@,
                            s2,
                            j,
                        ) == dirs[x];
                    assert(s2 == s);
                    let y = choose|y: int|
                        0 <= y < fs.len() && (#[trigger] fs[y]).parent@ == parent_at(dups@, s as int, i);
                    assert(found_dirs@[y] == x);
                }
            }
            let before = all@;
            let after = before + fs;
            assert forall|k: int, l: int|
                0 <= k < after.len() && 0 <= l < after.len() && k != l implies !((#[trigger] after[k]).dup_set_idx
                == (#[trigger] after[l]).dup_set_idx && after[k].parent@ == after[l].parent@) by {
                if k >= before.len() && l >= before.len() {
                    assert(after[k] == fs[k - before.len()]);
                    assert(after[l] == fs[l - before.len()]);
                } else if k >= before.len() {
                    assert(after[k] == fs[k - before.len()]);
                    assert(after[l] == before[l]);
                } else if l >= before.len() {
                    assert(after[l] == fs[l - before.len()]);
                    assert(after[k] == before[k]);
                } else {
                    assert(after[k] == before[k]);
                    assert(after[l] == before[l]);
                }
            }
            assert forall|k: int| 0 <= k < after.len() implies (#[trigger] after[k]).describes(dups@)
                && after[k].dup_set_idx < s + 1 by {
                if k >= before.len() {
                    assert(after[k] == fs[k - before.len()]);
                } else {
                    assert(after[k] == before[k]);
                }
            }
            assert forall|s2: int, i: int, j: int|
                0 <= s2 < s + 1 && in_set(dups@, s2, i) && in_set(dups@, s2, j) && i != j
                    && #[trigger] parent_at(dups@, s2, i) == #[trigger] parent_at(
                    dups@,
                    s2,
                    j,
                ) implies exists|k: int|
                0 <= k < after.len() && (#[trigger] after[k]).dup_set_idx == s2 && after[k].parent@
                    == parent_at(dups@, s2, i) by {
                if s2 < s {
                    let k = choose|k: int|
                        0 <= k < before.len() && (#[trigger] before[k]).dup_set_idx == s2
                            && before[k].parent@ == parent_at(dups@, s2, i);
                    assert(after[k] == before[k]);
                } else {
                    let y = choose|y: int|
                        0 <= y < fs.len() && (#[trigger] fs[y]).parent@ == parent_at(dups@, s as int, i);
                    assert(after[before.len() + y] == fs[y]);
                }
            }
            assert(are_brotherhoods(after, dups@, s + 1));
            assert forall|k: int, l: int| 0 <= k < l < after.len() implies found_before(
                #[trigger] after[k],
                #[trigger] after[l],
            ) by {
                if l < before.len() {
                    assert(after[k] == before[k] && after[l] == before[l]);
                } else if k < before.len() {
                    assert(after[k] == before[k]);
                    assert(after[l] == fs[l - before.len()]);
                } else {
                    assert(after[k] == fs[k - before.len()]);
                    assert(after[l] == fs[l - before.len()]);
                }
            }
        }
        all.append(&mut found);
        s += 1;
    }
    (all, marks)
}

} // verus!
