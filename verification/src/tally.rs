//! The duplicates that each directory holds, and the directories that hold
//! enough of them to be removed as a whole.

use vstd::prelude::*;
use crate::dirs::DupDir;
use crate::dup::{file_ref, DupFileRef, DupSet};
use crate::index::TextIndex;
use crate::parents::{comes_before, distinct, first_seen, in_set, numbered, parent_at, ref_before};

verus! {

/// The files of set `s` before position `n` that lie in `dir`, in rising
/// order.
pub open spec fn refs_in_set(dups: Seq<DupSet>, dir: Seq<char>, s: int, n: int) -> Seq<DupFileRef>
    decreases n,
{
    if n <= 0 {
        Seq::empty()
    } else if parent_at(dups, s, n - 1) == dir {
        refs_in_set(dups, dir, s, n - 1).push(file_ref(s, n - 1))
    } else {
        refs_in_set(dups, dir, s, n - 1)
    }
}

/// The files of the first `m` sets that lie in `dir`: set after set, and in
/// each set in rising order.
pub open spec fn refs_in(dups: Seq<DupSet>, dir: Seq<char>, m: int) -> Seq<DupFileRef>
    decreases m,
{
    if m <= 0 {
        Seq::empty()
    } else {
        refs_in(dups, dir, m - 1) + refs_in_set(dups, dir, m - 1, dups[m - 1].files@.len() as int)
    }
}

/// All the duplicates that lie in `dir`.
pub open spec fn dir_files(dups: Seq<DupSet>, dir: Seq<char>) -> Seq<DupFileRef> {
    refs_in(dups, dir, dups.len() as int)
}

/// Two files of one set lie in `dir`: the directory is that of a
/// brotherhood.
pub open spec fn has_brothers(dups: Seq<DupSet>, dir: Seq<char>) -> bool {
    exists|s: int, i: int, j: int|
        in_set(dups, s, i) && in_set(dups, s, j) && i != j && #[trigger] parent_at(dups, s, i) == dir
            && #[trigger] parent_at(dups, s, j) == dir
}

/// `dir` holds three duplicates or more, and no brotherhood: it may be
/// proposed for removal as a whole if it holds nothing else.
pub open spec fn is_candidate(dups: Seq<DupSet>, dir: Seq<char>) -> bool {
    dir_files(dups, dir).len() >= 3 && !has_brothers(dups, dir)
}

impl DupDir {
    /// The files are all the duplicates that lie in the directory, and the
    /// directory is a candidate.
    pub open spec fn describes(&self, dups: Seq<DupSet>) -> bool {
        &&& self.files@ == dir_files(dups, self.path@)
        &&& is_candidate(dups, self.path@)
    }
}

/// Whatever `refs_in_set` holds points at a file of the set that lies in `dir`.
pub proof fn lemma_refs_in_set(dups: Seq<DupSet>, dir: Seq<char>, s: int, n: int)
    requires
        0 <= s < dups.len() <= usize::MAX,
        0 <= n <= dups[s].files@.len(),
    ensures
        forall|x: int|
            0 <= x < refs_in_set(dups, dir, s, n).len() ==> {
                let r = #[trigger] refs_in_set(dups, dir, s, n)[x];
                r.dup_set_idx == s && r.dup_file_idx < n && parent_at(dups, s, r.dup_file_idx as int)
                    == dir
            },
    decreases n,
{
    if n > 0 {
        lemma_refs_in_set(dups, dir, s, n - 1);
        assert(dups[s].files@.len() == dups[s].files.len());
        let here = refs_in_set(dups, dir, s, n);
        let rest = refs_in_set(dups, dir, s, n - 1);
        assert forall|x: int| 0 <= x < here.len() implies (#[trigger] here[x]).dup_set_idx == s
            && here[x].dup_file_idx < n && parent_at(dups, s, here[x].dup_file_idx as int) == dir by {
            if x < rest.len() {
                assert(here[x] == rest[x]);
            } else {
                assert(here[x] == file_ref(s, n - 1));
            }
        }
    }
}

/// Whatever `refs_in` holds points at a file that lies in `dir`.
pub proof fn lemma_refs_in(dups: Seq<DupSet>, dir: Seq<char>, m: int)
    requires
        0 <= m <= dups.len() <= usize::MAX,
    ensures
        forall|x: int|
            0 <= x < refs_in(dups, dir, m).len() ==> {
                let r = #[trigger] refs_in(dups, dir, m)[x];
                in_set(dups, r.dup_set_idx as int, r.dup_file_idx as int) && r.dup_set_idx < m
                    && parent_at(dups, r.dup_set_idx as int, r.dup_file_idx as int) == dir
            },
    decreases m,
{
    if m > 0 {
        lemma_refs_in(dups, dir, m - 1);
        lemma_refs_in_set(dups, dir, m - 1, dups[m - 1].files@.len() as int);
        let here = refs_in(dups, dir, m);
        let rest = refs_in(dups, dir, m - 1);
        let last = refs_in_set(dups, dir, m - 1, dups[m - 1].files@.len() as int);
        assert forall|x: int| 0 <= x < here.len() implies in_set(
            dups,
            (#[trigger] here[x]).dup_set_idx as int,
            here[x].dup_file_idx as int,
        ) && here[x].dup_set_idx < m && parent_at(
            dups,
            here[x].dup_set_idx as int,
            here[x].dup_file_idx as int,
        ) == dir by {
            if x < rest.len() {
                assert(here[x] == rest[x]);
            } else {
                assert(here[x] == last[x - rest.len()]);
            }
        }
    }
}

/// The files of a set that lie in `dir` come in rising order, and none is
/// left out.
pub proof fn lemma_refs_in_set_ordered(dups: Seq<DupSet>, dir: Seq<char>, s: int, n: int)
    requires
        0 <= s < dups.len() <= usize::MAX,
        0 <= n <= dups[s].files@.len(),
    ensures
        forall|x: int, y: int|
            0 <= x < y < refs_in_set(dups, dir, s, n).len() ==> ref_before(
                #[trigger] refs_in_set(dups, dir, s, n)[x],
                #[trigger] refs_in_set(dups, dir, s, n)[y],
            ),
        forall|i: int|
            0 <= i < n && #[trigger] parent_at(dups, s, i) == dir ==> refs_in_set(dups, dir, s, n).contains(
                file_ref(s, i),
            ),
    decreases n,
{
    if n > 0 {
        lemma_refs_in_set_ordered(dups, dir, s, n - 1);
        lemma_refs_in_set(dups, dir, s, n - 1);
        assert(dups[s].files@.len() == dups[s].files.len());
        let here = refs_in_set(dups, dir, s, n);
        let rest = refs_in_set(dups, dir, s, n - 1);
        assert forall|x: int, y: int| 0 <= x < y < here.len() implies ref_before(
            #[trigger] here[x],
            #[trigger] here[y],
        ) by {
            assert(here[x] == rest[x]);
            if y < rest.len() {
                assert(here[y] == rest[y]);
            } else {
                assert(here[y] == file_ref(s, n - 1));
            }
        }
        assert forall|i: int| 0 <= i < n && #[trigger] parent_at(dups, s, i) == dir implies here.contains(
            file_ref(s, i),
        ) by {
            if i < n - 1 {
                assert(rest.contains(file_ref(s, i)));
                let x = choose|x: int| 0 <= x < rest.len() && rest[x] == file_ref(s, i);
                assert(here[x] == file_ref(s, i));
            } else {
                assert(here[here.len() - 1] == file_ref(s, i));
            }
        }
    }
}

/// The files that lie in `dir` come in the order in which the sets, and in
/// each set the files, are gone through, and none is left out.
pub proof fn lemma_refs_in_ordered(dups: Seq<DupSet>, dir: Seq<char>, m: int)
    requires
        0 <= m <= dups.len() <= usize::MAX,
    ensures
        forall|x: int, y: int|
            0 <= x < y < refs_in(dups, dir, m).len() ==> ref_before(
                #[trigger] refs_in(dups, dir, m)[x],
                #[trigger] refs_in(dups, dir, m)[y],
            ),
        forall|s: int, i: int|
            0 <= s < m && in_set(dups, s, i) && #[trigger] parent_at(dups, s, i) == dir ==> refs_in(
                dups,
                dir,
                m,
            ).contains(file_ref(s, i)),
    decreases m,
{
    if m > 0 {
        lemma_refs_in_ordered(dups, dir, m - 1);
        lemma_refs_in(dups, dir, m - 1);
        let n = dups[m - 1].files@.len() as int;
        lemma_refs_in_set_ordered(dups, dir, m - 1, n);
        lemma_refs_in_set(dups, dir, m - 1, n);
        let here = refs_in(dups, dir, m);
        let rest = refs_in(dups, dir, m - 1);
        let last = refs_in_set(dups, dir, m - 1, n);
        assert forall|x: int, y: int| 0 <= x < y < here.len() implies ref_before(
            #[trigger] here[x],
            #[trigger] here[y],
        ) by {
            if y < rest.len() {
                assert(here[x] == rest[x] && here[y] == rest[y]);
            } else if x < rest.len() {
                assert(here[x] == rest[x]);
                assert(here[y] == last[y - rest.len()]);
            } else {
                assert(here[x] == last[x - rest.len()]);
                assert(here[y] == last[y - rest.len()]);
            }
        }
        assert forall|s: int, i: int|
            0 <= s < m && in_set(dups, s, i) && #[trigger] parent_at(dups, s, i) == dir implies here.contains(
            file_ref(s, i),
        ) by {
            if s < m - 1 {
                assert(rest.contains(file_ref(s, i)));
                let x = choose|x: int| 0 <= x < rest.len() && rest[x] == file_ref(s, i);
                assert(here[x] == file_ref(s, i));
            } else {
                assert(last.contains(file_ref(s, i)));
                let x = choose|x: int| 0 <= x < last.len() && last[x] == file_ref(s, i);
                assert(here[rest.len() + x] == file_ref(s, i));
            }
        }
    }
}

/// The first of the files that lie in a directory is the first file that
/// was met in it.
pub proof fn lemma_first_file(dups: Seq<DupSet>, dirs: Seq<Seq<char>>, first: Seq<DupFileRef>, d: int)
    requires
        dups.len() <= usize::MAX,
        first_seen(dups, dirs, first),
        0 <= d < dirs.len(),
    ensures
        dir_files(dups, dirs[d]).len() > 0,
        dir_files(dups, dirs[d])[0] == first[d],
{
    let files = dir_files(dups, dirs[d]);
    lemma_refs_in_ordered(dups, dirs[d], dups.len() as int);
    lemma_refs_in(dups, dirs[d], dups.len() as int);
    let f = first[d];
    assert(f.valid(dups));
    assert(parent_at(dups, f.dup_set_idx as int, f.dup_file_idx as int) == dirs[d]);
    assert(files.contains(file_ref(f.dup_set_idx as int, f.dup_file_idx as int)));
    let x = choose|x: int| 0 <= x < files.len() && files[x] == f;
    if x > 0 {
        assert(ref_before(files[0], files[x]));
        let g = files[0];
        assert(in_set(dups, g.dup_set_idx as int, g.dup_file_idx as int));
        assert(parent_at(dups, g.dup_set_idx as int, g.dup_file_idx as int) == dirs[d]);
        assert(!comes_before(
            g.dup_set_idx as int,
            g.dup_file_idx as int,
            first[d].dup_set_idx as int,
            first[d].dup_file_idx as int,
        ));
    }
}

/// The duplicates that each directory holds: at the number of each
/// directory, the files that lie in it.
pub(crate) fn tally(dups: &[DupSet], dir_of: &Vec<Vec<usize>>, index: &TextIndex) -> (r: Vec<Vec<DupFileRef>>)
    requires
        distinct(index.texts()),
        numbered(dups@, index.texts(), dir_of@, dups@.len() as int),
    ensures
        r@.len() == index.texts().len(),
        forall|d: int| 0 <= d < r@.len() ==> (#[trigger] r@[d])@ == dir_files(dups@, index.texts()[d]),
{
    let ghost dirs = index.texts();
    let mut counts: Vec<Vec<DupFileRef>> = Vec::new();
    let mut d: usize = 0;
    while d < index.len()
        invariant
            d <= dirs.len(),
            dirs == index.texts(),
            counts@.len() == d,
            forall|x: int| 0 <= x < d ==> (#[trigger] counts@[x])@ == Seq::<DupFileRef>::empty(),
        decreases dirs.len() - d,
    {
        counts.push(Vec::new());
        d += 1;
    }
    let mut s: usize = 0;
    while s < dups.len()
        invariant
            s <= dups@.len(),
            dirs == index.texts(),
            distinct(dirs),
            numbered(dups@, dirs, dir_of@, dups@.len() as int),
            counts@.len() == dirs.len(),
            forall|x: int| 0 <= x < dirs.len() ==> (#[trigger] counts@[x])@ == refs_in(dups@, dirs[x], s as int),
        decreases dups@.len() - s,
    {
        let n = dups[s].files.len();
        let row = &dir_of[s];
        let mut i: usize = 0;
        while i < n
            invariant
                s < dups@.len(),
                n == dups@[s as int].files@.len(),
                i <= n,
                row == &dir_of@[s as int],
                distinct(dirs),
                numbered(dups@, dirs, dir_of@, dups@.len() as int),
                counts@.len() == dirs.len(),
                forall|x: int|
                    0 <= x < dirs.len() ==> (#[trigger] counts@[x])@ == refs_in(dups@, dirs[x], s as int)
                        + refs_in_set(dups@, dirs[x], s as int, i as int),
            decreases n - i,
        {
            let dir = row[i];
            let ghost before = counts@;
            assert(dir_of@[s as int]@[i as int] < dirs.len());
            counts[dir].push(DupFileRef { dup_set_idx: s, dup_file_idx: i });
            proof {
                assert forall|x: int| 0 <= x < dirs.len() implies (#[trigger] counts@[x])@ == refs_in(
                    dups@,
                    dirs[x],
                    s as int,
                ) + refs_in_set(dups@, dirs[x], s as int, i + 1) by {
                    assert(dirs[dir as int] == parent_at(dups@, s as int, i as int));
                    if x == dir {
                        assert(counts@[x]@ == before[x]@.push(file_ref(s as int, i as int)));
                    } else {
                        assert(counts@[x] == before[x]);
                        assert(dirs[x] != dirs[dir as int]);
                    }
                }
            }
            i += 1;
        }
        s += 1;
    }
    counts
}

/// `found` are the candidates of `dups`: each directory that holds three
/// duplicates or more and no brotherhood, once, with all its duplicates.
pub open spec fn are_candidates(found: Seq<DupDir>, dups: Seq<DupSet>) -> bool {
    &&& forall|k: int| 0 <= k < found.len() ==> (#[trigger] found[k]).describes(dups)
    &&& forall|k: int, l: int|
        0 <= k < found.len() && 0 <= l < found.len() && k != l ==> (#[trigger] found[k]).path@
            != (#[trigger] found[l]).path@
    &&& forall|dir: Seq<char>| #[trigger]
        is_candidate(dups, dir) ==> exists|k: int| 0 <= k < found.len() && (#[trigger] found[k]).path@ == dir
}

/// The directories come in the order in which they are met: by the first
/// file of each.
pub open spec fn by_first_file(found: Seq<DupDir>) -> bool {
    forall|k: int, l: int|
        0 <= k < l < found.len() ==> ref_before((#[trigger] found[k]).files@[0], (#[trigger] found[l]).files@[0])
}

/// The directories that may be proposed for removal as a whole, from the
/// duplicates that each directory holds and the directories marked as
/// holding a brotherhood. They come in the order in which they are met.
pub(crate) fn candidates(
    dups: &[DupSet],
    dir_of: &Vec<Vec<usize>>,
    index: &TextIndex,
    held: Vec<Vec<DupFileRef>>,
    marks: &Vec<bool>,
    first: Ghost<Seq<DupFileRef>>,
) -> (r: Vec<DupDir>)
    requires
        distinct(index.texts()),
        numbered(dups@, index.texts(), dir_of@, dups@.len() as int),
        first_seen(dups@, index.texts(), first@),
        held@.len() == index.texts().len(),
        forall|d: int| 0 <= d < held@.len() ==> (#[trigger] held@[d])@ == dir_files(dups@, index.texts()[d]),
        marks@.len() == index.texts().len(),
        forall|d: int| 0 <= d < marks@.len() ==> #[trigger] marks@[d] == has_brothers(dups@, index.texts()[d]),
    ensures
        are_candidates(r@, dups@),
        by_first_file(r@),
{
    let ghost dirs = index.texts();
    let ghost all = held@;
    let dir_count = held.len();
    let mut found: Vec<DupDir> = Vec::new();
    let ghost mut origin: Seq<int> = Seq::empty();
    let mut d: usize = 0;
    assert(dups@.len() == dups.len());
    for files in it: held
        invariant
            it.seq() == all,
            d == it.index(),
            all.len() == dir_count,
            dups@.len() <= usize::MAX,
            dirs == index.texts(),
            distinct(dirs),
            first_seen(dups@, dirs, first@),
            all.len() == dirs.len(),
            forall|x: int| 0 <= x < all.len() ==> (#[trigger] all[x])@ == dir_files(dups@, dirs[x]),
            marks@.len() == dirs.len(),
            forall|x: int| 0 <= x < marks@.len() ==> #[trigger] marks@[x] == has_brothers(dups@, dirs[x]),
            origin.len() == found@.len(),
            forall|k: int| 0 <= k < found@.len() ==> (#[trigger] found@[k]).describes(dups@),
            forall|k: int|
                0 <= k < found@.len() ==> 0 <= #[trigger] origin[k] < d && dirs[origin[k]] == found@[k].path@,
            forall|k: int, l: int| 0 <= k < l < found@.len() ==> #[trigger] origin[k] < #[trigger] origin[l],
            forall|x: int|
                0 <= x < d && is_candidate(dups@, #[trigger] dirs[x]) ==> exists|k: int|
                    0 <= k < found@.len() && (#[trigger] found@[k]).path@ == dirs[x],
    {
        let ghost before = found@;
        let ghost origin_before = origin;
        assert(files == all[d as int]);
        if !marks[d] && files.len() >= 3 {
            found.push(DupDir { path: index.text(d).clone(), files });
            proof {
                origin = origin.push(d as int);
                let after = found@;
                assert(after[after.len() - 1].path@ == dirs[d as int]);
                assert forall|x: int|
                    0 <= x < d + 1 && is_candidate(dups@, #[trigger] dirs[x]) implies exists|k: int|
                    0 <= k < after.len() && (#[trigger] after[k]).path@ == dirs[x] by {
                    if x < d {
                        let k = choose|k: int| 0 <= k < before.len() && (#[trigger] before[k]).path@ == dirs[x];
                        assert(after[k] == before[k]);
                    } else {
                        assert(after[after.len() - 1].path@ == dirs[x]);
                    }
                }
                assert forall|k: int| 0 <= k < after.len() implies (#[trigger] after[k]).describes(dups@) by {
                    if k < before.len() {
                        assert(after[k] == before[k]);
                    }
                }
                assert forall|k: int| 0 <= k < after.len() implies 0 <= #[trigger] origin[k] < d + 1
                    && dirs[origin[k]] == after[k].path@ by {
                    if k < before.len() {
                        assert(after[k] == before[k]);
                        assert(origin[k] == origin_before[k]);
                        assert(0 <= origin_before[k] < d);
                    }
                }
                assert forall|k: int, l: int| 0 <= k < l < after.len() implies #[trigger] origin[k]
                    < #[trigger] origin[l] by {
                    assert(origin[k] == origin_before[k]);
                    assert(0 <= origin_before[k] < d);
                    if l < before.len() {
                        assert(origin[l] == origin_before[l]);
                    }
                }
            }
        } else {
            proof {
                assert forall|k: int| 0 <= k < found@.len() implies 0 <= #[trigger] origin[k] < d + 1
                    && dirs[origin[k]] == found@[k].path@ by {
                    assert(0 <= origin_before[k] < d);
                }
            }
        }
        d += 1;
    }
    proof {
        assert(dups@.len() == dups.len());
        let cs = found@;
        assert forall|dir: Seq<char>| #[trigger] is_candidate(dups@, dir) implies exists|k: int|
            0 <= k < cs.len() && (#[trigger] cs[k]).path@ == dir by {
            lemma_refs_in(dups@, dir, dups@.len() as int);
            let r = dir_files(dups@, dir)[0];
            assert(in_set(dups@, r.dup_set_idx as int, r.dup_file_idx as int));
            let x = dir_of@[r.dup_set_idx as int]@[r.dup_file_idx as int] as int;
            assert(dirs[x] == dir);
        }
        assert forall|k: int, l: int| 0 <= k < cs.len() && 0 <= l < cs.len() && k != l implies (#[trigger] cs[k]).path@
            != (#[trigger] cs[l]).path@ by {
            if k < l {
                assert(origin[k] < origin[l]);
            } else {
                assert(origin[l] < origin[k]);
            }
        }
        assert forall|k: int, l: int| 0 <= k < l < cs.len() implies ref_before(
            (#[trigger] cs[k]).files@[0],
            (#[trigger] cs[l]).files@[0],
        ) by {
            assert(origin[k] < origin[l]);
            assert(cs[k].describes(dups@) && cs[l].describes(dups@));
            lemma_first_file(dups@, dirs, first@, origin[k]);
            lemma_first_file(dups@, dirs, first@, origin[l]);
        }
    }
    found
}

} // verus!
