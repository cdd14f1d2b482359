//! From the digests of the files that were scanned to the sets of identical
//! files.

use vstd::prelude::*;
use crate::dup::{DupFile, DupSet};
use crate::hash::FileHash;
use crate::index::TextIndex;
use crate::sorting::{lemma_sum_rearranged, sort_descending, sum};

verus! {

/// A file that was scanned, and the digest of its content.
#[derive(Debug)]
pub struct HashedFile {
    pub file: DupFile,
    pub hash: FileHash,
}

/// The files that have one digest.
#[derive(Debug)]
pub struct DupGroup {
    pub hash: FileHash,
    pub files: Vec<DupFile>,
}

/// The groups of two files or more with one digest, before their lengths
/// are known.
#[derive(Debug)]
pub struct DupGroups {
    pub groups: Vec<DupGroup>,
    /// How many files were scanned.
    pub seen: usize,
}

/// The files among the first `n` of `hashed` that have the digest `hex`, in
/// the order in which they came.
pub open spec fn files_with(hashed: Seq<HashedFile>, hex: Seq<char>, n: int) -> Seq<DupFile>
    decreases n,
{
    if n <= 0 {
        Seq::empty()
    } else if hashed[n - 1].hash.hex@ == hex {
        files_with(hashed, hex, n - 1).push(hashed[n - 1].file)
    } else {
        files_with(hashed, hex, n - 1)
    }
}

/// All the files of `hashed` that have the digest `hex`.
pub open spec fn same_content(hashed: Seq<HashedFile>, hex: Seq<char>) -> Seq<DupFile> {
    files_with(hashed, hex, hashed.len() as int)
}

/// The file at position `j` is the first of `hashed` with the digest `hex`.
pub open spec fn is_first_with(hashed: Seq<HashedFile>, hex: Seq<char>, j: int) -> bool {
    &&& 0 <= j < hashed.len()
    &&& hashed[j].hash.hex@ == hex
    &&& forall|i: int| 0 <= i < j ==> (#[trigger] hashed[i]).hash.hex@ != hex
}

/// The digest `hex` is met before the digest `other` among `hashed`.
pub open spec fn met_first(hashed: Seq<HashedFile>, hex: Seq<char>, other: Seq<char>) -> bool {
    exists|a: int, b: int| a < b && #[trigger] is_first_with(hashed, hex, a) && #[trigger] is_first_with(hashed, other, b)
}

/// How many files the groups hold together.
pub open spec fn total_files(groups: Seq<DupGroup>) -> nat
    decreases groups.len(),
{
    if groups.len() == 0 {
        0
    } else {
        total_files(groups.drop_last()) + groups.last().files@.len()
    }
}

/// One file more in one group is one file more in all.
proof fn lemma_total_files_grows(before: Seq<DupGroup>, after: Seq<DupGroup>, at: int)
    requires
        0 <= at < before.len(),
        after.len() == before.len(),
        after[at].files@.len() == before[at].files@.len() + 1,
        forall|g: int| 0 <= g < before.len() && g != at ==> after[g] == before[g],
    ensures
        total_files(after) == total_files(before) + 1,
    decreases before.len(),
{
    if at == before.len() - 1 {
        assert(after.drop_last() =~= before.drop_last());
    } else {
        lemma_total_files_grows(before.drop_last(), after.drop_last(), at);
    }
}

/// Groups without files hold no file.
proof fn lemma_total_files_empty(groups: Seq<DupGroup>)
    requires
        forall|g: int| 0 <= g < groups.len() ==> (#[trigger] groups[g]).files@.len() == 0,
    ensures
        total_files(groups) == 0,
    decreases groups.len(),
{
    if groups.len() > 0 {
        lemma_total_files_empty(groups.drop_last());
    }
}

impl DupGroups {
    /// The groups are those of `hashed`: one for each digest that two files
    /// or more have, with all the files that have it.
    pub open spec fn describes(&self, hashed: Seq<HashedFile>) -> bool {
        &&& self.seen == hashed.len()
        &&& total_files(self.groups@) <= hashed.len()
        &&& forall|g: int|
            0 <= g < self.groups@.len() ==> {
                &&& (#[trigger] self.groups@[g]).files@ == same_content(hashed, self.groups@[g].hash.hex@)
                &&& self.groups@[g].files@.len() >= 2
            }
        &&& forall|g: int, h: int|
            0 <= g < self.groups@.len() && 0 <= h < self.groups@.len() && g != h ==> (#[trigger] self.groups@[g]).hash.hex@
                != (#[trigger] self.groups@[h]).hash.hex@
        &&& forall|hex: Seq<char>|
            (#[trigger] same_content(hashed, hex)).len() >= 2 ==> exists|g: int|
                0 <= g < self.groups@.len() && (#[trigger] self.groups@[g]).hash.hex@ == hex
        &&& forall|g: int, h: int|
            0 <= g < h < self.groups@.len() ==> met_first(
                hashed,
                (#[trigger] self.groups@[g]).hash.hex@,
                (#[trigger] self.groups@[h]).hash.hex@,
            )
    }

    /// Groups the scanned files by digest and keeps the groups of two files
    /// or more. The groups come in the order in which their digests are
    /// first met, and in a group the files in the order in which they came.
    pub fn build(hashed: Vec<HashedFile>) -> (r: DupGroups)
        ensures
            r.describes(hashed@),
    {
        let n = hashed.len();
        let mut index = TextIndex::new();
        let mut group_of: Vec<usize> = Vec::new();
        let ghost mut first: Seq<int> = Seq::empty();
        let mut j: usize = 0;
        while j < n
            invariant
                j <= n,
                n == hashed@.len(),
                index.wf(),
                group_of@.len() == j,
                forall|x: int|
                    0 <= x < j ==> (#[trigger] group_of@[x]) < index.texts().len() && index.texts()[group_of@[x] as int]
                        == hashed@[x].hash.hex@,
                first.len() == index.texts().len(),
                forall|d: int|
                    0 <= d < first.len() ==> #[trigger] first[d] < j && is_first_with(
                        hashed@,
                        index.texts()[d],
                        first[d],
                    ),
                forall|d: int, e: int| 0 <= d < e < first.len() ==> #[trigger] first[d] < #[trigger] first[e],
            decreases n - j,
        {
            let ghost before = index.texts();
            let ghost first_before = first;
            let id = index.intern(hashed[j].hash.hex.as_str());
            proof {
                assert forall|x: int| 0 <= x < before.len() implies index.texts()[x] == before[x] by {
                    if !before.contains(hashed@[j as int].hash.hex@) {
                        assert(index.texts() == before.push(hashed@[j as int].hash.hex@));
                    }
                }
                if !before.contains(hashed@[j as int].hash.hex@) {
                    first = first.push(j as int);
                    assert forall|i: int| 0 <= i < j implies (#[trigger] hashed@[i]).hash.hex@
                        != hashed@[j as int].hash.hex@ by {
                        assert(before[group_of@[i] as int] == hashed@[i].hash.hex@);
                        assert(before.contains(hashed@[i].hash.hex@));
                    }
                }
                assert forall|d: int| 0 <= d < first.len() implies #[trigger] first[d] < j + 1 && is_first_with(
                    hashed@,
                    index.texts()[d],
                    first[d],
                ) by {
                    if d < first_before.len() {
                        assert(first[d] == first_before[d]);
                    }
                }
                assert forall|d: int, e: int| 0 <= d < e < first.len() implies #[trigger] first[d]
                    < #[trigger] first[e] by {
                    assert(first[d] == first_before[d]);
                    assert(first_before[d] < j);
                    if e < first_before.len() {
                        assert(first[e] == first_before[e]);
                    }
                }
            }
            group_of.push(id);
            j += 1;
        }
        let ghost digests = index.texts();
        proof {
            index.lemma_distinct();
        }
        let mut all: Vec<DupGroup> = Vec::new();
        let mut g: usize = 0;
        while g < index.len()
            invariant
                g <= digests.len(),
                digests == index.texts(),
                all@.len() == g,
                forall|x: int|
                    0 <= x < g ==> (#[trigger] all@[x]).hash.hex@ == digests[x] && all@[x].files@.len() == 0,
            decreases digests.len() - g,
        {
            all.push(DupGroup { hash: FileHash { hex: index.text(g).clone() }, files: Vec::new() });
            g += 1;
        }
        proof {
            lemma_total_files_empty(all@);
        }
        let mut j: usize = 0;
        for item in it: hashed
            invariant
                it.seq() == hashed@,
                j == it.index(),
                n == hashed@.len(),
                group_of@.len() == n,
                forall|x: int|
                    0 <= x < n ==> (#[trigger] group_of@[x]) < digests.len() && digests[group_of@[x] as int]
                        == hashed@[x].hash.hex@,
                forall|x: int, y: int|
                    0 <= x < digests.len() && 0 <= y < digests.len() && digests[x] == digests[y] ==> x == y,
                all@.len() == digests.len(),
                total_files(all@) == j,
                forall|x: int|
                    0 <= x < all@.len() ==> (#[trigger] all@[x]).hash.hex@ == digests[x] && all@[x].files@
                        == files_with(hashed@, digests[x], j as int),
        {
            let ghost before = all@;
            let id = group_of[j];
            all[id].files.push(item.file);
            proof {
                lemma_total_files_grows(before, all@, id as int);
                assert forall|x: int| 0 <= x < all@.len() implies (#[trigger] all@[x]).hash.hex@
                    == digests[x] && all@[x].files@ == files_with(hashed@, digests[x], j + 1) by {
                    if x != id {
                        assert(all@[x] == before[x]);
                        assert(digests[x] != digests[id as int]);
                    }
                }
            }
            j += 1;
        }
        let ghost grouped = all@;
        let mut kept: Vec<DupGroup> = Vec::new();
        let ghost mut origin: Seq<int> = Seq::empty();
        for group in it: all
            invariant
                it.seq() == grouped,
                origin.len() == kept@.len(),
                forall|k: int|
                    0 <= k < kept@.len() ==> 0 <= #[trigger] origin[k] < it.index() && grouped[origin[k]]
                        == kept@[k],
                forall|k: int, l: int| 0 <= k < l < kept@.len() ==> #[trigger] origin[k] < #[trigger] origin[l],
                total_files(kept@) <= total_files(grouped.take(it.index())),
                forall|k: int|
                    0 <= k < kept@.len() ==> (#[trigger] kept@[k]).files@.len() >= 2 && exists|x: int|
                        0 <= x < it.index() && #[trigger] grouped[x] == kept@[k],
                forall|k: int, l: int|
                    0 <= k < kept@.len() && 0 <= l < kept@.len() && k != l ==> (#[trigger] kept@[k]).hash.hex@
                        != (#[trigger] kept@[l]).hash.hex@,
                forall|x: int|
                    0 <= x < it.index() && (#[trigger] grouped[x]).files@.len() >= 2 ==> kept@.contains(
                        grouped[x],
                    ),
                forall|x: int, y: int|
                    0 <= x < grouped.len() && 0 <= y < grouped.len() && x != y ==> (#[trigger] grouped[x]).hash.hex@
                        != (#[trigger] grouped[y]).hash.hex@,
        {
            let ghost before = kept@;
            let ghost origin_before = origin;
            let ghost at = it.index();
            proof {
                assert(grouped.take(at + 1).drop_last() == grouped.take(at));
            }
            if group.files.len() >= 2 {
                kept.push(group);
                proof {
                    origin = origin.push(at);
                    let after = kept@;
                    assert(after.drop_last() == before);
                    assert forall|k: int| 0 <= k < after.len() implies 0 <= #[trigger] origin[k] < at + 1
                        && grouped[origin[k]] == after[k] by {
                        if k < before.len() {
                            assert(origin[k] == origin_before[k]);
                            assert(0 <= origin_before[k] < at);
                            assert(after[k] == before[k]);
                        }
                    }
                    assert forall|k: int, l: int| 0 <= k < l < after.len() implies #[trigger] origin[k]
                        < #[trigger] origin[l] by {
                        assert(origin[k] == origin_before[k]);
                        assert(0 <= origin_before[k] < at);
                        if l < before.len() {
                            assert(origin[l] == origin_before[l]);
                        }
                    }
                    assert forall|k: int| 0 <= k < after.len() implies (#[trigger] after[k]).files@.len() >= 2
                        && exists|x: int| 0 <= x < at + 1 && #[trigger] grouped[x] == after[k] by {
                        if k < before.len() {
                            let x = choose|x: int| 0 <= x < at && #[trigger] grouped[x] == before[k];
                            assert(grouped[x] == after[k]);
                        } else {
                            assert(grouped[at] == after[k]);
                        }
                    }
                    assert forall|k: int, l: int|
                        0 <= k < after.len() && 0 <= l < after.len() && k != l implies (#[trigger] after[k]).hash.hex@
                        != (#[trigger] after[l]).hash.hex@ by {
                        if k < before.len() && l < before.len() {
                            assert(after[k] == before[k] && after[l] == before[l]);
                        } else if k < before.len() {
                            let x = choose|x: int| 0 <= x < at && #[trigger] grouped[x] == before[k];
                            assert(grouped[x].hash.hex@ != grouped[at].hash.hex@);
                        } else {
                            let x = choose|x: int| 0 <= x < at && #[trigger] grouped[x] == before[l];
                            assert(grouped[x].hash.hex@ != grouped[at].hash.hex@);
                        }
                    }
                    assert forall|x: int|
                        0 <= x < at + 1 && (#[trigger] grouped[x]).files@.len() >= 2 implies after.contains(
                        grouped[x],
                    ) by {
                        if x < at {
                            let k = choose|k: int| 0 <= k < before.len() && before[k] == grouped[x];
                            assert(after[k] == grouped[x]);
                        } else {
                            assert(after[after.len() - 1] == grouped[x]);
                        }
                    }
                }
            } else {
                proof {
                    assert forall|k: int| 0 <= k < before.len() implies exists|x: int|
                        0 <= x < at + 1 && #[trigger] grouped[x] == (#[trigger] before[k]) by {
                        let x = choose|x: int| 0 <= x < at && #[trigger] grouped[x] == before[k];
                        assert(grouped[x] == before[k]);
                    }
                    assert forall|k: int| 0 <= k < kept@.len() implies 0 <= #[trigger] origin[k] < at + 1
                        && grouped[origin[k]] == kept@[k] by {
                        assert(0 <= origin_before[k] < at);
                    }
                }
            }
        }
        proof {
            assert(grouped.take(grouped.len() as int) == grouped);
            let groups = kept@;
            assert forall|g: int| 0 <= g < groups.len() implies (#[trigger] groups[g]).files@
                == same_content(hashed@, groups[g].hash.hex@) by {
                let x = choose|x: int| 0 <= x < grouped.len() && #[trigger] grouped[x] == groups[g];
            }
            assert forall|hex: Seq<char>| (#[trigger] same_content(hashed@, hex)).len() >= 2 implies exists|
                g: int,
            | 0 <= g < groups.len() && (#[trigger] groups[g]).hash.hex@ == hex by {
                lemma_files_with_came(hashed@, hex, n as int);
                let w = choose|w: int| 0 <= w < n && hashed@[w].hash.hex@ == hex;
                let x = group_of@[w] as int;
                assert(grouped[x].files@ == same_content(hashed@, hex));
                assert(groups.contains(grouped[x]));
                let g = choose|g: int| 0 <= g < groups.len() && groups[g] == grouped[x];
                assert(groups[g].hash.hex@ == hex);
            }
            assert(total_files(groups) <= n);
            assert forall|g: int| 0 <= g < groups.len() implies (#[trigger] groups[g]).files@.len() >= 2 by {}
        }
        let r = DupGroups { groups: kept, seen: n };
        proof {
            assert(r.seen == hashed@.len());
            assert(total_files(r.groups@) <= hashed@.len());
            assert forall|g: int, h: int| 0 <= g < h < r.groups@.len() implies met_first(
                hashed@,
                (#[trigger] r.groups@[g]).hash.hex@,
                (#[trigger] r.groups@[h]).hash.hex@,
            ) by {
                assert(origin[g] < origin[h]);
                assert(grouped[origin[g]] == r.groups@[g] && grouped[origin[h]] == r.groups@[h]);
                assert(first[origin[g]] < first[origin[h]]);
                assert(is_first_with(hashed@, digests[origin[g]], first[origin[g]]));
                assert(is_first_with(hashed@, digests[origin[h]], first[origin[h]]));
            }
            assert(forall|g: int|
                0 <= g < r.groups@.len() ==> {
                    &&& (#[trigger] r.groups@[g]).files@ == same_content(hashed@, r.groups@[g].hash.hex@)
                    &&& r.groups@[g].files@.len() >= 2
                });
            assert(forall|g: int, h: int|
                0 <= g < r.groups@.len() && 0 <= h < r.groups@.len() && g != h ==> (#[trigger] r.groups@[g]).hash.hex@
                    != (#[trigger] r.groups@[h]).hash.hex@);
            assert(forall|hex: Seq<char>|
                (#[trigger] same_content(hashed@, hex)).len() >= 2 ==> exists|g: int|
                    0 <= g < r.groups@.len() && (#[trigger] r.groups@[g]).hash.hex@ == hex);
        }
        assert(r.describes(hashed@));
        r
    }
}

/// Where files have the digest `hex`, one of the scanned files has it.
proof fn lemma_files_with_came(hashed: Seq<HashedFile>, hex: Seq<char>, n: int)
    requires
        0 <= n <= hashed.len(),
        files_with(hashed, hex, n).len() > 0,
    ensures
        exists|w: int| 0 <= w < n && hashed[w].hash.hex@ == hex,
    decreases n,
{
    if hashed[n - 1].hash.hex@ != hex {
        lemma_files_with_came(hashed, hex, n - 1);
        let w = choose|w: int| 0 <= w < n - 1 && hashed[w].hash.hex@ == hex;
        assert(0 <= w < n && hashed[w].hash.hex@ == hex);
    }
}

/// The sets of identical files, and what the scan counted.
#[derive(Debug)]
pub struct DupReport {
    pub dups: Vec<DupSet>,
    /// How many files were scanned.
    pub seen: usize,
    /// How many files can be removed when one file of each set is kept.
    pub duplicate_count: usize,
    /// How many bytes that frees.
    pub duplicate_len_sum: u128,
}

/// For each set, the files that can go when one is kept.
pub open spec fn spare_files(dups: Seq<DupSet>) -> Seq<nat> {
    Seq::new(dups.len(), |s: int| (dups[s].files@.len() - 1) as nat)
}

/// For each set, the bytes that are freed when one file is kept.
pub open spec fn spare_bytes(dups: Seq<DupSet>) -> Seq<nat> {
    Seq::new(dups.len(), |s: int| ((dups[s].files@.len() - 1) * dups[s].file_len) as nat)
}

/// How many files can be removed when one file of each set is kept.
pub open spec fn removable_files(dups: Seq<DupSet>) -> nat {
    sum(spare_files(dups))
}

/// How many bytes are freed when one file of each set is kept.
pub open spec fn removable_len(dups: Seq<DupSet>) -> nat {
    sum(spare_bytes(dups))
}

/// The sets come in descending order of the number of their files.
pub open spec fn by_copies(dups: Seq<DupSet>) -> bool {
    forall|i: int, j: int|
        0 <= i <= j < dups.len() ==> (#[trigger] dups[i]).files@.len() >= (#[trigger] dups[j]).files@.len()
}

/// The sets `dups` are the groups whose files have a known length that is
/// not zero: set `s` is the group `origin[s]`, and no group makes two sets.
/// Sets with as many files come in the order of their groups.
pub open spec fn arises(
    dups: Seq<DupSet>,
    groups: Seq<DupGroup>,
    lens: Seq<Option<u64>>,
    origin: Seq<int>,
) -> bool {
    &&& origin.len() == dups.len()
    &&& forall|s: int|
        0 <= s < dups.len() ==> {
            &&& 0 <= #[trigger] origin[s] < groups.len()
            &&& dups[s].files == groups[origin[s]].files
            &&& lens[origin[s]] == Some(dups[s].file_len)
            &&& dups[s].file_len > 0
        }
    &&& forall|s: int, t: int|
        0 <= s < dups.len() && 0 <= t < dups.len() && s != t ==> #[trigger] origin[s] != #[trigger] origin[t]
    &&& forall|g: int|
        0 <= g < groups.len() && (#[trigger] lens[g] matches Some(l) && l > 0) ==> exists|s: int|
            0 <= s < dups.len() && #[trigger] origin[s] == g
    &&& forall|s: int, t: int|
        0 <= s < t < dups.len() && dups[s].files@.len() == dups[t].files@.len() ==> #[trigger] origin[s]
            < #[trigger] origin[t]
}

/// The files of the first `n` groups are among those of all groups.
proof fn lemma_total_files_take(groups: Seq<DupGroup>, n: int)
    requires
        0 <= n <= groups.len(),
    ensures
        total_files(groups.take(n)) <= total_files(groups),
    decreases groups.len() - n,
{
    if n == groups.len() {
        assert(groups.take(n) == groups);
    } else {
        lemma_total_files_take(groups, n + 1);
        assert(groups.take(n + 1).drop_last() == groups.take(n));
    }
}

impl DupGroups {
    /// Each group holds two files or more, and together they hold no more
    /// files than were scanned.
    pub open spec fn wf(&self) -> bool {
        &&& total_files(self.groups@) <= self.seen
        &&& forall|g: int| 0 <= g < self.groups@.len() ==> (#[trigger] self.groups@[g]).files@.len() >= 2
    }

    /// Makes the sets of duplicates from the groups: `lens` holds, for each
    /// group in turn, the length of its first file, or `None` where that
    /// could not be read. A group becomes a set where the length is known
    /// and not zero. The sets come in descending order of their number of
    /// files.
    pub fn conclude(self, lens: &Vec<Option<u64>>) -> (r: DupReport)
        requires
            self.wf(),
            lens@.len() == self.groups@.len(),
        ensures
            r.seen == self.seen,
            forall|s: int| 0 <= s < r.dups@.len() ==> (#[trigger] r.dups@[s]).valid(),
            by_copies(r.dups@),
            exists|origin: Seq<int>| arises(r.dups@, self.groups@, lens@, origin),
            r.duplicate_count == removable_files(r.dups@),
            r.duplicate_len_sum == removable_len(r.dups@),
    {
        let ghost all = self.groups@;
        let seen = self.seen;
        let group_count = self.groups.len();
        let mut sets: Vec<DupSet> = Vec::new();
        let ghost mut origin: Seq<int> = Seq::empty();
        let mut duplicate_count: usize = 0;
        let mut duplicate_len_sum: u128 = 0;
        let mut g: usize = 0;
        for group in it: self.groups
            invariant
                it.seq() == all,
                g == it.index(),
                all.len() == group_count,
                lens@.len() == all.len(),
                total_files(all) <= seen,
                forall|x: int| 0 <= x < all.len() ==> (#[trigger] all[x]).files@.len() >= 2,
                origin.len() == sets@.len(),
                forall|s: int|
                    0 <= s < sets@.len() ==> {
                        &&& 0 <= #[trigger] origin[s] < g
                        &&& sets@[s].files == all[origin[s]].files
                        &&& lens@[origin[s]] == Some(sets@[s].file_len)
                        &&& sets@[s].file_len > 0
                    },
                forall|s: int, t: int| 0 <= s < t < sets@.len() ==> #[trigger] origin[s] < #[trigger] origin[t],
                forall|x: int|
                    0 <= x < g && (#[trigger] lens@[x] matches Some(l) && l > 0) ==> exists|s: int|
                        0 <= s < sets@.len() && #[trigger] origin[s] == x,
                duplicate_count == removable_files(sets@),
                duplicate_len_sum == removable_len(sets@),
                duplicate_count <= total_files(all.take(g as int)),
                duplicate_len_sum <= total_files(all.take(g as int)) * 0xffff_ffff_ffff_ffff,
        {
            proof {
                assert(all.take(g + 1).drop_last() == all.take(g as int));
                lemma_total_files_take(all, g + 1);
            }
            match lens[g] {
                Some(file_len) => {
                    if file_len > 0 {
                        let others = group.files.len() - 1;
                        let ghost before = sets@;
                        let ghost origin_before = origin;
                        proof {
                            let t = total_files(all.take(g as int));
                            assert(others * file_len <= (others + 1) * 0xffff_ffff_ffff_ffff)
                                by (nonlinear_arith)
                                requires
                                    file_len <= 0xffff_ffff_ffff_ffff,
                                    others >= 0,
                            ;
                            assert((t + others + 1) * 0xffff_ffff_ffff_ffff == t * 0xffff_ffff_ffff_ffff
                                + (others + 1) * 0xffff_ffff_ffff_ffff) by (nonlinear_arith);
                            assert((t + others + 1) * 0xffff_ffff_ffff_ffff <= 0xffff_ffff_ffff_ffff
                                * 0xffff_ffff_ffff_ffff) by (nonlinear_arith)
                                requires
                                    t + others + 1 <= 0xffff_ffff_ffff_ffff,
                            ;
                        }
                        duplicate_count = duplicate_count + others;
                        duplicate_len_sum = duplicate_len_sum + (others as u128) * (file_len as u128);
                        sets.push(DupSet { files: group.files, file_len });
                        proof {
                            origin = origin.push(g as int);
                            let after = sets@;
                            assert forall|s: int, t: int| 0 <= s < t < after.len() implies #[trigger] origin[s]
                                < #[trigger] origin[t] by {
                                assert(origin[s] == origin_before[s]);
                                assert(0 <= origin_before[s] < g);
                                if t < before.len() {
                                    assert(origin[t] == origin_before[t]);
                                }
                            }
                            assert(spare_files(after).drop_last() == spare_files(before));
                            assert(spare_bytes(after).drop_last() == spare_bytes(before));
                            assert forall|x: int|
                                0 <= x < g + 1 && (#[trigger] lens@[x] matches Some(l) && l > 0) implies exists|
                                s: int,
                            | 0 <= s < after.len() && #[trigger] origin[s] == x by {
                                if x < g {
                                    let s = choose|s: int|
                                        0 <= s < before.len() && #[trigger] origin_before[s] == x;
                                    assert(origin[s] == x);
                                } else {
                                    assert(origin[after.len() - 1] == x);
                                }
                            }
                        }
                    }
                },
                None => {},
            }
            g += 1;
        }
        let ghost unsorted = sets@;
        let mut keys: Vec<u128> = Vec::new();
        let mut k: usize = 0;
        while k < sets.len()
            invariant
                k <= sets@.len(),
                keys@.len() == k,
                forall|x: int| 0 <= x < k ==> #[trigger] keys@[x] == sets@[x].files@.len(),
            decreases sets@.len() - k,
        {
            keys.push(sets[k].files.len() as u128);
            k += 1;
        }
        let (dups, order) = sort_descending(sets, &keys);
        let r = DupReport { dups, seen, duplicate_count, duplicate_len_sum };
        proof {
            let order = order@;
            let sorted = r.dups@;
            assert forall|i: int, j: int| 0 <= i <= j < sorted.len() implies (#[trigger] sorted[i]).files@.len()
                >= (#[trigger] sorted[j]).files@.len() by {
                assert(sorted[i] == unsorted[order[i] as int]);
                assert(sorted[j] == unsorted[order[j] as int]);
                assert(keys@[order[i] as int] >= keys@[order[j] as int]);
            }
            let origin_sorted = Seq::new(sorted.len(), |k: int| origin[order[k] as int]);
            assert forall|s: int| 0 <= s < sorted.len() implies {
                &&& 0 <= #[trigger] origin_sorted[s] < all.len()
                &&& sorted[s].files == all[origin_sorted[s]].files
                &&& lens@[origin_sorted[s]] == Some(sorted[s].file_len)
                &&& sorted[s].file_len > 0
                &&& sorted[s].valid()
            } by {
                assert(sorted[s] == unsorted[order[s] as int]);
                assert(origin_sorted[s] == origin[order[s] as int]);
            }
            assert forall|s: int, t: int|
                0 <= s < sorted.len() && 0 <= t < sorted.len() && s != t implies #[trigger] origin_sorted[s]
                != #[trigger] origin_sorted[t] by {
                assert(order[s] != order[t]);
                if order[s] < order[t] {
                    assert(origin[order[s] as int] < origin[order[t] as int]);
                } else {
                    assert(origin[order[t] as int] < origin[order[s] as int]);
                }
            }
            assert forall|s: int, t: int|
                0 <= s < t < sorted.len() && sorted[s].files@.len() == sorted[t].files@.len()
                implies #[trigger] origin_sorted[s] < #[trigger] origin_sorted[t] by {
                assert(sorted[s] == unsorted[order[s] as int]);
                assert(sorted[t] == unsorted[order[t] as int]);
                assert(keys@[order[s] as int] == keys@[order[t] as int]);
                assert(order[s] < order[t]);
                assert(origin[order[s] as int] < origin[order[t] as int]);
            }
            assert forall|x: int|
                0 <= x < all.len() && (#[trigger] lens@[x] matches Some(l) && l > 0) implies exists|s: int|
                0 <= s < sorted.len() && #[trigger] origin_sorted[s] == x by {
                let u = choose|u: int| 0 <= u < unsorted.len() && #[trigger] origin[u] == x;
                assert(order.contains(u as usize));
                let s = choose|s: int| 0 <= s < order.len() && order[s] == u as usize;
                assert(origin_sorted[s] == x);
            }
            assert(arises(sorted, all, lens@, origin_sorted));
            assert forall|s: int| 0 <= s < sorted.len() implies (#[trigger] sorted[s]).valid() by {
                assert(sorted[s] == unsorted[order[s] as int]);
                assert(0 <= origin[order[s] as int] < all.len());
            }
            assert forall|k: int| 0 <= k < sorted.len() implies spare_files(sorted)[k] == spare_files(
                unsorted,
            )[#[trigger] order[k] as int] by {
                assert(sorted[k] == unsorted[order[k] as int]);
            }
            assert forall|k: int| 0 <= k < sorted.len() implies spare_bytes(sorted)[k] == spare_bytes(
                unsorted,
            )[#[trigger] order[k] as int] by {
                assert(sorted[k] == unsorted[order[k] as int]);
            }
            lemma_sum_rearranged(spare_files(unsorted), order, spare_files(sorted));
            lemma_sum_rearranged(spare_bytes(unsorted), order, spare_bytes(sorted));
        }
        r
    }
}

/// A file and its length on disk; `None` where the length could not be read.
#[derive(Debug)]
pub struct FileLen {
    pub path: String,
    pub len: Option<u64>,
}

/// The length that `file_lens` gives for the file at `path`: that of the
/// first item for it. `None` where no item is for `path`, or the first one
/// has no length.
pub open spec fn len_of(file_lens: Seq<FileLen>, path: Seq<char>) -> Option<u64>
    decreases file_lens.len(),
{
    if file_lens.len() == 0 {
        None
    } else if file_lens[0].path@ == path {
        file_lens[0].len
    } else {
        len_of(file_lens.drop_first(), path)
    }
}

/// The length that `file_lens` gives for the file at `path`.
pub fn lookup_len(file_lens: &[FileLen], path: &String) -> (r: Option<u64>)
    ensures
        r == len_of(file_lens@, path@),
{
    let mut k: usize = 0;
    proof {
        assert(file_lens@.skip(0) == file_lens@);
    }
    while k < file_lens.len()
        invariant
            k <= file_lens@.len(),
            len_of(file_lens@, path@) == len_of(file_lens@.skip(k as int), path@),
        decreases file_lens@.len() - k,
    {
        proof {
            assert(file_lens@.skip(k as int)[0] == file_lens@[k as int]);
            assert(file_lens@.skip(k as int).drop_first() == file_lens@.skip(k + 1));
        }
        if file_lens[k].path == *path {
            return file_lens[k].len;
        }
        k += 1;
    }
    None
}

/// The sets `dups` are those of the scanned files `hashed`: set `s` holds
/// all the files with the digest `digests[s]`. There is one set for each
/// digest that two files or more have and whose first file has, by
/// `file_lens`, a known length that is not zero. Sets with as many files
/// come in the order in which their digests are first met.
pub open spec fn sets_of(
    dups: Seq<DupSet>,
    hashed: Seq<HashedFile>,
    file_lens: Seq<FileLen>,
    digests: Seq<Seq<char>>,
) -> bool {
    &&& digests.len() == dups.len()
    &&& forall|s: int|
        0 <= s < dups.len() ==> {
            &&& (#[trigger] dups[s]).files@ == same_content(hashed, digests[s])
            &&& dups[s].valid()
            &&& len_of(file_lens, dups[s].files@[0].path@) == Some(dups[s].file_len)
        }
    &&& forall|s: int, t: int|
        0 <= s < dups.len() && 0 <= t < dups.len() && s != t ==> #[trigger] digests[s] != #[trigger] digests[t]
    &&& forall|hex: Seq<char>|
        (#[trigger] same_content(hashed, hex)).len() >= 2 && (len_of(
            file_lens,
            same_content(hashed, hex)[0].path@,
        ) matches Some(l) && l > 0) ==> exists|s: int| 0 <= s < dups.len() && #[trigger] digests[s] == hex
    &&& forall|s: int, t: int|
        0 <= s < t < dups.len() && dups[s].files@.len() == dups[t].files@.len() ==> met_first(
            hashed,
            #[trigger] digests[s],
            #[trigger] digests[t],
        )
}

impl Default for DupReport {
    /// The report of a scan that met no file.
    fn default() -> (r: DupReport)
        ensures
            r.dups@.len() == 0,
            r.seen == 0,
            r.duplicate_count == 0,
            r.duplicate_len_sum == 0,
    {
        DupReport { dups: Vec::new(), seen: 0, duplicate_count: 0, duplicate_len_sum: 0 }
    }
}

impl DupReport {
    /// The report is that of the scanned files `hashed`, with the lengths
    /// that `file_lens` gives.
    pub open spec fn describes(&self, hashed: Seq<HashedFile>, file_lens: Seq<FileLen>) -> bool {
        &&& self.seen == hashed.len()
        &&& exists|digests: Seq<Seq<char>>| sets_of(self.dups@, hashed, file_lens, digests)
        &&& by_copies(self.dups@)
        &&& self.duplicate_count == removable_files(self.dups@)
        &&& self.duplicate_len_sum == removable_len(self.dups@)
    }

    /// How many sets of duplicates there are.
    pub fn len(&self) -> (n: usize)
        ensures
            n == self.dups@.len(),
    {
        self.dups.len()
    }

    /// Whether there is no set of duplicates.
    pub fn is_empty(&self) -> (r: bool)
        ensures
            r == (self.dups@.len() == 0),
    {
        self.dups.len() == 0
    }

    /// Makes the sets of duplicates from the files that were scanned and
    /// the lengths of files. Files with one digest make a set where they are
    /// two or more and the first of them has a known length that is not
    /// zero. The sets come in descending order of their number of files.
    pub fn build(hashed: Vec<HashedFile>, file_lens: &[FileLen]) -> (r: DupReport)
        ensures
            r.describes(hashed@, file_lens@),
            forall|s: int| 0 <= s < r.dups@.len() ==> (#[trigger] r.dups@[s]).valid(),
    {
        let groups = DupGroups::build(hashed);
        let mut lens: Vec<Option<u64>> = Vec::new();
        let mut g: usize = 0;
        while g < groups.groups.len()
            invariant
                g <= groups.groups@.len(),
                groups.describes(hashed@),
                lens@.len() == g,
                forall|x: int|
                    0 <= x < g ==> #[trigger] lens@[x] == len_of(
                        file_lens@,
                        groups.groups@[x].files@[0].path@,
                    ),
            decreases groups.groups@.len() - g,
        {
            assert(groups.groups@[g as int].files@.len() >= 2);
            lens.push(lookup_len(file_lens, &groups.groups[g].files[0].path));
            g += 1;
        }
        let ghost all = groups.groups@;
        let r = groups.conclude(&lens);
        proof {
            let dups = r.dups@;
            let origin = choose|origin: Seq<int>| arises(dups, all, lens@, origin);
            let digests = Seq::new(dups.len(), |s: int| all[origin[s]].hash.hex@);
            assert forall|s: int| 0 <= s < dups.len() implies {
                &&& (#[trigger] dups[s]).files@ == same_content(hashed@, digests[s])
                &&& dups[s].valid()
                &&& len_of(file_lens@, dups[s].files@[0].path@) == Some(dups[s].file_len)
            } by {
                assert(0 <= origin[s] < all.len());
                assert(all[origin[s]].files@ == same_content(hashed@, all[origin[s]].hash.hex@));
            }
            assert forall|s: int, t: int|
                0 <= s < dups.len() && 0 <= t < dups.len() && s != t implies #[trigger] digests[s]
                != #[trigger] digests[t] by {
                assert(origin[s] != origin[t]);
                assert(0 <= origin[s] < all.len() && 0 <= origin[t] < all.len());
            }
            assert forall|hex: Seq<char>|
                (#[trigger] same_content(hashed@, hex)).len() >= 2 && (len_of(
                    file_lens@,
                    same_content(hashed@, hex)[0].path@,
                ) matches Some(l) && l > 0) implies exists|s: int|
                0 <= s < dups.len() && #[trigger] digests[s] == hex by {
                let g = choose|g: int| 0 <= g < all.len() && (#[trigger] all[g]).hash.hex@ == hex;
                assert(all[g].files@ == same_content(hashed@, hex));
                assert(lens@[g] == len_of(file_lens@, all[g].files@[0].path@));
                let s = choose|s: int| 0 <= s < dups.len() && #[trigger] origin[s] == g;
                assert(digests[s] == hex);
            }
            assert forall|s: int, t: int|
                0 <= s < t < dups.len() && dups[s].files@.len() == dups[t].files@.len() implies met_first(
                hashed@,
                #[trigger] digests[s],
                #[trigger] digests[t],
            ) by {
                assert(origin[s] < origin[t]);
                assert(0 <= origin[s] < all.len() && 0 <= origin[t] < all.len());
                assert(met_first(hashed@, all[origin[s]].hash.hex@, all[origin[t]].hash.hex@));
            }
            assert(sets_of(dups, hashed@, file_lens@, digests));
        }
        r
    }
}

/// A file with the digest `hex` is among the files with that digest.
pub proof fn lemma_files_with_holds(hashed: Seq<HashedFile>, hex: Seq<char>, n: int, i: int)
    requires
        0 <= i < n <= hashed.len(),
        hashed[i].hash.hex@ == hex,
    ensures
        files_with(hashed, hex, n).contains(hashed[i].file),
    decreases n,
{
    if i == n - 1 {
        let all = files_with(hashed, hex, n);
        assert(all[all.len() - 1] == hashed[i].file);
    } else {
        lemma_files_with_holds(hashed, hex, n - 1, i);
        let fewer = files_with(hashed, hex, n - 1);
        let at = choose|at: int| 0 <= at < fewer.len() && fewer[at] == hashed[i].file;
        assert(files_with(hashed, hex, n)[at] == hashed[i].file);
    }
}

/// Two scanned files with the same digest lie together in exactly one set,
/// provided that the first file with that digest has a known length that is
/// not zero.
pub proof fn lemma_identical_files_share_one_set(
    dups: Seq<DupSet>,
    hashed: Seq<HashedFile>,
    file_lens: Seq<FileLen>,
    digests: Seq<Seq<char>>,
    i: int,
    j: int,
)
    requires
        sets_of(dups, hashed, file_lens, digests),
        0 <= i < hashed.len(),
        0 <= j < hashed.len(),
        i != j,
        hashed[i].hash.hex@ == hashed[j].hash.hex@,
        len_of(file_lens, same_content(hashed, hashed[i].hash.hex@)[0].path@) matches Some(l) && l > 0,
    ensures
        exists|s: int|
            0 <= s < dups.len() && #[trigger] digests[s] == hashed[i].hash.hex@ && dups[s].files@.contains(
                hashed[i].file,
            ) && dups[s].files@.contains(hashed[j].file) && forall|t: int|
                0 <= t < dups.len() && #[trigger] digests[t] == hashed[i].hash.hex@ ==> t == s,
{
    let hex = hashed[i].hash.hex@;
    lemma_files_with_holds(hashed, hex, hashed.len() as int, i);
    lemma_files_with_holds(hashed, hex, hashed.len() as int, j);
    lemma_files_with_count(hashed, hex, hashed.len() as int, i, j);
    let s = choose|s: int| 0 <= s < dups.len() && #[trigger] digests[s] == hex;
    assert(dups[s].files@ == same_content(hashed, hex));
}

/// Where two of the scanned files have the digest `hex`, the files with
/// that digest are two or more.
pub proof fn lemma_files_with_count(hashed: Seq<HashedFile>, hex: Seq<char>, n: int, i: int, j: int)
    requires
        0 <= i < n <= hashed.len(),
        0 <= j < n,
        i != j,
        hashed[i].hash.hex@ == hex,
        hashed[j].hash.hex@ == hex,
    ensures
        files_with(hashed, hex, n).len() >= 2,
    decreases n,
{
    if i == n - 1 {
        lemma_files_with_holds(hashed, hex, n - 1, j);
    } else if j == n - 1 {
        lemma_files_with_holds(hashed, hex, n - 1, i);
    } else {
        lemma_files_with_count(hashed, hex, n - 1, i, j);
    }
}

/// A scanned file whose digest no other scanned file has lies in no set.
pub proof fn lemma_unique_file_is_in_no_set(
    dups: Seq<DupSet>,
    hashed: Seq<HashedFile>,
    file_lens: Seq<FileLen>,
    digests: Seq<Seq<char>>,
    i: int,
)
    requires
        sets_of(dups, hashed, file_lens, digests),
        0 <= i < hashed.len(),
        forall|j: int| 0 <= j < hashed.len() && j != i ==> hashed[j].hash.hex@ != hashed[i].hash.hex@,
    ensures
        forall|s: int| 0 <= s < dups.len() ==> #[trigger] digests[s] != hashed[i].hash.hex@,
{
    let hex = hashed[i].hash.hex@;
    lemma_files_with_alone(hashed, hex, hashed.len() as int, i);
    assert forall|s: int| 0 <= s < dups.len() implies #[trigger] digests[s] != hex by {
        assert(dups[s].files@ == same_content(hashed, digests[s]));
    }
}

/// Where one scanned file alone has the digest `hex`, the files with that
/// digest are at most one.
pub proof fn lemma_files_with_alone(hashed: Seq<HashedFile>, hex: Seq<char>, n: int, i: int)
    requires
        0 <= n <= hashed.len(),
        forall|j: int| 0 <= j < hashed.len() && j != i ==> hashed[j].hash.hex@ != hex,
    ensures
        files_with(hashed, hex, n).len() <= 1,
        n <= i ==> files_with(hashed, hex, n).len() == 0,
    decreases n,
{
    if n > 0 {
        lemma_files_with_alone(hashed, hex, n - 1, i);
    }
}

} // verus!
