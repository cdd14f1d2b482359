//! Pairs of directories that share identical files.

use vstd::prelude::*;
use fnv::FnvHashMap;
use crate::dirs::{canonical_pair, DirPair, DirPairKey};
use crate::dup::DupSet;
use crate::file_pair::FilePair;
use crate::index::TextIndex;
use crate::parents::{distinct, in_set, parent_at};
use crate::paths::{lemma_path_total, path_less, path_precedes};

verus! {

/// `fp` names two files of one set of which the left one lies in a
/// directory that comes before that of the right one.
pub open spec fn cross_pair(dups: Seq<DupSet>, fp: FilePair) -> bool {
    &&& in_set(dups, fp.dup_set_idx as int, fp.left_file_idx as int)
    &&& in_set(dups, fp.dup_set_idx as int, fp.right_file_idx as int)
    &&& path_less(
        parent_at(dups, fp.dup_set_idx as int, fp.left_file_idx as int),
        parent_at(dups, fp.dup_set_idx as int, fp.right_file_idx as int),
    )
}

/// The left file of `fp` lies in `left`, the right one in `right`.
pub open spec fn lies_in(dups: Seq<DupSet>, fp: FilePair, left: Seq<char>, right: Seq<char>) -> bool {
    &&& parent_at(dups, fp.dup_set_idx as int, fp.left_file_idx as int) == left
    &&& parent_at(dups, fp.dup_set_idx as int, fp.right_file_idx as int) == right
}

/// The lower of the two positions of a pair.
pub open spec fn low_of(fp: FilePair) -> int {
    if fp.left_file_idx < fp.right_file_idx {
        fp.left_file_idx as int
    } else {
        fp.right_file_idx as int
    }
}

/// The higher of the two positions of a pair.
pub open spec fn high_of(fp: FilePair) -> int {
    if fp.left_file_idx < fp.right_file_idx {
        fp.right_file_idx as int
    } else {
        fp.left_file_idx as int
    }
}

/// The pair `fp` is met before the pair `other` when the sets, and in each
/// set the files, are gone through in rising order.
pub open spec fn met_before(fp: FilePair, other: FilePair) -> bool {
    seen_before(fp, other.dup_set_idx as int, low_of(other), high_of(other))
}

impl DirPair {
    /// The pair is that of its two directories: the left one comes first in
    /// the order of paths, and the file pairs are those of identical files
    /// of which one lies in the left directory and one in the right: all of
    /// them, each once, in the order in which they are met.
    pub open spec fn describes(&self, dups: Seq<DupSet>) -> bool {
        &&& path_less(self.key.left_dir@, self.key.right_dir@)
        &&& self.file_pairs@.len() >= 1
        &&& forall|x: int|
            0 <= x < self.file_pairs@.len() ==> cross_pair(dups, #[trigger] self.file_pairs@[x])
                && lies_in(dups, self.file_pairs@[x], self.key.left_dir@, self.key.right_dir@)
        &&& forall|x: int, y: int|
            0 <= x < self.file_pairs@.len() && 0 <= y < self.file_pairs@.len() && x != y
                ==> self.file_pairs@[x] != self.file_pairs@[y]
        &&& forall|x: int, y: int|
            0 <= x < y < self.file_pairs@.len() ==> met_before(
                #[trigger] self.file_pairs@[x],
                #[trigger] self.file_pairs@[y],
            )
        &&& forall|fp: FilePair|
            #[trigger] cross_pair(dups, fp) && lies_in(
                dups,
                fp,
                self.key.left_dir@,
                self.key.right_dir@,
            ) ==> self.file_pairs@.contains(fp)
    }
}

/// The pairs of directories come in the order in which they are met: by
/// the first pair of files of each.
pub open spec fn as_met(pairs: Seq<DirPair>) -> bool {
    forall|k: int, l: int|
        0 <= k < l < pairs.len() ==> met_before(
            (#[trigger] pairs[k]).file_pairs@[0],
            (#[trigger] pairs[l]).file_pairs@[0],
        )
}

/// `pairs` are the pairs of directories of `dups`: one for each two
/// directories that share identical files.
pub open spec fn are_dir_pairs(pairs: Seq<DirPair>, dups: Seq<DupSet>) -> bool {
    &&& forall|k: int| 0 <= k < pairs.len() ==> (#[trigger] pairs[k]).describes(dups)
    &&& forall|k: int, l: int|
        0 <= k < pairs.len() && 0 <= l < pairs.len() && k != l ==> !((#[trigger] pairs[k]).key.left_dir@
            == (#[trigger] pairs[l]).key.left_dir@ && pairs[k].key.right_dir@
            == pairs[l].key.right_dir@)
    &&& forall|fp: FilePair| #[trigger]
        cross_pair(dups, fp) ==> exists|k: int|
            0 <= k < pairs.len() && lies_in(
                dups,
                fp,
                (#[trigger] pairs[k]).key.left_dir@,
                pairs[k].key.right_dir@,
            )
}

/// The two files of `fp` were compared before the files `a` and `b` of set
/// `s` are: the sets, and in a set the files, are taken in rising order.
pub open spec fn seen_before(fp: FilePair, s: int, a: int, b: int) -> bool {
    fp.dup_set_idx < s || (fp.dup_set_idx == s && (low_of(fp) < a || (low_of(fp) == a && high_of(fp) < b)))
}

/// The number under which two directories are looked up.
pub open spec fn slot_of(left: usize, right: usize) -> int {
    left * 0x1_0000_0000_0000_0000 + right
}

/// What a `fnv::FnvHashMap` from numbers to positions holds: the position
/// kept under each number.
pub uninterp spec fn pair_slot_entries(slots: FnvHashMap<u128, usize>) -> Map<u128, usize>;

/// `FnvHashMap::default`, that is `HashMap::default` with the FNV hasher: a
/// map that holds nothing.
#[verifier::external_body]
fn pair_slots_new() -> (r: FnvHashMap<u128, usize>)
    ensures
        pair_slot_entries(r).dom() == Set::<u128>::empty(),
{
    FnvHashMap::default()
}

/// `HashMap::get` on a map hashed with FNV: the position kept under `key`,
/// if there is one.
#[verifier::external_body]
fn pair_slots_get(slots: &FnvHashMap<u128, usize>, key: u128) -> (r: Option<usize>)
    ensures
        r == (if pair_slot_entries(*slots).contains_key(key) {
            Some(pair_slot_entries(*slots)[key])
        } else {
            None
        }),
{
    match slots.get(&key) {
        Some(n) => Some(*n),
        None => None,
    }
}

/// `HashMap::insert` on a map hashed with FNV: afterwards `n` is kept under
/// `key`, and every other number keeps what it had.
#[verifier::external_body]
fn pair_slots_insert(slots: &mut FnvHashMap<u128, usize>, key: u128, n: usize)
    ensures
        pair_slot_entries(*final(slots)) == pair_slot_entries(*old(slots)).insert(key, n),
{
    slots.insert(key, n);
}

/// The pairs of directories found so far, with the numbers of their
/// directories and a lookup from two numbers to the pair.
pub(crate) struct PairTable {
    pub(crate) pairs: Vec<DirPair>,
    pub(crate) left_dirs: Vec<usize>,
    pub(crate) right_dirs: Vec<usize>,
    pub(crate) slots: FnvHashMap<u128, usize>,
}

impl PairTable {
    /// Each pair has its two directories, in the order of paths, and is
    /// looked up under their numbers.
    pub(crate) open spec fn keyed(&self, dirs: Seq<Seq<char>>) -> bool {
        &&& self.left_dirs@.len() == self.pairs@.len()
        &&& self.right_dirs@.len() == self.pairs@.len()
        &&& forall|k: int|
            0 <= k < self.pairs@.len() ==> {
                &&& (#[trigger] self.left_dirs@[k]) < dirs.len()
                &&& self.right_dirs@[k] < dirs.len()
                &&& dirs[self.left_dirs@[k] as int] == self.pairs@[k].key.left_dir@
                &&& dirs[self.right_dirs@[k] as int] == self.pairs@[k].key.right_dir@
                &&& path_less(self.pairs@[k].key.left_dir@, self.pairs@[k].key.right_dir@)
                &&& self.pairs@[k].file_pairs@.len() >= 1
                &&& pair_slot_entries(self.slots).contains_key(slot_of(self.left_dirs@[k], self.right_dirs@[k]) as u128)
                &&& pair_slot_entries(self.slots)[slot_of(self.left_dirs@[k], self.right_dirs@[k]) as u128] == k
            }
    }

    /// Whatever the lookup holds is the position of a pair, under the
    /// numbers of its directories.
    pub(crate) open spec fn looked_up(&self) -> bool {
        forall|key: u128| #[trigger]
            pair_slot_entries(self.slots).contains_key(key) ==> {
                &&& pair_slot_entries(self.slots)[key] < self.pairs@.len()
                &&& key == slot_of(
                    self.left_dirs@[pair_slot_entries(self.slots)[key] as int],
                    self.right_dirs@[pair_slot_entries(self.slots)[key] as int],
                )
            }
    }

    /// The pairs of files of each pair of directories lie in the two
    /// directories, were met before the files `a` and `b` of set `s`, and
    /// come each once, in the order in which they were met.
    pub(crate) open spec fn sound(&self, dups: Seq<DupSet>, s: int, a: int, b: int) -> bool {
        &&& forall|k: int, x: int|
            0 <= k < self.pairs@.len() && 0 <= x < self.pairs@[k].file_pairs@.len() ==> {
                &&& cross_pair(dups, #[trigger] self.pairs@[k].file_pairs@[x])
                &&& lies_in(
                    dups,
                    self.pairs@[k].file_pairs@[x],
                    self.pairs@[k].key.left_dir@,
                    self.pairs@[k].key.right_dir@,
                )
                &&& seen_before(self.pairs@[k].file_pairs@[x], s, a, b)
            }
        &&& forall|k: int, x: int, y: int|
            0 <= k < self.pairs@.len() && 0 <= x < self.pairs@[k].file_pairs@.len() && 0 <= y
                < self.pairs@[k].file_pairs@.len() && x != y ==> #[trigger] self.pairs@[k].file_pairs@[x]
                != #[trigger] self.pairs@[k].file_pairs@[y]
        &&& forall|k: int, x: int, y: int|
            0 <= k < self.pairs@.len() && 0 <= x < y < self.pairs@[k].file_pairs@.len() ==> met_before(
                #[trigger] self.pairs@[k].file_pairs@[x],
                #[trigger] self.pairs@[k].file_pairs@[y],
            )
    }

    /// Every pair of files met before the files `a` and `b` of set `s` is in
    /// the pair of its two directories.
    pub(crate) open spec fn complete(&self, dups: Seq<DupSet>, s: int, a: int, b: int) -> bool {
        forall|fp: FilePair|
            #[trigger] cross_pair(dups, fp) && seen_before(fp, s, a, b) ==> exists|k: int|
                0 <= k < self.pairs@.len() && lies_in(
                    dups,
                    fp,
                    (#[trigger] self.pairs@[k]).key.left_dir@,
                    self.pairs@[k].key.right_dir@,
                ) && self.pairs@[k].file_pairs@.contains(fp)
    }

    /// The table holds what the comparisons before that of the files `a` and
    /// `b` of set `s` have found, and nothing else.
    pub(crate) open spec fn holds(&self, dups: Seq<DupSet>, dirs: Seq<Seq<char>>, s: int, a: int, b: int) -> bool {
        &&& self.keyed(dirs)
        &&& self.looked_up()
        &&& self.sound(dups, s, a, b)
        &&& self.complete(dups, s, a, b)
    }

    /// A table that holds nothing.
    pub(crate) fn new() -> (r: PairTable)
        ensures
            forall|dups: Seq<DupSet>, dirs: Seq<Seq<char>>| r.holds(dups, dirs, 0, 0, 0),
            r.pairs@.len() == 0,
    {
        PairTable {
            pairs: Vec::new(),
            left_dirs: Vec::new(),
            right_dirs: Vec::new(),
            slots: pair_slots_new(),
        }
    }

    /// The position of the pair of the directories numbered `left` and
    /// `right`, if the table has it.
    fn find(&self, left: usize, right: usize) -> (r: Option<usize>)
        ensures
            r == (if pair_slot_entries(self.slots).contains_key(slot_of(left, right) as u128) {
                Some(pair_slot_entries(self.slots)[slot_of(left, right) as u128])
            } else {
                None
            }),
    {
        let key: u128 = (left as u128) * 0x1_0000_0000_0000_0000u128 + (right as u128);
        pair_slots_get(&self.slots, key)
    }
}

/// `chars` holds the characters of each directory of `dirs`.
pub open spec fn spelled(chars: Seq<Vec<char>>, dirs: Seq<Seq<char>>) -> bool {
    &&& chars.len() == dirs.len()
    &&& forall|d: int| 0 <= d < dirs.len() ==> (#[trigger] chars[d])@ == dirs[d]
}

impl PairTable {
    /// Compares the files `a` and `b` of set `s`: where they lie in two
    /// different directories, they are added to the pair of the two.
    pub(crate) fn record(
        &mut self,
        dups: &[DupSet],
        s: usize,
        a: usize,
        b: usize,
        dir_of: &Vec<usize>,
        index: &TextIndex,
        dir_chars: &Vec<Vec<char>>,
    )
        requires
            old(self).holds(dups@, index.texts(), s as int, a as int, b as int),
            as_met(old(self).pairs@),
            in_set(dups@, s as int, b as int),
            a < b,
            distinct(index.texts()),
            spelled(dir_chars@, index.texts()),
            dir_of@.len() == dups@[s as int].files@.len(),
            forall|i: int|
                0 <= i < dir_of@.len() ==> (#[trigger] dir_of@[i]) < index.texts().len()
                    && index.texts()[dir_of@[i] as int] == parent_at(dups@, s as int, i),
        ensures
            final(self).holds(dups@, index.texts(), s as int, a as int, b + 1),
            as_met(final(self).pairs@),
    {
        let ghost dirs = index.texts();
        let da = dir_of[a];
        let db = dir_of[b];
        proof {
            lemma_path_total(dirs[da as int], dirs[db as int]);
        }
        if da == db {
            proof {
                assert forall|fp: FilePair|
                    #[trigger] cross_pair(dups@, fp) && seen_before(fp, s as int, a as int, b + 1)
                        implies seen_before(fp, s as int, a as int, b as int) by {}
                assert(self.holds(dups@, dirs, s as int, a as int, b + 1));
            }
            return ;
        }
        let inverted = !path_precedes(&dir_chars[da], &dir_chars[db]);
        let left: usize = if inverted {
            db
        } else {
            da
        };
        let right: usize = if inverted {
            da
        } else {
            db
        };
        let fp = FilePair {
            dup_set_idx: s,
            left_file_idx: if inverted {
                b
            } else {
                a
            },
            right_file_idx: if inverted {
                a
            } else {
                b
            },
        };
        proof {
            assert(cross_pair(dups@, fp));
            assert(lies_in(dups@, fp, dirs[left as int], dirs[right as int]));
            assert(!seen_before(fp, s as int, a as int, b as int));
            assert(seen_before(fp, s as int, a as int, b + 1));
            // the two files the other way round make no pair
            let other = FilePair { dup_set_idx: s, left_file_idx: fp.right_file_idx, right_file_idx: fp.left_file_idx };
            assert(!cross_pair(dups@, other));
            assert forall|q: FilePair|
                #[trigger] cross_pair(dups@, q) && seen_before(q, s as int, a as int, b + 1)
                    && !seen_before(q, s as int, a as int, b as int) implies q == fp by {
                if q != fp {
                    assert(q == other);
                }
            }
        }
        match self.find(left, right) {
            Some(k) => {
                let ghost before = self.pairs@;
                self.pairs[k].file_pairs.push(fp);
                proof {
                    let after = self.pairs@;
                    assert(after[k as int].key == before[k as int].key);
                    assert(after[k as int].file_pairs@ == before[k as int].file_pairs@.push(fp));
                    assert forall|j: int| 0 <= j < after.len() && j != k implies after[j] == before[j] by {}
                    assert(dirs[left as int] == after[k as int].key.left_dir@);
                    assert(dirs[right as int] == after[k as int].key.right_dir@);
                    assert forall|j: int, x: int|
                        0 <= j < after.len() && 0 <= x < after[j].file_pairs@.len() implies {
                        &&& cross_pair(dups@, #[trigger] after[j].file_pairs@[x])
                        &&& lies_in(
                            dups@,
                            after[j].file_pairs@[x],
                            after[j].key.left_dir@,
                            after[j].key.right_dir@,
                        )
                        &&& seen_before(after[j].file_pairs@[x], s as int, a as int, b + 1)
                    } by {
                        if j == k && x == before[k as int].file_pairs@.len() {
                        } else {
                            assert(after[j].file_pairs@[x] == before[j].file_pairs@[x]);
                            assert(seen_before(before[j].file_pairs@[x], s as int, a as int, b as int));
                        }
                    }
                    assert forall|j: int, x: int, y: int|
                        0 <= j < after.len() && 0 <= x < after[j].file_pairs@.len() && 0 <= y
                            < after[j].file_pairs@.len() && x != y implies #[trigger] after[j].file_pairs@[x]
                        != #[trigger] after[j].file_pairs@[y] by {
                        if j == k {
                            let n = before[k as int].file_pairs@.len();
                            if x < n {
                                assert(after[j].file_pairs@[x] == before[j].file_pairs@[x]);
                                assert(seen_before(before[j].file_pairs@[x], s as int, a as int, b as int));
                            }
                            if y < n {
                                assert(after[j].file_pairs@[y] == before[j].file_pairs@[y]);
                                assert(seen_before(before[j].file_pairs@[y], s as int, a as int, b as int));
                            }
                        }
                    }
                    assert forall|q: FilePair|
                        #[trigger] cross_pair(dups@, q) && seen_before(
                            q,
                            s as int,
                            a as int,
                            b + 1,
                        ) implies exists|j: int|
                        0 <= j < after.len() && lies_in(
                            dups@,
                            q,
                            (#[trigger] after[j]).key.left_dir@,
                            after[j].key.right_dir@,
                        ) && after[j].file_pairs@.contains(q) by {
                        if seen_before(q, s as int, a as int, b as int) {
                            let j = choose|j: int|
                                0 <= j < before.len() && lies_in(
                                    dups@,
                                    q,
                                    (#[trigger] before[j]).key.left_dir@,
                                    before[j].key.right_dir@,
                                ) && before[j].file_pairs@.contains(q);
                            let x = choose|x: int|
                                0 <= x < before[j].file_pairs@.len() && before[j].file_pairs@[x] == q;
                            assert(after[j].file_pairs@[x] == q);
                            assert(lies_in(dups@, q, after[j].key.left_dir@, after[j].key.right_dir@));
                        } else {
                            assert(q == fp);
                            assert(after[k as int].file_pairs@[before[k as int].file_pairs@.len() as int] == fp);
                            assert(lies_in(dups@, q, after[k as int].key.left_dir@, after[k as int].key.right_dir@));
                        }
                    }
                    assert forall|j: int, x: int, y: int|
                        0 <= j < after.len() && 0 <= x < y < after[j].file_pairs@.len() implies met_before(
                        #[trigger] after[j].file_pairs@[x],
                        #[trigger] after[j].file_pairs@[y],
                    ) by {
                        if j == k {
                            let n = before[k as int].file_pairs@.len();
                            assert(after[j].file_pairs@[x] == before[j].file_pairs@[x]);
                            if y < n {
                                assert(after[j].file_pairs@[y] == before[j].file_pairs@[y]);
                            } else {
                                assert(seen_before(before[j].file_pairs@[x], s as int, a as int, b as int));
                                assert(low_of(fp) == a && high_of(fp) == b);
                            }
                        }
                    }
                    assert(self.keyed(dirs));
                    assert(self.looked_up());
                    assert(self.sound(dups@, s as int, a as int, b + 1));
                    assert(self.complete(dups@, s as int, a as int, b + 1));
                    assert(self.holds(dups@, dirs, s as int, a as int, b + 1));
                    assert forall|i: int, j: int| 0 <= i < j < after.len() implies met_before(
                        (#[trigger] after[i]).file_pairs@[0],
                        (#[trigger] after[j]).file_pairs@[0],
                    ) by {
                        assert(old(self).left_dirs@[i] < dirs.len());
                        assert(old(self).left_dirs@[j] < dirs.len());
                        assert(after[i].file_pairs@[0] == before[i].file_pairs@[0]);
                        assert(after[j].file_pairs@[0] == before[j].file_pairs@[0]);
                    }
                }
            },
            None => {
                let ghost before = self.pairs@;
                let key = DirPairKey::new(index.text(da).as_str(), index.text(db).as_str()).0;
                let mut file_pairs: Vec<FilePair> = Vec::new();
                file_pairs.push(fp);
                let k = self.pairs.len();
                proof {
                    assert(canonical_pair(dirs[da as int], dirs[db as int]) == (dirs[left as int], dirs[right as int], inverted));
                    // no pair of the table has these two directories
                    assert forall|j: int| 0 <= j < before.len() implies !(before[j].key.left_dir@
                        == dirs[left as int] && before[j].key.right_dir@ == dirs[right as int]) by {
                        if before[j].key.left_dir@ == dirs[left as int] && before[j].key.right_dir@
                            == dirs[right as int] {
                            assert(self.left_dirs@[j] == left);
                            assert(self.right_dirs@[j] == right);
                            assert(pair_slot_entries(self.slots).contains_key(slot_of(self.left_dirs@[j], self.right_dirs@[j]) as u128));
                        }
                    }
                }
                self.pairs.push(DirPair::new(key, file_pairs));
                self.left_dirs.push(left);
                self.right_dirs.push(right);
                let slot: u128 = (left as u128) * 0x1_0000_0000_0000_0000u128 + (right as u128);
                pair_slots_insert(&mut self.slots, slot, k);
                proof {
                    let after = self.pairs@;
                    assert forall|j: int| 0 <= j < before.len() implies after[j] == before[j] by {}
                    assert(after[k as int].file_pairs@ == seq![fp]);
                    assert(after[k as int].key.left_dir@ == dirs[left as int]);
                    assert(after[k as int].key.right_dir@ == dirs[right as int]);
                    assert forall|j: int| 0 <= j < after.len() implies {
                        &&& pair_slot_entries(self.slots).contains_key(
                            slot_of(#[trigger] self.left_dirs@[j], self.right_dirs@[j]) as u128,
                        )
                        &&& pair_slot_entries(self.slots)[slot_of(self.left_dirs@[j], self.right_dirs@[j]) as u128] == j
                    } by {
                        if j < k {
                            assert(pair_slot_entries(old(self).slots).contains_key(
                                slot_of(old(self).left_dirs@[j], old(self).right_dirs@[j]) as u128,
                            ));
                        }
                    }
                    assert forall|key: u128| #[trigger] pair_slot_entries(self.slots).contains_key(key) implies {
                        &&& pair_slot_entries(self.slots)[key] < after.len()
                        &&& key == slot_of(
                            self.left_dirs@[pair_slot_entries(self.slots)[key] as int],
                            self.right_dirs@[pair_slot_entries(self.slots)[key] as int],
                        )
                    } by {
                        if key != slot {
                            assert(pair_slot_entries(old(self).slots).contains_key(key));
                        }
                    }
                    assert forall|j: int, x: int|
                        0 <= j < after.len() && 0 <= x < after[j].file_pairs@.len() implies {
                        &&& cross_pair(dups@, #[trigger] after[j].file_pairs@[x])
                        &&& lies_in(
                            dups@,
                            after[j].file_pairs@[x],
                            after[j].key.left_dir@,
                            after[j].key.right_dir@,
                        )
                        &&& seen_before(after[j].file_pairs@[x], s as int, a as int, b + 1)
                    } by {
                        if j < k {
                            assert(seen_before(before[j].file_pairs@[x], s as int, a as int, b as int));
                        }
                    }
                    assert forall|q: FilePair|
                        #[trigger] cross_pair(dups@, q) && seen_before(
                            q,
                            s as int,
                            a as int,
                            b + 1,
                        ) implies exists|j: int|
                        0 <= j < after.len() && lies_in(
                            dups@,
                            q,
                            (#[trigger] after[j]).key.left_dir@,
                            after[j].key.right_dir@,
                        ) && after[j].file_pairs@.contains(q) by {
                        if seen_before(q, s as int, a as int, b as int) {
                            let j = choose|j: int|
                                0 <= j < before.len() && lies_in(
                                    dups@,
                                    q,
                                    (#[trigger] before[j]).key.left_dir@,
                                    before[j].key.right_dir@,
                                ) && before[j].file_pairs@.contains(q);
                            assert(after[j] == before[j]);
                        } else {
                            assert(q == fp);
                            assert(after[k as int].file_pairs@[0] == fp);
                        }
                    }
                    assert forall|j: int, x: int, y: int|
                        0 <= j < after.len() && 0 <= x < y < after[j].file_pairs@.len() implies met_before(
                        #[trigger] after[j].file_pairs@[x],
                        #[trigger] after[j].file_pairs@[y],
                    ) by {
                        if j < k {
                            assert(after[j] == before[j]);
                        }
                    }
                    assert(self.keyed(dirs));
                    assert(self.looked_up());
                    assert(self.sound(dups@, s as int, a as int, b + 1));
                    assert(self.complete(dups@, s as int, a as int, b + 1));
                    assert(self.holds(dups@, dirs, s as int, a as int, b + 1));
                    assert forall|i: int, j: int| 0 <= i < j < after.len() implies met_before(
                        (#[trigger] after[i]).file_pairs@[0],
                        (#[trigger] after[j]).file_pairs@[0],
                    ) by {
                        assert(after[i] == before[i]);
                        if j < k {
                            assert(after[j] == before[j]);
                        } else {
                            assert(old(self).left_dirs@[i] < dirs.len());
                            assert(before[i].file_pairs@.len() >= 1);
                            assert(seen_before(before[i].file_pairs@[0], s as int, a as int, b as int));
                            assert(low_of(fp) == a && high_of(fp) == b);
                        }
                    }
                }
            },
        }
    }
}

impl PairTable {
    /// What the table holds does not depend on how far the comparisons are
    /// said to have come, as long as the same pairs count as seen.
    proof fn lemma_shift(&self, dups: Seq<DupSet>, dirs: Seq<Seq<char>>, s: int, a: int, b: int, s2: int, a2: int, b2: int)
        requires
            self.holds(dups, dirs, s, a, b),
            forall|fp: FilePair| #[trigger]
                cross_pair(dups, fp) ==> (seen_before(fp, s, a, b) <==> seen_before(fp, s2, a2, b2)),
        ensures
            self.holds(dups, dirs, s2, a2, b2),
    {
        assert forall|k: int, x: int|
            0 <= k < self.pairs@.len() && 0 <= x < self.pairs@[k].file_pairs@.len() implies seen_before(
            #[trigger] self.pairs@[k].file_pairs@[x],
            s2,
            a2,
            b2,
        ) by {
            assert(cross_pair(dups, self.pairs@[k].file_pairs@[x]));
            assert(seen_before(self.pairs@[k].file_pairs@[x], s, a, b));
        }
    }
}

/// The two files of a pair are two: their directories differ.
proof fn lemma_cross_pair_distinct(dups: Seq<DupSet>, fp: FilePair)
    requires
        cross_pair(dups, fp),
    ensures
        fp.left_file_idx != fp.right_file_idx,
{
    let p = parent_at(dups, fp.dup_set_idx as int, fp.left_file_idx as int);
    lemma_path_total(p, p);
}

/// The pairs of directories of `dups`, in the order in which they are first
/// met when the sets, and in each set the files, are gone through in rising
/// order.
pub(crate) fn all_dir_pairs(
    dups: &[DupSet],
    dir_of: &Vec<Vec<usize>>,
    index: &TextIndex,
    dir_chars: &Vec<Vec<char>>,
) -> (r: Vec<DirPair>)
    requires
        distinct(index.texts()),
        spelled(dir_chars@, index.texts()),
        crate::parents::numbered(dups@, index.texts(), dir_of@, dups@.len() as int),
    ensures
        are_dir_pairs(r@, dups@),
        as_met(r@),
{
    let ghost dirs = index.texts();
    let mut table = PairTable::new();
    let mut s: usize = 0;
    while s < dups.len()
        invariant
            s <= dups@.len(),
            dirs == index.texts(),
            distinct(index.texts()),
            spelled(dir_chars@, index.texts()),
            crate::parents::numbered(dups@, index.texts(), dir_of@, dups@.len() as int),
            table.holds(dups@, dirs, s as int, 0, 0),
            as_met(table.pairs@),
        decreases dups@.len() - s,
    {
        let n = dups[s].files.len();
        let row = &dir_of[s];
        let mut a: usize = 0;
        while a < n
            invariant
                s < dups@.len(),
                n == dups@[s as int].files@.len(),
                a <= n,
                row == &dir_of@[s as int],
                dirs == index.texts(),
                distinct(index.texts()),
                spelled(dir_chars@, index.texts()),
                crate::parents::numbered(dups@, index.texts(), dir_of@, dups@.len() as int),
                table.holds(dups@, dirs, s as int, a as int, 0),
                as_met(table.pairs@),
            decreases n - a,
        {
            let mut b: usize = a + 1;
            proof {
                assert forall|fp: FilePair| #[trigger] cross_pair(dups@, fp) implies (seen_before(
                    fp,
                    s as int,
                    a as int,
                    0,
                ) <==> seen_before(fp, s as int, a as int, a + 1)) by {
                    lemma_cross_pair_distinct(dups@, fp);
                }
                table.lemma_shift(dups@, dirs, s as int, a as int, 0, s as int, a as int, a + 1);
            }
            while b < n
                invariant
                    s < dups@.len(),
                    n == dups@[s as int].files@.len(),
                    a < b <= n,
                    row == &dir_of@[s as int],
                    dirs == index.texts(),
                    distinct(index.texts()),
                    spelled(dir_chars@, index.texts()),
                    crate::parents::numbered(dups@, index.texts(), dir_of@, dups@.len() as int),
                    table.holds(dups@, dirs, s as int, a as int, b as int),
                    as_met(table.pairs@),
                decreases n - b,
            {
                table.record(dups, s, a, b, row, index, dir_chars);
                b += 1;
            }
            proof {
                assert forall|fp: FilePair| #[trigger] cross_pair(dups@, fp) implies (seen_before(
                    fp,
                    s as int,
                    a as int,
                    b as int,
                ) <==> seen_before(fp, s as int, a + 1, 0)) by {}
                table.lemma_shift(dups@, dirs, s as int, a as int, b as int, s as int, a + 1, 0);
            }
            a += 1;
        }
        proof {
            assert forall|fp: FilePair| #[trigger] cross_pair(dups@, fp) implies (seen_before(
                fp,
                s as int,
                a as int,
                0,
            ) <==> seen_before(fp, s + 1, 0, 0)) by {}
            table.lemma_shift(dups@, dirs, s as int, a as int, 0, s + 1, 0, 0);
        }
        s += 1;
    }
    proof {
        let pairs = table.pairs@;
        assert forall|k: int| 0 <= k < pairs.len() implies (#[trigger] pairs[k]).describes(dups@) by {
            assert forall|fp: FilePair|
                #[trigger] cross_pair(dups@, fp) && lies_in(
                    dups@,
                    fp,
                    pairs[k].key.left_dir@,
                    pairs[k].key.right_dir@,
                ) implies pairs[k].file_pairs@.contains(fp) by {
                assert(seen_before(fp, s as int, 0, 0));
                let j = choose|j: int|
                    0 <= j < pairs.len() && lies_in(
                        dups@,
                        fp,
                        (#[trigger] pairs[j]).key.left_dir@,
                        pairs[j].key.right_dir@,
                    ) && pairs[j].file_pairs@.contains(fp);
                assert(table.left_dirs@[j] == table.left_dirs@[k]);
                assert(table.right_dirs@[j] == table.right_dirs@[k]);
                assert(pair_slot_entries(table.slots)[slot_of(table.left_dirs@[j], table.right_dirs@[j]) as u128] == j);
            }
            assert(table.left_dirs@[k] < dirs.len());
            assert(path_less(pairs[k].key.left_dir@, pairs[k].key.right_dir@));
            assert(pairs[k].file_pairs@.len() >= 1);
            assert forall|x: int| 0 <= x < pairs[k].file_pairs@.len() implies cross_pair(
                dups@,
                #[trigger] pairs[k].file_pairs@[x],
            ) && lies_in(dups@, pairs[k].file_pairs@[x], pairs[k].key.left_dir@, pairs[k].key.right_dir@) by {}
            assert forall|x: int, y: int|
                0 <= x < pairs[k].file_pairs@.len() && 0 <= y < pairs[k].file_pairs@.len() && x != y
                    implies pairs[k].file_pairs@[x] != pairs[k].file_pairs@[y] by {}
            assert forall|x: int, y: int| 0 <= x < y < pairs[k].file_pairs@.len() implies met_before(
                #[trigger] pairs[k].file_pairs@[x],
                #[trigger] pairs[k].file_pairs@[y],
            ) by {}
        }
        assert forall|k: int, l: int|
            0 <= k < pairs.len() && 0 <= l < pairs.len() && k != l implies !((#[trigger] pairs[k]).key.left_dir@
            == (#[trigger] pairs[l]).key.left_dir@ && pairs[k].key.right_dir@
            == pairs[l].key.right_dir@) by {
            if pairs[k].key.left_dir@ == pairs[l].key.left_dir@ && pairs[k].key.right_dir@
                == pairs[l].key.right_dir@ {
                assert(table.left_dirs@[k] == table.left_dirs@[l]);
                assert(table.right_dirs@[k] == table.right_dirs@[l]);
                assert(pair_slot_entries(table.slots)[slot_of(table.left_dirs@[k], table.right_dirs@[k]) as u128] == k);
            }
        }
        assert forall|fp: FilePair| #[trigger] cross_pair(dups@, fp) implies exists|k: int|
            0 <= k < pairs.len() && lies_in(
                dups@,
                fp,
                (#[trigger] pairs[k]).key.left_dir@,
                pairs[k].key.right_dir@,
            ) by {
            assert(seen_before(fp, s as int, 0, 0));
        }
    }
    table.pairs
}

} // verus!
