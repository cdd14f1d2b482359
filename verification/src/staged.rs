//! The files marked for removal: each at most once, in the order in which
//! they were marked.

use vstd::prelude::*;
use std::collections::HashSet;
use crate::dup::DupFileRef;

verus! {

broadcast use vstd::std_specs::hash::group_hash_axioms;

/// The number under which a reference is looked up: no two references have
/// the same.
pub open spec fn key_of(r: DupFileRef) -> int {
    r.dup_set_idx * 0x1_0000_0000_0000_0000 + r.dup_file_idx
}

/// Different references have different keys.
pub proof fn lemma_key_injective(a: DupFileRef, b: DupFileRef)
    requires
        key_of(a) == key_of(b),
    ensures
        a == b,
{
}

/// A set of references that remembers the order in which they came.
#[derive(Debug)]
pub struct StagedSet {
    list: Vec<DupFileRef>,
    keys: HashSet<u128>,
}

impl View for StagedSet {
    type V = Seq<DupFileRef>;

    /// The references, in the order in which they were marked.
    closed spec fn view(&self) -> Seq<DupFileRef> {
        self.list@
    }
}

impl Clone for StagedSet {
    /// A set with the same references in the same order.
    fn clone(&self) -> (r: StagedSet)
        ensures
            r@ == self@,
            self.wf() ==> r.wf(),
    {
        let mut list: Vec<DupFileRef> = Vec::new();
        let mut keys: HashSet<u128> = HashSet::new();
        let mut i: usize = 0;
        while i < self.list.len()
            invariant
                i <= self.list@.len(),
                list@ == self.list@.take(i as int),
                forall|j: int| 0 <= j < i ==> keys@.contains(#[trigger] key_of(self.list@[j]) as u128),
                forall|k: u128| #[trigger]
                    keys@.contains(k) ==> exists|j: int| 0 <= j < i && #[trigger] key_of(self.list@[j]) == k,
            decreases self.list@.len() - i,
        {
            let r = self.list[i];
            let ghost before = keys@;
            keys.insert(Self::key(r));
            list.push(r);
            proof {
                assert forall|k: u128| #[trigger] keys@.contains(k) implies exists|j: int|
                    0 <= j < i + 1 && #[trigger] key_of(self.list@[j]) == k by {
                    if k == key_of(r) {
                        assert(key_of(self.list@[i as int]) == k);
                    } else {
                        assert(before.contains(k));
                        let j = choose|j: int| 0 <= j < i && #[trigger] key_of(self.list@[j]) == k;
                        assert(key_of(self.list@[j]) == k);
                    }
                }
            }
            i += 1;
        }
        proof {
            assert(self.list@.take(i as int) == self.list@);
        }
        StagedSet { list, keys }
    }
}

impl StagedSet {
    /// No reference occurs twice, and the lookup keys are those of the
    /// references.
    pub closed spec fn wf(&self) -> bool {
        &&& self.list@.no_duplicates()
        &&& forall|i: int| 0 <= i < self.list@.len() ==> self.keys@.contains(#[trigger] key_of(self.list@[i]) as u128)
        &&& forall|k: u128| #[trigger]
            self.keys@.contains(k) ==> exists|i: int|
                0 <= i < self.list@.len() && #[trigger] key_of(self.list@[i]) == k
    }

    /// In a well-formed set no reference occurs twice.
    pub proof fn lemma_no_duplicates(&self)
        requires
            self.wf(),
        ensures
            self@.no_duplicates(),
    {
    }

    fn key(r: DupFileRef) -> (k: u128)
        ensures
            k == key_of(r),
    {
        (r.dup_set_idx as u128) * 0x1_0000_0000_0000_0000u128 + (r.dup_file_idx as u128)
    }

    /// The empty set.
    pub fn new() -> (r: StagedSet)
        ensures
            r.wf(),
            r@ == Seq::<DupFileRef>::empty(),
    {
        StagedSet { list: Vec::new(), keys: HashSet::new() }
    }

    /// How many references are marked.
    pub fn len(&self) -> (n: usize)
        ensures
            n == self@.len(),
    {
        self.list.len()
    }

    /// Whether nothing is marked.
    pub fn is_empty(&self) -> (r: bool)
        ensures
            r == (self@.len() == 0),
    {
        self.list.len() == 0
    }

    /// The reference that was marked as number `i`.
    pub fn get(&self, i: usize) -> (r: DupFileRef)
        requires
            i < self@.len(),
        ensures
            r == self@[i as int],
    {
        self.list[i]
    }

    /// Whether `r` is marked.
    pub fn contains(&self, r: DupFileRef) -> (res: bool)
        requires
            self.wf(),
        ensures
            res == self@.contains(r),
    {
        let k = Self::key(r);
        let res = self.keys.contains(&k);
        proof {
            if res {
                let i = choose|i: int| 0 <= i < self.list@.len() && #[trigger] key_of(self.list@[i]) == k;
                lemma_key_injective(self.list@[i], r);
            } else if self@.contains(r) {
                let i = choose|i: int| 0 <= i < self.list@.len() && self.list@[i] == r;
                assert(self.keys@.contains(key_of(self.list@[i]) as u128));
            }
        }
        res
    }

    /// Marks `r`, unless it is marked already. Tells whether it was new.
    pub fn insert(&mut self, r: DupFileRef) -> (added: bool)
        requires
            old(self).wf(),
        ensures
            final(self).wf(),
            added == !old(self)@.contains(r),
            final(self)@ == (if added {
                old(self)@.push(r)
            } else {
                old(self)@
            }),
    {
        if self.contains(r) {
            false
        } else {
            let k = Self::key(r);
            self.keys.insert(k);
            self.list.push(r);
            proof {
                assert forall|i: int| 0 <= i < self.list@.len() implies self.keys@.contains(
                    #[trigger] key_of(self.list@[i]) as u128,
                ) by {
                    if i < old(self).list@.len() {
                        assert(old(self).keys@.contains(key_of(old(self).list@[i]) as u128));
                    }
                }
                assert forall|k2: u128| #[trigger] self.keys@.contains(k2) implies exists|i: int|
                    0 <= i < self.list@.len() && #[trigger] key_of(self.list@[i]) == k2 by {
                    if k2 == k {
                        assert(key_of(self.list@[self.list@.len() - 1]) == k2);
                    } else {
                        assert(old(self).keys@.contains(k2));
                        let i = choose|i: int|
                            0 <= i < old(self).list@.len() && #[trigger] key_of(old(self).list@[i])
                                == k2;
                        assert(key_of(self.list@[i]) == k2);
                    }
                }
            }
            true
        }
    }
}

} // verus!
