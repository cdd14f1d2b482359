//! Interning of texts: each distinct text gets a small number, in the order
//! in which the texts are first seen.

use vstd::prelude::*;
use fnv::FnvHashMap;

verus! {

/// `fnv::FnvHasher`, the hasher of the lookup map. Nothing is claimed of it.
#[verifier::external_type_specification]
#[verifier::external_body]
pub struct ExFnvHasher(fnv::FnvHasher);

/// `core::hash::BuildHasherDefault`, which makes the hashers of the lookup
/// map. Nothing is claimed of it.
#[verifier::external_type_specification]
#[verifier::external_body]
#[verifier::reject_recursive_types(H)]
pub struct ExBuildHasherDefault<H>(core::hash::BuildHasherDefault<H>);

/// What a `fnv::FnvHashMap` from texts to numbers holds: the number kept
/// under each text.
pub uninterp spec fn slot_entries(slots: FnvHashMap<String, usize>) -> Map<Seq<char>, usize>;

/// `FnvHashMap::default`, that is `HashMap::default` with the FNV hasher: a
/// map that holds nothing.
#[verifier::external_body]
fn slots_new() -> (r: FnvHashMap<String, usize>)
    ensures
        slot_entries(r).dom() == Set::<Seq<char>>::empty(),
{
    FnvHashMap::default()
}

/// `HashMap::get` on a map hashed with FNV: the number kept under `text`,
/// if there is one.
#[verifier::external_body]
fn slots_get(slots: &FnvHashMap<String, usize>, text: &str) -> (r: Option<usize>)
    ensures
        r == (if slot_entries(*slots).contains_key(text@) {
            Some(slot_entries(*slots)[text@])
        } else {
            None
        }),
{
    match slots.get(text) {
        Some(n) => Some(*n),
        None => None,
    }
}

/// `HashMap::insert` on a map hashed with FNV: afterwards `n` is kept under
/// `text`, and every other text keeps what it had.
#[verifier::external_body]
fn slots_insert(slots: &mut FnvHashMap<String, usize>, text: String, n: usize)
    ensures
        slot_entries(*final(slots)) == slot_entries(*old(slots)).insert(text@, n),
{
    slots.insert(text, n);
}

/// A table of distinct texts, numbered from zero in order of first appearance.
pub struct TextIndex {
    slots: FnvHashMap<String, usize>,
    texts: Vec<String>,
}

impl TextIndex {
    /// The texts of the table, each at the position that is its number.
    pub closed spec fn texts(&self) -> Seq<Seq<char>> {
        Seq::new(self.texts@.len(), |i: int| self.texts@[i]@)
    }

    /// The table is consistent: no text occurs twice, and the lookup map
    /// holds exactly the texts of the table, each under its number.
    pub closed spec fn wf(&self) -> bool {
        &&& forall|t: Seq<char>| #[trigger]
            slot_entries(self.slots).contains_key(t) ==> {
                &&& 0 <= slot_entries(self.slots)[t] < self.texts@.len()
                &&& self.texts@[slot_entries(self.slots)[t] as int]@ == t
            }
        &&& forall|i: int|
            0 <= i < self.texts@.len() ==> {
                &&& slot_entries(self.slots).contains_key(#[trigger] self.texts@[i]@)
                &&& slot_entries(self.slots)[self.texts@[i]@] == i
            }
    }

    /// In a consistent table no text occurs at two positions.
    pub proof fn lemma_distinct(&self)
        requires
            self.wf(),
        ensures
            forall|i: int, j: int|
                0 <= i < self.texts().len() && 0 <= j < self.texts().len()
                    && self.texts()[i] == self.texts()[j] ==> i == j,
    {
        assert forall|i: int, j: int|
            0 <= i < self.texts().len() && 0 <= j < self.texts().len()
                && self.texts()[i] == self.texts()[j] implies i == j by {
            assert(slot_entries(self.slots)[self.texts@[i]@] == i);
            assert(slot_entries(self.slots)[self.texts@[j]@] == j);
        }
    }

    /// An empty table.
    pub fn new() -> (r: TextIndex)
        ensures
            r.wf(),
            r.texts() == Seq::<Seq<char>>::empty(),
    {
        let r = TextIndex { slots: slots_new(), texts: Vec::new() };
        assert(r.texts() =~= Seq::<Seq<char>>::empty());
        r
    }

    /// The number of texts in the table.
    pub fn len(&self) -> (n: usize)
        ensures
            n == self.texts().len(),
    {
        self.texts.len()
    }

    /// The text with number `id`.
    pub fn text(&self, id: usize) -> (t: &String)
        requires
            id < self.texts().len(),
        ensures
            t@ == self.texts()[id as int],
    {
        &self.texts[id]
    }

    /// The number of `text`, if the table holds it.
    pub fn find(&self, text: &str) -> (r: Option<usize>)
        requires
            self.wf(),
        ensures
            match r {
                Some(id) => id < self.texts().len() && self.texts()[id as int] == text@,
                None => !self.texts().contains(text@),
            },
    {
        let r = slots_get(&self.slots, text);
        proof {
            if r.is_none() {
                if self.texts().contains(text@) {
                    let i = choose|i: int| 0 <= i < self.texts().len() && self.texts()[i] == text@;
                    assert(slot_entries(self.slots).contains_key(self.texts@[i]@));
                }
            }
        }
        r
    }

    /// The number of `text`, which is added at the end of the table if the
    /// table does not hold it yet.
    pub fn intern(&mut self, text: &str) -> (id: usize)
        requires
            old(self).wf(),
        ensures
            final(self).wf(),
            id < final(self).texts().len(),
            final(self).texts()[id as int] == text@,
            old(self).texts().contains(text@) ==> final(self).texts() == old(self).texts(),
            !old(self).texts().contains(text@) ==> final(self).texts() == old(self).texts().push(
                text@,
            ) && id == old(self).texts().len(),
    {
        match self.find(text) {
            Some(id) => id,
            None => {
                let id = self.texts.len();
                self.texts.push(text.to_owned());
                slots_insert(&mut self.slots, text.to_owned(), id);
                proof {
                    assert(final(self).texts() =~= old(self).texts().push(text@));
                    assert forall|i: int| 0 <= i < self.texts@.len() implies {
                        &&& slot_entries(self.slots).contains_key(#[trigger] self.texts@[i]@)
                        &&& slot_entries(self.slots)[self.texts@[i]@] == i
                    } by {
                        if i < id {
                            assert(old(self).texts@[i]@ == old(self).texts()[i]);
                            assert(old(self).texts().contains(old(self).texts()[i]));
                        }
                    }
                }
                id
            },
        }
    }
}

} // verus!
