//! Files with the same content, the sets they form, and references to them.

use vstd::prelude::*;
use crate::copy_name::{is_copy_name, is_copy_name_text};
use crate::paths::{file_name_of, parent_of, path_file_name, path_parent};
use crate::staged::StagedSet;

verus! {

/// A file whose content is also found elsewhere. Besides the path it holds
/// the two parts of it that the analysis reads: the directory that holds
/// the file, and the file's name (empty where the path ends in none).
#[derive(Debug)]
pub struct DupFile {
    pub path: String,
    pub parent: String,
    pub name: String,
}

/// The files that have one content, and the length of that content.
#[derive(Debug)]
pub struct DupSet {
    pub files: Vec<DupFile>,
    pub file_len: u64,
}

/// One file of one set, by the set's position among the sets and the file's
/// position in the set.
#[derive(Debug, Clone, Copy, Hash, PartialEq, Eq, Structural)]
pub struct DupFileRef {
    pub dup_set_idx: usize,
    pub dup_file_idx: usize,
}

/// The reference to file `i` of set `s`.
pub open spec fn file_ref(s: int, i: int) -> DupFileRef {
    DupFileRef { dup_set_idx: s as usize, dup_file_idx: i as usize }
}

/// The name that a path ends in, or the empty text where it ends in none.
pub open spec fn name_or_empty(name: Option<Seq<char>>) -> Seq<char> {
    match name {
        Some(n) => n,
        None => Seq::empty(),
    }
}

/// The name of a copy that a path ends in, if it ends in one.
pub open spec fn copy_name_of(name: Option<Seq<char>>) -> Option<Seq<char>> {
    match name {
        Some(n) => if is_copy_name(n) {
            Some(n)
        } else {
            None
        },
        None => None,
    }
}

impl Default for DupSet {
    /// A set without files.
    fn default() -> (r: DupSet)
        ensures
            r.files@.len() == 0,
            r.file_len == 0,
    {
        DupSet { files: Vec::new(), file_len: 0 }
    }
}

impl DupSet {
    /// The set is one of duplicates: two files or more, and not empty ones.
    pub open spec fn valid(&self) -> bool {
        self.files@.len() >= 2 && self.file_len > 0
    }
}

impl DupFile {
    /// The file at `path`, or `None` where the path has no parent directory
    /// (a root, or the empty path).
    pub fn new(path: String) -> (r: Option<DupFile>)
        ensures
            r is Some <==> path_parent(path@) is Some,
            r matches Some(f) ==> {
                &&& f.path@ == path@
                &&& f.parent@ == path_parent(path@)->0
                &&& f.name@ == name_or_empty(path_file_name(path@))
            },
    {
        match parent_of(path.as_str()) {
            None => None,
            Some(parent) => {
                let name = match file_name_of(path.as_str()) {
                    Some(n) => n,
                    None => String::new(),
                };
                Some(DupFile { path, parent, name })
            },
        }
    }
}

impl DupFileRef {
    /// The reference points at a file of `dups`.
    pub open spec fn valid(self, dups: Seq<DupSet>) -> bool {
        &&& self.dup_set_idx < dups.len()
        &&& self.dup_file_idx < dups[self.dup_set_idx as int].files@.len()
    }

    /// The file that the reference points at.
    pub open spec fn file(self, dups: Seq<DupSet>) -> DupFile {
        dups[self.dup_set_idx as int].files@[self.dup_file_idx as int]
    }

    /// The path of the file.
    pub fn path(self, dups: &[DupSet]) -> (r: &str)
        requires
            self.valid(dups@),
        ensures
            r@ == self.file(dups@).path@,
    {
        dups[self.dup_set_idx].files[self.dup_file_idx].path.as_str()
    }

    /// The name of the file, empty where its path ends in none.
    pub fn file_name(self, dups: &[DupSet]) -> (r: String)
        requires
            self.valid(dups@),
        ensures
            r@ == self.file(dups@).name@,
    {
        dups[self.dup_set_idx].files[self.dup_file_idx].name.clone()
    }

    /// The name of the file where it is that of a copy, like `thing (3).jpg`
    /// or `thing (3rd copy).png`.
    pub fn copy_name(self, dups: &[DupSet]) -> (r: Option<&str>)
        requires
            self.valid(dups@),
        ensures
            r is Some <==> is_copy_name(self.file(dups@).name@),
            r matches Some(n) ==> n@ == self.file(dups@).name@,
    {
        let name = dups[self.dup_set_idx].files[self.dup_file_idx].name.as_str();
        if is_copy_name_text(name) {
            Some(name)
        } else {
            None
        }
    }

    /// Tells whether the file has the name of a copy, like `thing (3).jpg`
    /// or `thing (3rd copy).png`.
    pub fn is_copy_named(self, dups: &[DupSet]) -> (r: bool)
        requires
            self.valid(dups@),
        ensures
            r == is_copy_name(self.file(dups@).name@),
    {
        self.copy_name(dups).is_some()
    }
}

/// The name that `path` ends in, where that is the name of a copy.
pub fn copy_name(path: &str) -> (r: Option<String>)
    ensures
        crate::paths::text_of(r) == copy_name_of(path_file_name(path@)),
{
    match file_name_of(path) {
        Some(n) => if is_copy_name_text(n.as_str()) {
            Some(n)
        } else {
            None
        },
        None => None,
    }
}

/// The length of a text in bytes, as UTF-8.
pub open spec fn byte_len(text: Seq<char>) -> usize {
    vstd::utf8::encode_utf8(text).len() as usize
}

/// File `i` of the set is its reference file: of the files that are not
/// staged for removal it has the shortest path, and it is the first of
/// those that have.
pub open spec fn is_reference_file(dup_set_idx: usize, dup_set: DupSet, staged: Seq<DupFileRef>, i: int) -> bool {
    &&& 0 <= i < dup_set.files@.len()
    &&& !staged.contains(file_ref(dup_set_idx as int, i))
    &&& forall|j: int|
        0 <= j < dup_set.files@.len() && !staged.contains(#[trigger] file_ref(dup_set_idx as int, j))
            ==> byte_len(dup_set.files@[i].path@) <= byte_len(dup_set.files@[j].path@)
    &&& forall|j: int|
        0 <= j < i && !staged.contains(#[trigger] file_ref(dup_set_idx as int, j)) ==> byte_len(
            dup_set.files@[i].path@,
        ) < byte_len(dup_set.files@[j].path@)
}

/// The path of the reference file of a set: of the files that are not
/// staged for removal, the first one with the shortest path. `None` where
/// every file of the set is staged.
pub fn reference_file<'a>(dup_set_idx: usize, dup_set: &'a DupSet, staged_removals: &StagedSet) -> (r: Option<
    &'a str,
>)
    requires
        staged_removals.wf(),
    ensures
        r is None <==> forall|i: int|
            0 <= i < dup_set.files@.len() ==> staged_removals@.contains(
                #[trigger] file_ref(dup_set_idx as int, i),
            ),
        r matches Some(path) ==> exists|i: int|
            #[trigger] is_reference_file(dup_set_idx, *dup_set, staged_removals@, i) && path@
                == dup_set.files@[i].path@,
{
    let mut best: Option<usize> = None;
    let mut i: usize = 0;
    while i < dup_set.files.len()
        invariant
            i <= dup_set.files@.len(),
            staged_removals.wf(),
            best is None ==> forall|j: int|
                0 <= j < i ==> staged_removals@.contains(#[trigger] file_ref(dup_set_idx as int, j)),
            best matches Some(b) ==> {
                &&& b < i
                &&& !staged_removals@.contains(file_ref(dup_set_idx as int, b as int))
                &&& forall|j: int|
                    0 <= j < i && !staged_removals@.contains(#[trigger] file_ref(dup_set_idx as int, j))
                        ==> byte_len(dup_set.files@[b as int].path@) <= byte_len(
                        dup_set.files@[j].path@,
                    )
                &&& forall|j: int|
                    0 <= j < b && !staged_removals@.contains(#[trigger] file_ref(dup_set_idx as int, j))
                        ==> byte_len(dup_set.files@[b as int].path@) < byte_len(dup_set.files@[j].path@)
            },
        decreases dup_set.files@.len() - i,
    {
        if !staged_removals.contains(DupFileRef { dup_set_idx, dup_file_idx: i }) {
            match best {
                Some(b) => {
                    if dup_set.files[b].path.as_str().len() > dup_set.files[i].path.as_str().len() {
                        best = Some(i);
                    }
                },
                None => {
                    best = Some(i);
                },
            }
        }
        i += 1;
    }
    match best {
        Some(b) => {
            assert(is_reference_file(dup_set_idx, *dup_set, staged_removals@, b as int));
            Some(dup_set.files[b].path.as_str())
        },
        None => None,
    }
}

} // verus!
