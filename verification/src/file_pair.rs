//! Two files of one set that lie in two different directories.

use vstd::prelude::*;
use crate::dup::DupFileRef;

verus! {

/// Two files of the set `dup_set_idx`: one in the left directory of a pair
/// of directories, one in the right.
#[derive(Debug, Clone, Copy)]
pub struct FilePair {
    pub dup_set_idx: usize,
    pub left_file_idx: usize,
    pub right_file_idx: usize,
}

impl FilePair {
    /// The file in the left directory.
    pub fn left_ref(self) -> (r: DupFileRef)
        ensures
            r.dup_set_idx == self.dup_set_idx,
            r.dup_file_idx == self.left_file_idx,
    {
        DupFileRef { dup_set_idx: self.dup_set_idx, dup_file_idx: self.left_file_idx }
    }

    /// The file in the right directory.
    pub fn right_ref(self) -> (r: DupFileRef)
        ensures
            r.dup_set_idx == self.dup_set_idx,
            r.dup_file_idx == self.right_file_idx,
    {
        DupFileRef { dup_set_idx: self.dup_set_idx, dup_file_idx: self.right_file_idx }
    }
}

} // verus!
