//! What the program is asked to do.

use vstd::prelude::*;

verus! {

/// The choices made on the command line.
#[derive(Debug)]
pub struct Args {
    /// Whether only the version is to be printed.
    pub version: bool,
    /// Whether only image files are looked at.
    pub only_images: bool,
    /// Where to look for duplicates; the current directory where none is given.
    pub path: Option<String>,
}

} // verus!
