//! What to do with each entry met while walking the directory tree.

use vstd::prelude::*;
use crate::ext::{is_image, is_image_extension};
use crate::text::chars_of;

verus! {

/// What an entry of a directory is.
#[derive(Debug, Clone, Copy, PartialEq, Eq, Structural)]
pub enum EntryKind {
    Directory,
    File,
    /// Neither a directory nor a regular file: a link, a device.
    Other,
}

/// What the walk does with an entry.
#[derive(Debug, Clone, Copy, PartialEq, Eq, Structural)]
pub enum ScanStep {
    /// Leave the entry alone.
    Skip,
    /// Walk the directory later.
    Descend,
    /// Compute the digest of the file.
    Hash,
}

/// A name that starts with a dot.
pub open spec fn is_hidden_name(name: Seq<char>) -> bool {
    name.len() > 0 && name[0] == '.'
}

/// What the walk does with an entry named `name`: hidden entries are
/// skipped, directories are walked, and regular files are hashed, when
/// only images are wanted those alone that have the extension of an image.
pub open spec fn step_for(
    name: Seq<char>,
    kind: EntryKind,
    extension: Option<Seq<char>>,
    only_images: bool,
) -> ScanStep {
    if is_hidden_name(name) {
        ScanStep::Skip
    } else {
        match kind {
            EntryKind::Directory => ScanStep::Descend,
            EntryKind::Other => ScanStep::Skip,
            EntryKind::File => if !only_images {
                ScanStep::Hash
            } else {
                match extension {
                    Some(ext) => if is_image_extension(ext) {
                        ScanStep::Hash
                    } else {
                        ScanStep::Skip
                    },
                    None => ScanStep::Skip,
                }
            },
        }
    }
}

/// The text of an optional string slice.
pub open spec fn text_of_str(s: Option<&str>) -> Option<Seq<char>> {
    match s {
        Some(t) => Some(t@),
        None => None,
    }
}

/// Tells whether a name is that of a hidden entry.
pub fn is_hidden(name: &str) -> (r: bool)
    ensures
        r == is_hidden_name(name@),
{
    let chars = chars_of(name);
    chars.len() > 0 && chars[0] == '.'
}

/// Decides what the walk does with an entry.
pub fn scan_step(name: &str, kind: EntryKind, extension: Option<&str>, only_images: bool) -> (r: ScanStep)
    ensures
        r == step_for(name@, kind, text_of_str(extension), only_images),
{
    if is_hidden(name) {
        return ScanStep::Skip;
    }
    match kind {
        EntryKind::Directory => ScanStep::Descend,
        EntryKind::Other => ScanStep::Skip,
        EntryKind::File => {
            if !only_images {
                ScanStep::Hash
            } else {
                match extension {
                    Some(ext) => if is_image(ext) {
                        ScanStep::Hash
                    } else {
                        ScanStep::Skip
                    },
                    None => ScanStep::Skip,
                }
            }
        },
    }
}

} // verus!
