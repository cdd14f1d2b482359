//! The two parts of a path that the analysis reads: the directory that holds
//! the file, and the file's name.

use vstd::prelude::*;
use crate::text::chars_of;

verus! {

/// The text of an optional string.
pub open spec fn text_of(s: Option<String>) -> Option<Seq<char>> {
    match s {
        Some(t) => Some(t@),
        None => None,
    }
}

/// What `std::path::Path::parent` gives for the path written as `path`:
/// the path without its final component, if there is one.
pub uninterp spec fn path_parent(path: Seq<char>) -> Option<Seq<char>>;

/// What `std::path::Path::file_name` gives for the path written as `path`:
/// its final component, if that is a normal one.
pub uninterp spec fn path_file_name(path: Seq<char>) -> Option<Seq<char>>;

/// `std::path::Path::parent`, from text to text. The result is the one that
/// std computes from the path's text alone; nothing is read from disk.
#[verifier::external_body]
pub(crate) fn parent_of(path: &str) -> (r: Option<String>)
    ensures
        text_of(r) == path_parent(path@),
{
    match std::path::Path::new(path).parent() {
        Some(p) => Some(p.to_string_lossy().into_owned()),
        None => None,
    }
}

/// `std::path::Path::file_name`, from text to text. The result is the one
/// that std computes from the path's text alone; nothing is read from disk.
#[verifier::external_body]
pub(crate) fn file_name_of(path: &str) -> (r: Option<String>)
    ensures
        text_of(r) == path_file_name(path@),
{
    match std::path::Path::new(path).file_name() {
        Some(n) => Some(n.to_string_lossy().into_owned()),
        None => None,
    }
}

/// The character `x` comes before the character `y` in the order of
/// paths: the separator before every other character, the others by code
/// point.
pub open spec fn char_comes_first(x: char, y: char) -> bool {
    if x == '/' {
        y != '/'
    } else if y == '/' {
        false
    } else {
        x < y
    }
}

/// The order of directories: strict lexicographic order of the paths'
/// characters, in which the separator comes before every other character,
/// so that what lies in a directory comes right after it. A proper prefix
/// comes before any of its extensions.
pub open spec fn path_less(a: Seq<char>, b: Seq<char>) -> bool
    decreases a.len(),
{
    if b.len() == 0 {
        false
    } else if a.len() == 0 {
        true
    } else if a[0] != b[0] {
        char_comes_first(a[0], b[0])
    } else {
        path_less(a.drop_first(), b.drop_first())
    }
}

/// Of two different paths exactly one comes before the other, and no path
/// comes before itself.
pub proof fn lemma_path_total(a: Seq<char>, b: Seq<char>)
    ensures
        a == b ==> !path_less(a, b),
        a != b ==> (path_less(a, b) <==> !path_less(b, a)),
    decreases a.len(),
{
    if a.len() == 0 || b.len() == 0 {
        if a.len() == 0 && b.len() == 0 {
            assert(a =~= b);
        }
    } else if a[0] == b[0] {
        lemma_path_total(a.drop_first(), b.drop_first());
        if a.drop_first() == b.drop_first() {
            assert(a =~= seq![a[0]] + a.drop_first());
            assert(b =~= seq![b[0]] + b.drop_first());
        }
    }
}

/// Whether the path with the characters `a` comes strictly before the one
/// with the characters `b`.
pub fn path_precedes(a: &Vec<char>, b: &Vec<char>) -> (r: bool)
    ensures
        r == path_less(a@, b@),
{
    let mut i: usize = 0;
    proof {
        assert(a@.skip(0) =~= a@);
        assert(b@.skip(0) =~= b@);
    }
    while i < a.len() && i < b.len()
        invariant
            i <= a.len(),
            i <= b.len(),
            path_less(a@, b@) == path_less(a@.skip(i as int), b@.skip(i as int)),
        decreases a.len() - i,
    {
        let x: char = a[i];
        let y: char = b[i];
        proof {
            assert(a@.skip(i as int)[0] == x);
            assert(b@.skip(i as int)[0] == y);
            assert(a@.skip(i as int).drop_first() =~= a@.skip(i + 1));
            assert(b@.skip(i as int).drop_first() =~= b@.skip(i + 1));
        }
        if x != y {
            return if x == '/' {
                true
            } else if y == '/' {
                false
            } else {
                x < y
            };
        }
        i += 1;
    }
    i < b.len()
}

/// Whether the path `a` comes strictly before the path `b`.
pub fn path_text_precedes(a: &str, b: &str) -> (r: bool)
    ensures
        r == path_less(a@, b@),
{
    let x = chars_of(a);
    let y = chars_of(b);
    path_precedes(&x, &y)
}

} // verus!
