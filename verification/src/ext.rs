//! The file extensions that count as images.

use vstd::prelude::*;
use crate::text::chars_of;

verus! {

/// Whether `ext` is one of the image extensions: `jpg`, `jpeg` or `png`,
/// written all in lower case or all in upper case.
pub open spec fn is_image_extension(ext: Seq<char>) -> bool {
    ||| ext == seq!['j', 'p', 'g']
    ||| ext == seq!['J', 'P', 'G']
    ||| ext == seq!['j', 'p', 'e', 'g']
    ||| ext == seq!['J', 'P', 'E', 'G']
    ||| ext == seq!['p', 'n', 'g']
    ||| ext == seq!['P', 'N', 'G']
}

/// Tells whether a file extension (without its dot) is that of an image.
pub fn is_image(ext: &str) -> (r: bool)
    ensures
        r == is_image_extension(ext@),
{
    let c = chars_of(ext);
    if c.len() == 3 {
        let r = (c[0] == 'j' && c[1] == 'p' && c[2] == 'g')
            || (c[0] == 'J' && c[1] == 'P' && c[2] == 'G')
            || (c[0] == 'p' && c[1] == 'n' && c[2] == 'g')
            || (c[0] == 'P' && c[1] == 'N' && c[2] == 'G');
        proof {
            if r {
                assert(c@ =~= seq![c@[0], c@[1], c@[2]]);
            }
        }
        r
    } else if c.len() == 4 {
        let r = (c[0] == 'j' && c[1] == 'p' && c[2] == 'e' && c[3] == 'g')
            || (c[0] == 'J' && c[1] == 'P' && c[2] == 'E' && c[3] == 'G');
        proof {
            if r {
                assert(c@ =~= seq![c@[0], c@[1], c@[2], c@[3]]);
            }
        }
        r
    } else {
        false
    }
}

} // verus!
