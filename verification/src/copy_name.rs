//! The names that mark a file as a copy: `thing (3).jpg`, `thing (copy).png`,
//! `thing (another copy)`.

use vstd::prelude::*;
use crate::text::chars_of;

verus! {

/// Whether the regular expression `pattern` matches somewhere in `text`,
/// as `Regex::is_match` tells.
pub uninterp spec fn regex_is_match(pattern: Seq<char>, text: Seq<char>) -> bool;

/// The pattern of the text that is one decimal digit.
pub open spec fn digit_pattern() -> Seq<char> {
    seq!['^', '\\', 'd', '$']
}

/// The pattern of the text that is one word character.
pub open spec fn word_pattern() -> Seq<char> {
    seq!['^', '\\', 'w', '$']
}

/// `c` is in the ASCII range.
pub open spec fn is_ascii_char(c: char) -> bool {
    c <= '\x7f'
}

/// A decimal digit: in the ASCII range `0` to `9`, beyond it what the
/// regular expression `\d` matches.
pub open spec fn is_digit(c: char) -> bool {
    if is_ascii_char(c) {
        '0' <= c <= '9'
    } else {
        regex_is_match(digit_pattern(), seq![c])
    }
}

/// A character of an extension: in the ASCII range a letter, a digit or
/// `_`, beyond it what the regular expression `\w` matches.
pub open spec fn is_word_char(c: char) -> bool {
    if is_ascii_char(c) {
        ('a' <= c <= 'z') || ('A' <= c <= 'Z') || ('0' <= c <= '9') || c == '_'
    } else {
        regex_is_match(word_pattern(), seq![c])
    }
}

/// `Regex::new` and `Regex::is_match` of the regex crate, as lazy_regex
/// hands it on, for one of the two patterns `^\d$` and `^\w$` and a text
/// of one character: whether the character is of the class.
#[verifier::external_body]
fn class_matches(pattern: &str, c: char) -> (r: bool)
    requires
        pattern@ == digit_pattern() || pattern@ == word_pattern(),
    ensures
        r == regex_is_match(pattern@, seq![c]),
{
    match lazy_regex::Regex::new(pattern) {
        Ok(class) => class.is_match(c.encode_utf8(&mut [0; 4])),
        Err(_) => false,
    }
}

/// Between the positions `open` and `close` stand one or more digits and
/// nothing else.
pub open spec fn digits_between(name: Seq<char>, open: int, close: int) -> bool {
    &&& open + 1 < close
    &&& forall|i: int| open < i < close ==> is_digit(#[trigger] name[i])
}

/// The word `copy` stands at position `at`.
pub open spec fn copy_word_at(name: Seq<char>, at: int) -> bool {
    &&& name[at] == 'c'
    &&& name[at + 1] == 'o'
    &&& name[at + 2] == 'p'
    &&& name[at + 3] == 'y'
}

/// Between the positions `open` and `close` stands a text without a closing
/// bracket that holds the word `copy`.
pub open spec fn copy_word_between(name: Seq<char>, open: int, close: int) -> bool {
    &&& forall|i: int| open < i < close ==> #[trigger] name[i] != ')'
    &&& exists|at: int| open < at && at + 4 <= close && #[trigger] copy_word_at(name, at)
}

/// From position `start` on stands nothing, or a dot and one or more
/// extension characters.
pub open spec fn extension_from(name: Seq<char>, start: int) -> bool {
    ||| start == name.len()
    ||| {
        &&& start + 1 < name.len()
        &&& name[start] == '.'
        &&& forall|i: int| start < i < name.len() ==> is_word_char(#[trigger] name[i])
    }
}

/// A bracket opens at `open` with something before it on the same line.
pub open spec fn opens_at(name: Seq<char>, open: int) -> bool {
    &&& 1 <= open < name.len()
    &&& name[open - 1] != '\n'
    &&& name[open] == '('
}

/// `name` splits into a head, a bracketed copy marker that opens at `open`
/// and closes at `close`, and what follows the marker: nothing or an
/// extension. The marker is a number or a text that holds the word `copy`.
pub open spec fn copy_split(name: Seq<char>, open: int, close: int) -> bool {
    &&& opens_at(name, open)
    &&& open < close < name.len()
    &&& name[close] == ')'
    &&& digits_between(name, open, close) || copy_word_between(name, open, close)
    &&& extension_from(name, close + 1)
}

/// Whether a file name is that of a copy: `thing (3).jpg`, `thing (copy).png`,
/// `thing (another copy)`, `thing (copy 2).jpg`.
pub open spec fn is_copy_name(name: Seq<char>) -> bool {
    exists|open: int, close: int| copy_split(name, open, close)
}

/// Tells whether a character is a decimal digit.
pub fn digit(c: char) -> (r: bool)
    ensures
        r == is_digit(c),
{
    if c <= '\x7f' {
        '0' <= c && c <= '9'
    } else {
        proof {
            reveal_strlit("^\\d$");
            assert("^\\d$"@ =~= digit_pattern());
        }
        class_matches("^\\d$", c)
    }
}

/// Tells whether a character may stand in an extension.
pub fn word_char(c: char) -> (r: bool)
    ensures
        r == is_word_char(c),
{
    if c <= '\x7f' {
        ('a' <= c && c <= 'z') || ('A' <= c && c <= 'Z') || ('0' <= c && c <= '9') || c == '_'
    } else {
        proof {
            reveal_strlit("^\\w$");
            assert("^\\w$"@ =~= word_pattern());
        }
        class_matches("^\\w$", c)
    }
}

/// The position of the last `)` of `name`, if it has one.
fn last_closing(name: &Vec<char>) -> (r: Option<usize>)
    ensures
        match r {
            Some(q) => q < name.len() && name[q as int] == ')' && forall|i: int|
                q < i < name.len() ==> name[i] != ')',
            None => forall|i: int| 0 <= i < name.len() ==> name[i] != ')',
        },
{
    let mut q: usize = name.len();
    while q > 0
        invariant
            q <= name.len(),
            forall|i: int| q <= i < name.len() ==> name[i] != ')',
        decreases q,
    {
        q -= 1;
        if name[q] == ')' {
            return Some(q);
        }
    }
    None
}

/// Whether what follows position `close` is nothing or an extension.
fn extension_after(name: &Vec<char>, close: usize) -> (r: bool)
    requires
        close < name.len(),
    ensures
        r == extension_from(name@, close + 1),
{
    let n = name.len();
    if close + 1 == n {
        return true;
    }
    if n - close < 3 || name[close + 1] != '.' {
        return false;
    }
    let mut i: usize = close + 2;
    while i < n
        invariant
            close + 2 <= i <= n,
            n == name.len(),
            forall|k: int| close + 1 < k < i ==> is_word_char(#[trigger] name[k]),
        decreases n - i,
    {
        if !word_char(name[i]) {
            return false;
        }
        i += 1;
    }
    true
}

/// Whether a bracket opens somewhere before `close` with only digits, and at
/// least one, between the two.
fn digits_before(name: &Vec<char>, close: usize) -> (r: bool)
    requires
        close < name.len(),
    ensures
        r == exists|open: int| #[trigger] opens_at(name@, open) && digits_between(name@, open, close as int),
{
    let mut p: usize = close;
    while p > 0 && digit(name[p - 1])
        invariant
            p <= close,
            close < name.len(),
            forall|i: int| p <= i < close ==> is_digit(#[trigger] name[i]),
        decreases p,
    {
        p -= 1;
    }
    let found = p >= 2 && p < close && name[p - 1] == '(' && name[p - 2] != '\n';
    proof {
        if found {
            assert(opens_at(name@, p - 1) && digits_between(name@, p - 1, close as int));
        } else {
            assert forall|open: int| #[trigger] opens_at(name@, open) implies !digits_between(
                name@,
                open,
                close as int,
            ) by {
                if digits_between(name@, open, close as int) {
                    assert(!is_digit(name[open]));
                    if p > open + 1 {
                        assert(!is_digit(name[p - 1]));
                        assert(is_digit(name[p - 1]));
                    } else if p < open + 1 {
                        assert(is_digit(name[open]));
                    }
                }
            }
        }
    }
    found
}

/// Whether a bracket opens somewhere before `close` with, between the two, a
/// text without a closing bracket that holds the word `copy`.
fn copy_word_before(name: &Vec<char>, close: usize) -> (r: bool)
    requires
        close < name.len(),
    ensures
        r == exists|open: int| #[trigger] opens_at(name@, open) && copy_word_between(name@, open, close as int),
{
    // whether the word stands somewhere from `p` on, before `close`
    let mut word = false;
    let mut p: usize = close;
    while p > 0
        invariant
            p <= close < name.len(),
            forall|i: int| p <= i < close ==> #[trigger] name[i] != ')',
            word == exists|at: int| p <= at && at + 4 <= close && #[trigger] copy_word_at(name@, at),
            forall|open: int|
                p <= open ==> !(#[trigger] opens_at(name@, open) && copy_word_between(
                    name@,
                    open,
                    close as int,
                )),
        decreases p,
    {
        p -= 1;
        let c: char = name[p];
        if c == ')' {
            proof {
                assert forall|open: int| #[trigger] opens_at(name@, open) implies !copy_word_between(
                    name@,
                    open,
                    close as int,
                ) by {
                    if open < p && copy_word_between(name@, open, close as int) {
                        assert(name[p as int] != ')');
                    }
                }
            }
            return false;
        }
        if c == '(' && p >= 1 && name[p - 1] != '\n' && word {
            proof {
                let at = choose|at: int| p + 1 <= at && at + 4 <= close && #[trigger] copy_word_at(name@, at);
                assert(p < at && at + 4 <= close && copy_word_at(name@, at));
                assert(opens_at(name@, p as int) && copy_word_between(name@, p as int, close as int));
            }
            return true;
        }
        let ghost word_before = word;
        if close - p >= 4 && c == 'c' && name[p + 1] == 'o' && name[p + 2] == 'p' && name[p + 3] == 'y' {
            word = true;
        }
        proof {
            if word {
                if word_before {
                    let at = choose|at: int| p + 1 <= at && at + 4 <= close && #[trigger] copy_word_at(name@, at);
                    assert(p <= at && at + 4 <= close && copy_word_at(name@, at));
                } else {
                    assert(copy_word_at(name@, p as int));
                }
            } else {
                assert forall|at: int| p <= at && at + 4 <= close implies !#[trigger] copy_word_at(name@, at) by {
                    if at > p {
                        assert(!word_before);
                    }
                }
            }
            assert forall|open: int| p <= open implies !(#[trigger] opens_at(name@, open) && copy_word_between(
                name@,
                open,
                close as int,
            )) by {
                if open == p && opens_at(name@, open) && copy_word_between(name@, open, close as int) {
                    let at = choose|at: int| open < at && at + 4 <= close && #[trigger] copy_word_at(name@, at);
                    assert(p + 1 <= at && at + 4 <= close && copy_word_at(name@, at));
                    assert(word_before);
                }
            }
        }
    }
    false
}

/// Tells whether the characters of a file name make the name of a copy.
pub fn is_copy_name_chars(name: &Vec<char>) -> (r: bool)
    ensures
        r == is_copy_name(name@),
{
    match last_closing(name) {
        None => {
            proof {
                assert forall|open: int, close: int| !copy_split(name@, open, close) by {}
            }
            false
        },
        Some(q) => {
            let r = extension_after(name, q) && (digits_before(name, q) || copy_word_before(name, q));
            proof {
                if r {
                    let open = if exists|open: int| #[trigger]
                        opens_at(name@, open) && digits_between(name@, open, q as int) {
                        choose|open: int| #[trigger]
                            opens_at(name@, open) && digits_between(name@, open, q as int)
                    } else {
                        choose|open: int| #[trigger]
                            opens_at(name@, open) && copy_word_between(name@, open, q as int)
                    };
                    assert(copy_split(name@, open, q as int));
                } else {
                    assert forall|open: int, close: int| !copy_split(name@, open, close) by {
                        if copy_split(name@, open, close) {
                            // the marker and the extension hold no `)`, so
                            // `close` is the last one
                            if close < q {
                                assert(is_word_char(name[q as int]) || q == close + 1);
                            }
                            assert(close == q);
                        }
                    }
                }
            }
            r
        },
    }
}

/// Tells whether a file name is that of a copy, such as `thing (3).jpg` or
/// `thing (3rd copy).png`.
pub fn is_copy_name_text(name: &str) -> (r: bool)
    ensures
        r == is_copy_name(name@),
{
    let chars = chars_of(name);
    is_copy_name_chars(&chars)
}

} // verus!
