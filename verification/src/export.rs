//! The name of the file that a report of the staged removals is written to.

use vstd::prelude::*;
use vstd::string::StringExecFns;

verus! {

/// The character of a decimal digit.
pub open spec fn digit_char(d: nat) -> char {
    if d == 0 {
        '0'
    } else if d == 1 {
        '1'
    } else if d == 2 {
        '2'
    } else if d == 3 {
        '3'
    } else if d == 4 {
        '4'
    } else if d == 5 {
        '5'
    } else if d == 6 {
        '6'
    } else if d == 7 {
        '7'
    } else if d == 8 {
        '8'
    } else {
        '9'
    }
}

/// The decimal digits of a number, without leading zeros.
pub open spec fn digits_of(n: nat) -> Seq<char>
    decreases n,
{
    if n < 10 {
        seq![digit_char(n)]
    } else {
        digits_of(n / 10).push(digit_char(n % 10))
    }
}

/// The name of the file for a report: the date, the name of the report,
/// from the second attempt on the number of the attempt, and the extension
/// `json`, as in `2021-03-04-10h30-report-2.json`.
pub open spec fn report_file_name(date: Seq<char>, name: Seq<char>, attempt: nat) -> Seq<char> {
    date + seq!['-'] + name + (if attempt > 1 {
        seq!['-'] + digits_of(attempt)
    } else {
        Seq::empty()
    }) + seq!['.', 'j', 's', 'o', 'n']
}

fn digit_text(d: usize) -> (r: &'static str)
    requires
        d < 10,
    ensures
        r@ == seq![digit_char(d as nat)],
{
    proof {
        reveal_strlit("0");
        reveal_strlit("1");
        reveal_strlit("2");
        reveal_strlit("3");
        reveal_strlit("4");
        reveal_strlit("5");
        reveal_strlit("6");
        reveal_strlit("7");
        reveal_strlit("8");
        reveal_strlit("9");
    }
    let r = if d == 0 {
        "0"
    } else if d == 1 {
        "1"
    } else if d == 2 {
        "2"
    } else if d == 3 {
        "3"
    } else if d == 4 {
        "4"
    } else if d == 5 {
        "5"
    } else if d == 6 {
        "6"
    } else if d == 7 {
        "7"
    } else if d == 8 {
        "8"
    } else {
        "9"
    };
    assert(r@ =~= seq![digit_char(d as nat)]);
    r
}

/// Appends the decimal digits of `n` to `text`.
fn push_decimal(text: &mut String, n: usize)
    ensures
        final(text)@ == old(text)@ + digits_of(n as nat),
    decreases n,
{
    if n >= 10 {
        push_decimal(text, n / 10);
    }
    text.append(digit_text(n % 10));
    proof {
        if n >= 10 {
            assert(final(text)@ =~= old(text)@ + digits_of(n as nat));
        }
    }
}

/// The name of the file that a report is written to at the given attempt.
/// The caller starts with attempt 1 and takes the next one as long as a
/// file of that name exists.
pub fn available_path(date: &str, name: &str, attempt: usize) -> (r: String)
    ensures
        r@ == report_file_name(date@, name@, attempt as nat),
{
    proof {
        reveal_strlit("-");
        reveal_strlit(".json");
    }
    let mut r = String::new();
    r.append(date);
    r.append("-");
    r.append(name);
    if attempt > 1 {
        r.append("-");
        push_decimal(&mut r, attempt);
    }
    r.append(".json");
    assert(r@ =~= report_file_name(date@, name@, attempt as nat));
    r
}

} // verus!
