//! Decimal rendering of integers into strings.

use vstd::prelude::*;

verus! {

/// The decimal digit character for `d < 10`.
pub open spec fn digit(d: nat) -> char {
    if d == 0 {
        '0'
    } else if d == 1 {
        '1'
    } else if d == 2 {
        '2'
    } else if d == 3 {
        '3'
    } else if d == 4 {
        '4'
    } else if d == 5 {
        '5'
    } else if d == 6 {
        '6'
    } else if d == 7 {
        '7'
    } else if d == 8 {
        '8'
    } else {
        '9'
    }
}

/// The decimal representation of `x`, without leading zeros.
pub open spec fn dec(x: nat) -> Seq<char>
    decreases x,
{
    if x < 10 {
        seq![digit(x)]
    } else {
        dec(x / 10) + seq![digit(x % 10)]
    }
}

/// The one-character string of the digit `d`.
fn digit_str(d: u64) -> (r: &'static str)
    requires
        d < 10,
    ensures
        r@ == seq![digit(d as nat)],
{
    proof {
        reveal_strlit("0");
        reveal_strlit("1");
        reveal_strlit("2");
        reveal_strlit("3");
        reveal_strlit("4");
        reveal_strlit("5");
        reveal_strlit("6");
        reveal_strlit("7");
        reveal_strlit("8");
        reveal_strlit("9");
    }
    if d == 0 {
        "0"
    } else if d == 1 {
        "1"
    } else if d == 2 {
        "2"
    } else if d == 3 {
        "3"
    } else if d == 4 {
        "4"
    } else if d == 5 {
        "5"
    } else if d == 6 {
        "6"
    } else if d == 7 {
        "7"
    } else if d == 8 {
        "8"
    } else {
        "9"
    }
}

/// Appends the decimal representation of `x`.
pub fn push_decimal(s: &mut String, x: u64)
    ensures
        final(s)@ == old(s)@ + dec(x as nat),
    decreases x,
{
    if x >= 10 {
        push_decimal(s, x / 10);
    }
    s.append(digit_str(x % 10));
}

/// What `str`'s `Debug` formatting writes for the characters `s`: the text
/// in double quotes, with the characters it escapes written as escapes.
pub uninterp spec fn str_debug(s: Seq<char>) -> Seq<char>;

/// The `Debug` form of a string (`<str as core::fmt::Debug>::fmt`, through
/// `format!("{:?}")`). The contract names the result and claims only that
/// it depends on the characters of `s` alone.
#[verifier::external_body]
pub(crate) fn debug_quoted(s: &str) -> (r: String)
    ensures
        r@ == str_debug(s@),
{
    format!("{:?}", s)
}

} // verus!
