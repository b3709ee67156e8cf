//! Integers as decimal text, and lines joined into one text.

use vstd::prelude::*;

verus! {

/// One decimal digit.
pub open spec fn digit(d: nat) -> Seq<char> {
    if d == 0 {
        "0"@
    } else if d == 1 {
        "1"@
    } else if d == 2 {
        "2"@
    } else if d == 3 {
        "3"@
    } else if d == 4 {
        "4"@
    } else if d == 5 {
        "5"@
    } else if d == 6 {
        "6"@
    } else if d == 7 {
        "7"@
    } else if d == 8 {
        "8"@
    } else {
        "9"@
    }
}

/// The decimal digits of a natural number, without leading zeros.
pub open spec fn digits(n: nat) -> Seq<char>
    decreases n,
{
    if n < 10 {
        digit(n)
    } else {
        digits(n / 10) + digit(n % 10)
    }
}

/// An integer in decimal, with a minus sign where it is negative.
pub open spec fn decimal(v: int) -> Seq<char> {
    if v < 0 {
        "-"@ + digits((-v) as nat)
    } else {
        digits(v as nat)
    }
}

/// The digits that stand before the last digit of `n`: none where `n` has a
/// single digit. `rest` is `n / 10`.
pub open spec fn leading_digits(rest: nat) -> Seq<char> {
    if rest == 0 {
        Seq::empty()
    } else {
        digits(rest)
    }
}

/// One decimal digit.
fn digit_text(d: u64) -> (text: &'static str)
    requires
        d < 10,
    ensures
        text@ == digit(d as nat),
{
    if d == 0 {
        "0"
    } else if d == 1 {
        "1"
    } else if d == 2 {
        "2"
    } else if d == 3 {
        "3"
    } else if d == 4 {
        "4"
    } else if d == 5 {
        "5"
    } else if d == 6 {
        "6"
    } else if d == 7 {
        "7"
    } else if d == 8 {
        "8"
    } else {
        "9"
    }
}

/// The decimal digits of `n`.
pub fn digits_text(n: u64) -> (text: String)
    ensures
        text@ == digits(n as nat),
{
    let mut text = String::from_str(digit_text(n % 10));
    let mut rest = n / 10;
    assert(leading_digits(rest as nat) + text@ =~= digits(n as nat));
    while rest > 0
        invariant
            digits(n as nat) == leading_digits(rest as nat) + text@,
        decreases rest,
    {
        let longer = String::from_str(digit_text(rest % 10)).concat(text.as_str());
        assert(leading_digits((rest / 10) as nat) + longer@ =~= leading_digits(rest as nat)
            + text@);
        text = longer;
        rest = rest / 10;
    }
    assert(leading_digits(0) + text@ =~= text@);
    text
}

/// A signed integer in decimal.
pub fn signed_text(v: i64) -> (text: String)
    ensures
        text@ == decimal(v as int),
{
    if v < 0 {
        let magnitude = -(v as i128);
        String::from_str("-").concat(digits_text(magnitude as u64).as_str())
    } else {
        digits_text(v as u64)
    }
}

/// An unsigned integer in decimal.
pub fn unsigned_text(v: u64) -> (text: String)
    ensures
        text@ == decimal(v as int),
{
    digits_text(v)
}

/// The lines, with `separator` between each two of them.
pub open spec fn joined(lines: Seq<Seq<char>>, separator: Seq<char>) -> Seq<char>
    decreases lines.len(),
{
    if lines.len() == 0 {
        Seq::empty()
    } else if lines.len() == 1 {
        lines[0]
    } else {
        joined(lines.drop_last(), separator) + separator + lines.last()
    }
}

} // verus!
