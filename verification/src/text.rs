//! Building the output text: appending string slices and decimal renderings
//! of numbers to a growing `String`, with an exact character-level
//! specification of both.

use vstd::prelude::*;

verus! {

/// The decimal digit character for a value in `0..10`.
pub open spec fn digit_char(d: int) -> char {
    if d == 0 {
        '0'
    } else if d == 1 {
        '1'
    } else if d == 2 {
        '2'
    } else if d == 3 {
        '3'
    } else if d == 4 {
        '4'
    } else if d == 5 {
        '5'
    } else if d == 6 {
        '6'
    } else if d == 7 {
        '7'
    } else if d == 8 {
        '8'
    } else {
        '9'
    }
}

/// The decimal digits of a non-negative number, most significant first.
pub open spec fn dec_digits(n: int) -> Seq<char>
    decreases n,
{
    if n < 10 {
        seq![digit_char(n)]
    } else {
        dec_digits(n / 10).push(digit_char(n % 10))
    }
}

/// The decimal rendering of a number: a minus sign followed by the digits of
/// its magnitude when negative, the digits alone otherwise.
pub open spec fn dec_of(x: int) -> Seq<char> {
    if x < 0 {
        seq!['-'] + dec_digits(-x)
    } else {
        dec_digits(x)
    }
}

/// Relies on `String::push_str`, which appends the given slice to the end of
/// the string and changes nothing else.
#[verifier::external_body]
pub(crate) fn append_str(out: &mut String, s: &str)
    ensures
        final(out)@ == old(out)@ + s@,
{
    out.push_str(s);
}

/// Relies on the standard library's `Display` for `i32`: `to_string` yields
/// the decimal digits of the value, with a leading minus sign when negative.
#[verifier::external_body]
fn i32_to_string(x: i32) -> (r: String)
    ensures
        r@ == dec_of(x as int),
{
    x.to_string()
}

/// Appends the decimal rendering of `x` to `out`.
pub(crate) fn append_i32(out: &mut String, x: i32)
    ensures
        final(out)@ == old(out)@ + dec_of(x as int),
{
    let s = i32_to_string(x);
    append_str(out, s.as_str());
}

} // verus!
