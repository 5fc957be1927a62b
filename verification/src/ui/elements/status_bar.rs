//! The status bar's cursor readout: each world coordinate, already written to
//! two decimals, shown with its thousands separated by commas.
use vstd::prelude::*;

use thousands::Separable;

use crate::text::{is_digit_char, owned, push_str};

verus! {

/// Number of characters of `s` before its first ASCII digit (all of them
/// when it has none).
pub open spec fn before_first_digit(s: Seq<char>) -> nat
    decreases s.len(),
{
    if s.len() == 0 || is_digit_char(s[0]) {
        0
    } else {
        1 + before_first_digit(s.drop_first())
    }
}

/// Number of ASCII digits `s` starts with.
pub open spec fn leading_digits(s: Seq<char>) -> nat
    decreases s.len(),
{
    if s.len() > 0 && is_digit_char(s[0]) {
        1 + leading_digits(s.drop_first())
    } else {
        0
    }
}

/// The digits of `run` with a comma after each digit that is followed by a
/// positive multiple of three digits.
pub open spec fn grouped_by_threes(run: Seq<char>) -> Seq<char>
    decreases run.len(),
{
    if run.len() == 0 {
        run
    } else {
        let rest = run.drop_first();
        let comma = if rest.len() > 0 && rest.len() % 3 == 0 {
            seq![',']
        } else {
            Seq::empty()
        };
        seq![run[0]] + comma + grouped_by_threes(rest)
    }
}

/// What `thousands::Separable::separate_with_commas` makes of a string: its
/// first run of ASCII digits with a comma every three digits counted from
/// the right, and every other character copied.
pub open spec fn comma_separated(s: Seq<char>) -> Seq<char> {
    let start = before_first_digit(s) as int;
    let end = start + leading_digits(s.skip(start));
    s.take(start) + grouped_by_threes(s.subrange(start, end)) + s.skip(end)
}

/// Calls `separate_with_commas` of `thousands::Separable` on a string slice
/// (for `str` the crate splits the text around its first run of digits from
/// `ASCII_DECIMAL` and marks a separator after each digit that ends a group
/// of the `COMMA_SEPARATOR` policy's three).
#[verifier::external_body]
fn separate_with_commas(s: &str) -> (r: String)
    ensures
        r@ == comma_separated(s@),
{
    s.separate_with_commas()
}

/// The text of one coordinate field: the axis name, `": "`, and either the
/// comma-separated value or `--` when the cursor is off the scene.
pub fn coordinate_field_text(axis: &str, value: Option<&str>) -> (r: String)
    ensures
        r@ == axis@ + ": "@ + match value {
            Some(v) => comma_separated(v@),
            None => "--"@,
        },
{
    let mut text = owned(axis);
    push_str(&mut text, ": ");
    match value {
        Some(v) => {
            let separated = separate_with_commas(v);
            push_str(&mut text, separated.as_str());
        },
        None => {
            push_str(&mut text, "--");
        },
    }
    text
}

} // verus!
