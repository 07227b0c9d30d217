//! A verified parser for plain-text disc/movie catalogs.
//!
//! The input is a text document whose lines are either disc separators
//! (a run of digits followed by a period) or movie entries (a four-digit
//! year, a title, and an optional trailing children's-content marker).
//! The library classifies each line, tracks the running disc number, and
//! collects the matching lines into an ordered list of records; it can
//! also render that list as a JSON document and read such a document back.

use vstd::prelude::*;

pub mod json;
pub mod parse;
pub mod record;

verus! {

/// A digit character, `'0'` through `'9'`.
pub open spec fn is_digit(c: char) -> bool {
    '0' <= c && c <= '9'
}

/// The numeric value of a digit character.
pub open spec fn digit_val(c: char) -> int {
    c as int - '0' as int
}

/// Reports whether `c` is a decimal digit.
pub fn digit_check(c: char) -> (r: bool)
    ensures
        r == is_digit(c),
{
    '0' <= c && c <= '9'
}

} // verus!
