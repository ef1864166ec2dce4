//! Character classes of the lexical grammar.
//!
//! The Unicode classes are decided by the standard library. Their tables are
//! long, so each class is known here by name only: the grammar is stated over
//! these names, and nothing is assumed about which characters they hold.

use vstd::prelude::*;

verus! {

/// Whether Unicode counts `c` as `White_Space`, as `char::is_whitespace`
/// decides it.
pub uninterp spec fn char_is_whitespace(c: char) -> bool;

/// Whether Unicode counts `c` as `Alphabetic`, as `char::is_alphabetic`
/// decides it.
pub uninterp spec fn char_is_alphabetic(c: char) -> bool;

/// Whether `c` is in one of Unicode's numeric categories, as
/// `char::is_numeric` decides it.
pub uninterp spec fn char_is_numeric(c: char) -> bool;

/// `char::is_whitespace`: true exactly of the characters that are
/// `White_Space`.
pub assume_specification[ char::is_whitespace ](c: char) -> (b: bool)
    ensures
        b == char_is_whitespace(c),
;

/// `char::is_alphabetic`: true exactly of the characters that are
/// `Alphabetic`.
pub assume_specification[ char::is_alphabetic ](c: char) -> (b: bool)
    ensures
        b == char_is_alphabetic(c),
;

/// `char::is_alphanumeric`: true exactly of the characters that are
/// alphabetic or numeric.
pub assume_specification[ char::is_alphanumeric ](c: char) -> (b: bool)
    ensures
        b == (char_is_alphabetic(c) || char_is_numeric(c)),
;

/// Whether `c` is one of the ASCII decimal digits `0` to `9`.
pub open spec fn spec_is_digit(c: char) -> bool {
    '0' <= c && c <= '9'
}

/// Whether an identifier may begin with `c`: a letter, `_` or `$`.
pub open spec fn spec_is_identifier_start(c: char) -> bool {
    char_is_alphabetic(c) || c == '_' || c == '$'
}

/// Whether an identifier may continue with `c`: a letter, a numeric
/// character or `_`.
pub open spec fn spec_is_identifier_part(c: char) -> bool {
    char_is_alphabetic(c) || char_is_numeric(c) || c == '_'
}

/// The value of the decimal digit `c`.
pub open spec fn digit_value(c: char) -> int
    recommends
        spec_is_digit(c),
{
    c as int - '0' as int
}

/// Tests whether `c` is an ASCII decimal digit.
pub fn is_digit(c: char) -> (b: bool)
    ensures
        b == spec_is_digit(c),
{
    '0' <= c && c <= '9'
}

/// The value of the decimal digit `c`, between 0 and 9.
pub fn digit_of(c: char) -> (d: u8)
    requires
        spec_is_digit(c),
    ensures
        d == digit_value(c),
        d <= 9,
{
    (c as u32 - '0' as u32) as u8
}

} // verus!
