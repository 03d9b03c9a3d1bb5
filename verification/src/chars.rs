//! Character classes and string building blocks taken from the standard
//! library. Unicode's tables are not written out here: each class is a name,
//! and the items below say of the standard functions only that they compute
//! it.
use vstd::prelude::*;

verus! {

/// Whether `c` has Unicode's `White_Space` property.
pub uninterp spec fn is_blank(c: char) -> bool;

/// Whether `c` has Unicode's `Alphabetic` property.
pub uninterp spec fn is_letter(c: char) -> bool;

/// Whether `c` is in one of Unicode's number categories (`Nd`, `Nl`, `No`).
pub uninterp spec fn is_digit(c: char) -> bool;

/// A letter or a digit.
pub open spec fn is_word_char(c: char) -> bool {
    is_letter(c) || is_digit(c)
}

/// `c` with the letters `a` to `z` moved to `A` to `Z`; every other
/// character, the letters outside ASCII too, is left as it is.
pub open spec fn ascii_upper(c: char) -> char {
    if 'a' <= c && c <= 'z' {
        ((c as u32) - 32) as char
    } else {
        c
    }
}

/// Trusted: `char::is_whitespace` computes the class named [`is_blank`].
pub assume_specification[ char::is_whitespace ](c: char) -> (b: bool)
    ensures
        b == is_blank(c),
;

/// Trusted: `char::is_alphabetic` computes the class named [`is_letter`].
pub assume_specification[ char::is_alphabetic ](c: char) -> (b: bool)
    ensures
        b == is_letter(c),
;

/// Trusted: `char::is_numeric` computes the class named [`is_digit`].
pub assume_specification[ char::is_numeric ](c: char) -> (b: bool)
    ensures
        b == is_digit(c),
;

/// Trusted: `char::is_alphanumeric` holds exactly of the characters of which
/// `char::is_alphabetic` or `char::is_numeric` holds, as its documentation
/// says.
pub assume_specification[ char::is_alphanumeric ](c: char) -> (b: bool)
    ensures
        b == is_word_char(c),
;

/// Trusted: `char::to_ascii_uppercase` maps `a` to `z` onto `A` to `Z` and
/// changes nothing else.
pub assume_specification[ char::to_ascii_uppercase ](c: &char) -> (u: char)
    ensures
        u == ascii_upper(*c),
;

/// Trusted: `String::push` appends one character at the end.
pub assume_specification[ String::push ](s: &mut String, c: char)
    ensures
        final(s)@ == old(s)@.push(c),
;

} // verus!
