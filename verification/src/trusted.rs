//! What this crate takes on trust: contracts for three functions of the
//! standard library that `vstd` does not describe. Nothing here is
//! proved; everything else in the crate is.

use vstd::prelude::*;

verus! {

/// Whether `c` has the Unicode property `White_Space`, as
/// `char::is_whitespace` reports it.
pub uninterp spec fn char_is_whitespace(c: char) -> bool;

/// Whether `c` has the Unicode property `Alphabetic`, as
/// `char::is_alphabetic` reports it.
pub uninterp spec fn char_is_alphabetic(c: char) -> bool;

/// `char::is_whitespace` decides membership in a fixed table of the Unicode
/// standard; the contract gives that decision a name and claims nothing
/// about which characters are in the table.
pub assume_specification[ char::is_whitespace ](c: char) -> (r: bool)
    ensures
        r == char_is_whitespace(c),
;

/// `char::is_alphabetic` decides membership in a fixed table of the Unicode
/// standard; the contract gives that decision a name and claims nothing
/// about which characters are in the table.
pub assume_specification[ char::is_alphabetic ](c: char) -> (r: bool)
    ensures
        r == char_is_alphabetic(c),
;

/// `String::push` appends one character to the end of the string and
/// leaves the characters before it as they were.
pub assume_specification[ String::push ](s: &mut String, c: char)
    ensures
        final(s)@ == old(s)@.push(c),
;

} // verus!
