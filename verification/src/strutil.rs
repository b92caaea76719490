//! Specifications for the two `String` builders that the diagnostic dump and
//! name generation rely on; `vstd` does not cover them.

use vstd::prelude::*;

verus! {

/// Relies on `String::push_str`: appends the given string slice onto the end
/// of the string.
pub assume_specification[ String::push_str ](s: &mut String, string: &str)
    ensures
        final(s)@ == old(s)@ + string@,
;

/// Relies on `String::push`: appends the given char onto the end of the
/// string.
pub assume_specification[ String::push ](s: &mut String, ch: char)
    ensures
        final(s)@ == old(s)@.push(ch),
;

} // verus!
