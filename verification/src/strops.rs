//! Thin trusted helpers over std's string operations, each one relied on for
//! exactly what its documentation states.

use vstd::prelude::*;

verus! {

/// Whether std classifies a character as whitespace: the result depends on
/// the character alone.
pub uninterp spec fn space_char(c: char) -> bool;

/// Relies on char::is_whitespace: true exactly for characters with the
/// White_Space property.
#[verifier::external_body]
pub(crate) fn is_space(c: char) -> (r: bool)
    ensures
        r == space_char(c),
{
    c.is_whitespace()
}

/// Relies on str's PartialEq: two string slices are equal exactly when their
/// character sequences are equal.
#[verifier::external_body]
pub(crate) fn str_eq(a: &str, b: &str) -> (r: bool)
    ensures
        r == (a@ == b@),
{
    a == b
}

/// Relies on String::push: appends the given character to the end.
#[verifier::external_body]
pub(crate) fn push_char(s: &mut String, c: char)
    ensures
        final(s)@ == old(s)@.push(c),
{
    s.push(c);
}

} // verus!
