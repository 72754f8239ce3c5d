//! Trusted wrapper for the one `String` operation the renderers need.

use vstd::prelude::*;

verus! {

/// Relies on `alloc::string::String::push`: appends one character to the
/// end of the string.
#[verifier::external_body]
pub(crate) fn push_char(s: &mut String, c: char)
    ensures
        final(s)@ == old(s)@.push(c),
{
    s.push(c)
}

/// Relies on `alloc::string::String::push_str`: appends a whole string
/// slice to the end of the string.
#[verifier::external_body]
pub(crate) fn push_str(s: &mut String, t: &str)
    ensures
        final(s)@ == old(s)@ + t@,
{
    s.push_str(t)
}

} // verus!
