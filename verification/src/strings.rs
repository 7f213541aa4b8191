//! Appending to strings.

use vstd::prelude::*;

verus! {

/// Appends `c` to `s` (`String::push`): the text gets `c` at its end.
#[verifier::external_body]
pub(crate) fn push_char(s: &mut String, c: char)
    ensures
        final(s)@ == old(s)@.push(c),
{
    s.push(c)
}

/// Appends `t` to `s` (`String::push_str`): the text gets that of `t` at
/// its end.
#[verifier::external_body]
pub(crate) fn push_str(s: &mut String, t: &str)
    ensures
        final(s)@ == old(s)@ + t@,
{
    s.push_str(t)
}

} // verus!
