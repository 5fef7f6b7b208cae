//! The one bridge to std that the codecs need: growing the container string
//! character by character.

use vstd::prelude::*;

verus! {

/// Relies on String::push: it appends exactly the given character.
#[verifier::external_body]
pub(crate) fn push_char(s: &mut String, c: char)
    ensures
        final(s)@ == old(s)@.push(c),
{
    s.push(c);
}

} // verus!
