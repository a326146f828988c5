//! Small string helpers with contracts over the character sequence.
use vstd::prelude::*;

verus! {

/// Appends one character to a string (calls `String::push`).
/// Trusted: the contract claims that the string's characters after the
/// call are those before it followed by `c`, as `String::push` documents.
#[verifier::external_body]
pub(crate) fn push_char(s: &mut String, c: char)
    ensures
        final(s)@ == old(s)@.push(c),
{
    s.push(c);
}

} // verus!
