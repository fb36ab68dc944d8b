//! Building text one character at a time.

use vstd::prelude::*;

verus! {

/// Appends one character to a string.
///
/// Stands for `String::push`: afterwards the string holds what it held
/// before, followed by `c`.
#[verifier::external_body]
pub(crate) fn push_char(text: &mut String, c: char)
    ensures
        final(text)@ == old(text)@.push(c),
{
    text.push(c)
}

} // verus!
