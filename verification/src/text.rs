use vstd::prelude::*;

verus! {

/// Appends one character to a string.
///
/// This is std's `String::push`, which vstd does not specify. Its contract
/// is taken on trust: the string afterwards is the string before followed
/// by `c`.
#[verifier::external_body]
pub(crate) fn push_char(text: &mut String, c: char)
    ensures
        final(text)@ == old(text)@.push(c),
{
    text.push(c)
}

} // verus!
