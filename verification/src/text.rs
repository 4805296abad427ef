//! Strings and characters.

use vstd::prelude::*;

verus! {

/// The characters of a source text, in order.
pub fn chars_of(content: &str) -> (chars: Vec<char>)
    ensures
        chars@ == content@,
{
    let mut chars: Vec<char> = Vec::new();
    for c in it: content.chars()
        invariant
            chars@ == it.seq().take(it.index() as int),
    {
        chars.push(c);
    }
    chars
}

/// Append `c` to `s`: a wrapper of `String::push`, which std documents as
/// appending the given `char` to the end of the string.
#[verifier::external_body]
pub(crate) fn push_char(s: &mut String, c: char)
    ensures
        final(s)@ == old(s)@.push(c),
{
    s.push(c);
}

} // verus!
