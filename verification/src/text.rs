//! Strings and their letters.

use vstd::prelude::*;

verus! {

/// `String::from_iter`: the string made of `letters`, in order.
#[verifier::external_body]
pub(crate) fn string_from_letters(letters: Vec<char>) -> (text: String)
    ensures
        text@ == letters@,
{
    String::from_iter(letters)
}

/// The letters of `text`, in order.
pub fn letters_of(text: &str) -> (letters: Vec<char>)
    ensures
        letters@ == text@,
{
    let mut letters: Vec<char> = Vec::new();
    for letter in it: text.chars()
        invariant
            it.seq() == text@,
            letters@ == text@.take(it.index()),
    {
        assert(text@.take(it.index()).push(letter) =~= text@.take(it.index() + 1));
        letters.push(letter);
    }
    assert(text@.take(text@.len() as int) =~= text@);
    letters
}

} // verus!
