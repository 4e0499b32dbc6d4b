//! Reading a string slice character by character.

use vstd::prelude::*;

verus! {

/// The characters of `text`, in order.
pub fn chars_of(text: &str) -> (chars: Vec<char>)
    ensures
        chars@ == text@,
{
    let mut chars: Vec<char> = Vec::new();
    for c in it: text.chars()
        invariant
            chars@ == it.seq().take(it.index() as int),
            it.seq() == text@,
    {
        chars.push(c);
    }
    chars
}

/// The character of `chars` at `index`.
pub fn char_at(chars: &Vec<char>, index: usize) -> (c: char)
    requires
        index < chars@.len(),
    ensures
        c == chars@[index as int],
{
    chars[index]
}

} // verus!
