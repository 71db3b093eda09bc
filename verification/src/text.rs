//! Conversions between strings and character vectors.

use vstd::prelude::*;

verus! {

/// Trusted specification of `String::push` from the standard library: the
/// character is appended to the end of the string and nothing else changes.
pub assume_specification[ String::push ](s: &mut String, ch: char)
    ensures
        final(s)@ == old(s)@.push(ch),
;

/// The characters of `text`, in order.
pub fn chars_of(text: &str) -> (chars: Vec<char>)
    ensures
        chars@ == text@,
{
    let mut chars: Vec<char> = Vec::new();
    for c in it: text.chars()
        invariant
            it.seq() == text@,
            chars@ == it.seq().take(it.index() as int),
    {
        chars.push(c);
    }
    assert(chars@ =~= text@);
    chars
}

/// The string that consists of `chars`, in order.
pub fn string_from_chars(chars: &Vec<char>) -> (text: String)
    ensures
        text@ == chars@,
{
    let mut text = String::new();
    let mut i: usize = 0;
    while i < chars.len()
        invariant
            i <= chars.len(),
            text@ == chars@.take(i as int),
        decreases chars.len() - i,
    {
        text.push(chars[i]);
        i = i + 1;
    }
    assert(text@ =~= chars@);
    text
}

/// A copy of `word` in which the character at `position` is `replacement`.
pub fn with_char_at(word: &Vec<char>, position: usize, replacement: char) -> (typo: Vec<char>)
    requires
        position < word.len(),
    ensures
        typo@ == word@.update(position as int, replacement),
{
    let mut typo: Vec<char> = Vec::with_capacity(word.len());
    let mut i: usize = 0;
    while i < word.len()
        invariant
            i <= word.len(),
            position < word.len(),
            typo@ == word@.update(position as int, replacement).take(i as int),
        decreases word.len() - i,
    {
        if i == position {
            typo.push(replacement);
        } else {
            typo.push(word[i]);
        }
        i = i + 1;
    }
    assert(typo@ =~= word@.update(position as int, replacement));
    typo
}

} // verus!
