//! Borrowing: reading and changing strings through references, and slices
//! of them.
use crate::text::{chars_of, find_char, index_of, lemma_find_char};
use vstd::prelude::*;
use vstd::utf8::encode_utf8;

verus! {

/// The length of `s` in bytes.
pub fn calculate_length(s: &str) -> (n: usize)
    ensures
        n == encode_utf8(s@).len(),
{
    s.as_bytes().len()
}

/// Appends `, world!`.
pub fn change(s: &mut String)
    ensures
        final(s)@ == old(s)@ + ", world!"@,
{
    s.append(", world!");
}

/// A freshly owned string, returned by value rather than by a reference
/// to a local.
pub fn no_dangle() -> (s: String)
    ensures
        s@ == "hello"@,
{
    String::from_str("hello")
}

/// The length of `s` in bytes.
pub fn string_length(s: &str) -> (n: usize)
    ensures
        n == encode_utf8(s@).len(),
{
    s.as_bytes().len()
}

/// The text before the first space, or all of `s` when it has none.
pub open spec fn first_word_of(s: Seq<char>) -> Seq<char> {
    match find_char(s, ' ') {
        Some(i) => s.take(i),
        None => s,
    }
}

/// The first word of `s`: everything before its first space.
pub fn first_word(s: &str) -> (w: &str)
    ensures
        w@ == first_word_of(s@),
{
    let chars = chars_of(s);
    proof {
        lemma_find_char(s@, ' ');
    }
    assert(chars@.subrange(0, chars@.len() as int) =~= chars@);
    match index_of(&chars, 0, chars.len(), ' ') {
        Some(i) => s.substring_char(0, i),
        None => s,
    }
}

} // verus!
