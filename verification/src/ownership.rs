//! Ownership: values handed to and back from functions.
use vstd::prelude::*;

verus! {

/// Creates a string and hands its ownership to the caller.
pub fn gives_ownership() -> (s: String)
    ensures
        s@ == "新しい文字列"@,
{
    String::from_str("新しい文字列")
}

/// Takes a string and gives it straight back.
pub fn takes_and_gives_back(s: String) -> (r: String)
    ensures
        r == s,
{
    s
}

/// Returns the string together with its length in bytes.
pub fn string_length(s: String) -> (r: (String, usize))
    ensures
        r.0 == s,
        r.1 == vstd::utf8::encode_utf8(s@).len(),
{
    let length = s.as_str().as_bytes().len();
    (s, length)
}

} // verus!
