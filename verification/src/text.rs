//! Conversions between `str`/`String` and character vectors.
//!
//! The grammar works character by character, so input text is first turned
//! into a `Vec<char>`, and recognized pieces are turned back into `String`s.

use vstd::prelude::*;

verus! {

/// Collects the characters of a string slice into a vector, in order.
pub fn chars_to_vec(s: &str) -> (v: Vec<char>)
    ensures
        v@ == s@,
{
    let mut v: Vec<char> = Vec::new();
    for c in it: s.chars()
        invariant
            it.seq() == s@,
            v@ == it.seq().take(it.index() as int),
    {
        v.push(c);
    }
    proof {
        assert(v@ =~= s@);
    }
    v
}

/// Relies on `String`'s `FromIterator<char>` implementation: collecting
/// characters yields the string of exactly those characters, in order.
#[verifier::external_body]
pub(crate) fn string_from_chars(s: &[char]) -> (r: String)
    ensures
        r@ == s@,
{
    s.iter().collect()
}

/// Copies the characters of `s` between positions `i` (inclusive) and `j`
/// (exclusive) into a fresh string.
pub(crate) fn string_of_range(s: &Vec<char>, i: usize, j: usize) -> (r: String)
    requires
        i <= j <= s.len(),
    ensures
        r@ == s@.subrange(i as int, j as int),
{
    string_from_chars(vstd::slice::slice_subrange(s.as_slice(), i, j))
}

} // verus!
