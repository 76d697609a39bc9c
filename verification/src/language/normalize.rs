//! Word normalization: the case-insensitive identity of a word.

use vstd::prelude::*;

use crate::text::{char_lowercase, chars_of, lowercase_of, string_from_chars};

verus! {

/// A word's normalized form: each character replaced by its lowercase mapping.
pub open spec fn spec_normalize(s: Seq<char>) -> Seq<char>
    decreases s.len(),
{
    if s.len() == 0 {
        Seq::empty()
    } else {
        spec_normalize(s.drop_last()) + char_lowercase(s.last())
    }
}

/// The normalized characters of a character sequence. Each character maps to one or more
/// characters, so the result is at least as long as the input.
pub fn normalize_chars(s: &[char]) -> (r: Vec<char>)
    ensures
        r@ == spec_normalize(s@),
        r@.len() >= s@.len(),
{
    let mut out: Vec<char> = Vec::new();
    let mut i: usize = 0;
    while i < s.len()
        invariant
            i <= s.len(),
            out@ == spec_normalize(s@.take(i as int)),
            out@.len() >= i,
        decreases s.len() - i,
    {
        let mut lower = lowercase_of(s[i]);
        assert(s@.take(i + 1).drop_last() =~= s@.take(i as int));
        out.append(&mut lower);
        i = i + 1;
    }
    assert(s@.take(s.len() as int) =~= s@);
    out
}

/// The normalized form of a word.
pub fn normalize_word(word: &str) -> (r: String)
    ensures
        r@ == spec_normalize(word@),
        r@.len() >= word@.len(),
{
    let chars = chars_of(word);
    let normalized = normalize_chars(chars.as_slice());
    string_from_chars(normalized.as_slice())
}

} // verus!
