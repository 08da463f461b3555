//! Splitting text on whitespace or into characters.

use vstd::prelude::*;
use crate::standard_bpe::strs;
use crate::text::{chars_of, split_fields, string_from_chars, whitespace_fields};

verus! {

/// Splits text without a vocabulary.
pub struct SimpleTokenizer {}

impl SimpleTokenizer {
    /// The whitespace-separated words of `text`.
    pub fn tokenize_words(text: &str) -> (r: Vec<String>)
        ensures
            strs(r@) == whitespace_fields(text@),
    {
        split_fields(text)
    }

    /// Each character of `text` as a string of its own.
    pub fn tokenize_chars(text: &str) -> (r: Vec<String>)
        ensures
            strs(r@) == text@.map_values(|c: char| seq![c]),
    {
        let cs = chars_of(text);
        let mut out: Vec<String> = Vec::new();
        let mut i: usize = 0;
        while i < cs.len()
            invariant
                cs@ == text@,
                0 <= i <= cs@.len(),
                strs(out@) == cs@.take(i as int).map_values(|c: char| seq![c]),
            decreases cs@.len() - i,
        {
            let one: Vec<char> = vec![cs[i]];
            let s = string_from_chars(one.as_slice());
            proof {
                assert(s@ =~= seq![cs@[i as int]]);
                assert(strs(out@.push(s)) =~= strs(out@).push(s@));
                assert(cs@.take(i + 1).map_values(|c: char| seq![c]) =~= cs@.take(i as int).map_values(
                    |c: char| seq![c],
                ).push(seq![cs@[i as int]]));
            }
            out.push(s);
            i = i + 1;
        }
        assert(cs@.take(cs@.len() as int) =~= cs@);
        out
    }
}

} // verus!
