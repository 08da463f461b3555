//! Conversions between strings, characters and bytes.

use vstd::prelude::*;
use vstd::std_specs::iter::IteratorSpec;
use vstd::utf8::{decode_utf8, valid_utf8};
use unicode_segmentation::UnicodeSegmentation;

verus! {

broadcast use vstd::string::group_string_axioms;

/// The characters of `s`, in order.
pub fn chars_of(s: &str) -> (r: Vec<char>)
    ensures
        r@ == s@,
{
    let mut out: Vec<char> = Vec::new();
    for c in it: s.chars()
        invariant
            it.seq() == s@,
            out@ == s@.take(it.index() as int),
    {
        out.push(c);
    }
    assert(out@ =~= s@);
    out
}


/// What `String::from_utf8_lossy` makes of the bytes `b`: their text, with
/// each ill-formed run replaced by U+FFFD.
pub uninterp spec fn lossy_utf8(b: Seq<u8>) -> Seq<char>;

/// Relies on `String::from_utf8_lossy`: its result depends on the bytes
/// alone, and bytes that are valid UTF-8 come back as the text they encode.
#[verifier::external_body]
pub(crate) fn utf8_lossy(b: &[u8]) -> (r: String)
    ensures
        r@ == lossy_utf8(b@),
        valid_utf8(b@) ==> r@ == decode_utf8(b@),
{
    String::from_utf8_lossy(b).into_owned()
}


/// Relies on `String::from_iter` over characters: the string holds them in
/// order.
#[verifier::external_body]
pub(crate) fn string_from_chars(cs: &[char]) -> (r: String)
    ensures
        r@ == cs@,
{
    String::from_iter(cs)
}

/// What `str::to_lowercase` makes of `s`.
pub uninterp spec fn lower_of(s: Seq<char>) -> Seq<char>;

/// Relies on `str::to_lowercase`: its result depends on the characters alone.
#[verifier::external_body]
pub(crate) fn lowercase(s: &str) -> (r: String)
    ensures
        r@ == lower_of(s@),
{
    s.to_lowercase()
}

/// The pieces that `str::split_whitespace` cuts `s` into.
pub uninterp spec fn whitespace_fields(s: Seq<char>) -> Seq<Seq<char>>;

/// Relies on `str::split_whitespace`: the fields depend on the characters
/// alone.
#[verifier::external_body]
pub(crate) fn split_fields(s: &str) -> (r: Vec<String>)
    ensures
        r@.map_values(|f: String| f@) == whitespace_fields(s@),
{
    s.split_whitespace().map(String::from).collect()
}

/// The words of `s` that `UnicodeSegmentation::unicode_words` yields.
pub uninterp spec fn unicode_words_of(s: Seq<char>) -> Seq<Seq<char>>;

/// Relies on `unicode_segmentation::UnicodeSegmentation::unicode_words`: the
/// words (pieces between UAX#29 word boundaries that hold a letter or a
/// number) depend on the characters alone.
#[verifier::external_body]
pub(crate) fn words_of(s: &str) -> (r: Vec<String>)
    ensures
        r@.map_values(|w: String| w@) == unicode_words_of(s@),
{
    s.unicode_words().map(String::from).collect()
}

/// The sentences of `s` that `UnicodeSegmentation::unicode_sentences` yields.
pub uninterp spec fn unicode_sentences_of(s: Seq<char>) -> Seq<Seq<char>>;

/// Relies on `unicode_segmentation::UnicodeSegmentation::unicode_sentences`:
/// the sentences (pieces between UAX#29 sentence boundaries that hold a
/// letter or a number) depend on the characters alone.
#[verifier::external_body]
pub(crate) fn sentences_of(s: &str) -> (r: Vec<String>)
    ensures
        r@.map_values(|t: String| t@) == unicode_sentences_of(s@),
{
    s.unicode_sentences().map(String::from).collect()
}

/// Whether `c` is an ASCII decimal digit.
pub open spec fn is_digit(c: char) -> bool {
    '0' <= c <= '9'
}

/// Whether `s` is one or more ASCII decimal digits.
pub open spec fn all_digits(s: Seq<char>) -> bool {
    s.len() > 0 && forall|i: int| 0 <= i < s.len() ==> is_digit(#[trigger] s[i])
}

/// The number that the decimal digits `s` spell.
pub open spec fn digits_value(s: Seq<char>) -> int
    decreases s.len(),
{
    if s.len() == 0 {
        0
    } else {
        digits_value(s.drop_last()) * 10 + (s.last() as u32 - '0' as u32)
    }
}

/// The integer that `s` spells in decimal: an optional `+` or `-` and then
/// one or more digits, nothing else.
pub open spec fn decimal_value(s: Seq<char>) -> Option<int> {
    if s.len() > 0 && s[0] == '-' && all_digits(s.skip(1)) {
        Some(-digits_value(s.skip(1)))
    } else if s.len() > 0 && s[0] == '+' && all_digits(s.skip(1)) {
        Some(digits_value(s.skip(1)))
    } else if all_digits(s) {
        Some(digits_value(s))
    } else {
        None
    }
}

/// `s` read as an `isize`: its decimal value, where that is in range.
pub open spec fn isize_of(s: Seq<char>) -> Option<isize> {
    match decimal_value(s) {
        Some(v) => if isize::MIN <= v <= isize::MAX {
            Some(v as isize)
        } else {
            None
        },
        None => None,
    }
}

/// Relies on `str::parse::<isize>`: it accepts an optional sign followed by
/// decimal digits only, and fails when the value is out of range.
#[verifier::external_body]
pub(crate) fn parse_isize(s: &str) -> (r: Option<isize>)
    ensures
        r == isize_of(s@),
{
    s.parse::<isize>().ok()
}

} // verus!
