//! Calls into other crates. Verus takes the contracts in this file on trust:
//! each states what the called function's documentation promises.

use itertools::Itertools;
use regex::Regex;
use vstd::prelude::*;
use crate::alphabet::all_wires;
use crate::charseq::ascending;
use crate::codeword::{byte_length, shortest_first, texts};

verus! {

/// Sorts characters with `Itertools::sorted_unstable`, which collects the
/// iterator into a vector and calls `slice::sort_unstable` on it. The result
/// holds the same characters as `chars`, each as often, in ascending order of
/// `char`, which is the order of the code points.
#[verifier::external_body]
pub(crate) fn sorted_unstable_chars(chars: &Vec<char>) -> (r: Vec<char>)
    ensures
        r@.to_multiset() == chars@.to_multiset(),
        ascending(r@),
{
    chars.iter().copied().sorted_unstable().collect()
}

/// Sorts words with `Itertools::sorted_unstable_by_key`, which collects the
/// iterator into a vector and calls `slice::sort_unstable_by_key` on it, here
/// with the length in bytes as the key. The result holds the same words as
/// `words`, each as often, and no word in it is shorter than one before it.
/// Which of two words of one length comes first is left open.
#[verifier::external_body]
pub(crate) fn sorted_unstable_by_length<'a>(words: &Vec<&'a str>) -> (r: Vec<&'a str>)
    ensures
        texts(r@).to_multiset() == texts(words@).to_multiset(),
        shortest_first(r@),
{
    words.iter().copied().sorted_unstable_by_key(|word| byte_length(word)).collect()
}

/// Whether `c` has the Unicode property `White_Space`: what
/// `char::is_whitespace` returns for it.
pub uninterp spec fn white_space(c: char) -> bool;

/// Calls `char::is_whitespace`, which tells whether a character has the
/// Unicode property `White_Space`.
#[verifier::external_body]
pub(crate) fn is_whitespace(c: char) -> (r: bool)
    ensures
        r == white_space(c),
{
    c.is_whitespace()
}

/// Compiles `pattern` with `regex::Regex::new` and searches `text` with
/// `Regex::is_match`. Only the pattern `^[a-g]+$` is admitted. By the
/// crate's syntax `^` and `$` match at the two ends of the text and nowhere
/// else, `[a-g]` matches one character from `a` to `g`, and `+` asks for one
/// or more: the text matches if it is not empty and holds wire labels only.
/// The pattern compiles, so the result is never `None`.
#[verifier::external_body]
pub(crate) fn pattern_matches(pattern: &str, text: &str) -> (r: Option<bool>)
    requires
        pattern@ == "^[a-g]+$"@,
    ensures
        r == Some(text@.len() > 0 && all_wires(text@)),
{
    match Regex::new(pattern) {
        Ok(re) => Some(re.is_match(text)),
        Err(_) => None,
    }
}

} // verus!
