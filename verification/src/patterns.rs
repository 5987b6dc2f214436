//! The fixed tables: which segments each digit lights, and what the number
//! of lit wires says about a word.

use std::collections::HashSet;
use vstd::prelude::*;
use crate::charseq::{lemma_one_sorted_spelling, same_chars, strictly_ascending};
use crate::digit::{classify, Digit};
use crate::model::{lit, pattern};
use crate::sevensegdecoder::SevenSegDecoder;

verus! {

/// The digit whose pattern is exactly the segment set `t`, if there is one.
pub open spec fn digit_showing(t: Set<char>) -> Option<u8> {
    if exists|d: u8| d <= 9 && lit(d) == t {
        Some(choose|d: u8| d <= 9 && lit(d) == t)
    } else {
        None
    }
}

/// Each pattern is spelled in ascending order, and a digit lights between
/// two and seven segments.
pub proof fn lemma_pattern_sorted(d: u8)
    requires
        d <= 9,
    ensures
        strictly_ascending(pattern(d)),
        lit(d).finite(),
        lit(d).len() == pattern(d).len(),
        2 <= pattern(d).len() <= 7,
{
    crate::charseq::lemma_strictly_ascending_distinct(pattern(d));
    vstd::seq_lib::seq_to_set_is_finite(pattern(d));
}

/// No two digits light the same segments.
pub proof fn lemma_patterns_differ(d: u8, e: u8)
    requires
        d <= 9,
        e <= 9,
        lit(d) == lit(e),
    ensures
        d == e,
{
    lemma_pattern_sorted(d);
    lemma_pattern_sorted(e);
    lemma_one_sorted_spelling(pattern(d), pattern(e));
    let p = pattern(d);
    let q = pattern(e);
    assert(p.len() == q.len());
    assert(p[0] == q[0] && p[1] == q[1]);
    if p.len() >= 5 {
        assert(p[2] == q[2] && p[3] == q[3] && p[4] == q[4]);
    }
}

pub proof fn lemma_digit_showing(d: u8)
    requires
        d <= 9,
    ensures
        digit_showing(lit(d)) == Some(d),
{
    let e = choose|e: u8| e <= 9 && lit(e) == lit(d);
    lemma_patterns_differ(e, d);
}

/// The digit that a word of `length` letters must show, if its length
/// alone tells: 1, 4, 7 and 8 are the only digits with 2, 4, 3 and 7
/// segments.
pub open spec fn digit_of_length(length: int) -> Option<u8> {
    if length == 2 {
        Some(1u8)
    } else if length == 4 {
        Some(4u8)
    } else if length == 3 {
        Some(7u8)
    } else if length == 7 {
        Some(8u8)
    } else {
        None
    }
}

impl SevenSegDecoder {
    /// The digit of a word of `length` letters, where the length leaves no
    /// choice.
    pub fn digit_by_length(length: usize) -> (r: Option<u8>)
        ensures
            r == digit_of_length(length as int),
    {
        match length {
            2 => Some(1),
            4 => Some(4),
            3 => Some(7),
            7 => Some(8),
            _ => None,
        }
    }

    /// The digit of a word whose length in bytes leaves no choice.
    pub fn easy_digit(code: &str) -> (r: Option<u8>)
        ensures
            r == digit_of_length(code.len() as int),
    {
        Self::digit_by_length(code.len())
    }

    /// The segments that `dig` lights, in alphabetical order.
    pub fn digit_to_segments(dig: u8) -> (r: Vec<char>)
        requires
            dig <= 9,
        ensures
            r@ == pattern(dig),
    {
        let segs = match dig {
            0 => vec!['A', 'B', 'C', 'E', 'F', 'G'],
            1 => vec!['C', 'F'],
            2 => vec!['A', 'C', 'D', 'E', 'G'],
            3 => vec!['A', 'C', 'D', 'F', 'G'],
            4 => vec!['B', 'C', 'D', 'F'],
            5 => vec!['A', 'B', 'D', 'F', 'G'],
            6 => vec!['A', 'B', 'D', 'E', 'F', 'G'],
            7 => vec!['A', 'C', 'F'],
            8 => vec!['A', 'B', 'C', 'D', 'E', 'F', 'G'],
            _ => vec!['A', 'B', 'C', 'D', 'F', 'G'],
        };
        assert(segs@ =~= pattern(dig));
        segs
    }

    /// The digit that lights exactly the segments in `set`, whatever their
    /// order there.
    pub fn segments_to_digit(set: &Vec<char>) -> (r: Option<u8>)
        ensures
            r == digit_showing(set@.to_set()),
            r matches Some(d) ==> d <= 9 && lit(d) == set@.to_set(),
    {
        let spelling = Self::hashset_to_str(set);
        let mut d: u8 = 0;
        while d < 10
            invariant
                d <= 10,
                strictly_ascending(spelling@),
                spelling@.to_set() == set@.to_set(),
                forall|e: u8| e < d ==> lit(e) != set@.to_set(),
            decreases 10 - d,
        {
            let segs = Self::digit_to_segments(d);
            if same_chars(&spelling, &segs) {
                proof {
                    lemma_digit_showing(d);
                }
                return Some(d);
            }
            proof {
                lemma_pattern_sorted(d);
                if lit(d) == set@.to_set() {
                    lemma_one_sorted_spelling(spelling@, pattern(d));
                }
            }
            d += 1;
        }
        None
    }

    /// What the number of characters of `code` says of its digit.
    pub fn lookup_digits(code: &Vec<char>) -> (r: Digit)
        ensures
            r@ == classify(code@.len()),
    {
        broadcast use vstd::std_specs::hash::group_hash_axioms;
        match code.len() {
            2 => Digit::Decided(1),
            3 => Digit::Decided(7),
            4 => Digit::Decided(4),
            5 => {
                let mut among: HashSet<u8> = HashSet::new();
                among.insert(2);
                among.insert(3);
                among.insert(5);
                assert(among@ =~= set![2u8, 3u8, 5u8]);
                Digit::Undecided(among)
            },
            6 => {
                let mut among: HashSet<u8> = HashSet::new();
                among.insert(0);
                among.insert(6);
                among.insert(9);
                assert(among@ =~= set![0u8, 6u8, 9u8]);
                Digit::Undecided(among)
            },
            7 => Digit::Decided(8),
            _ => Digit::Invalid,
        }
    }
}

} // verus!
