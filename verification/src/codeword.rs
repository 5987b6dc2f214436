//! From text to the set of wires it lights, and to the sorted spelling that
//! serves as that set's key.

use vstd::prelude::*;
use crate::alphabet::{
    is_segment, is_segment_label, segment_alphabet, segment_labels, wire_alphabet, wire_labels,
};
use crate::charseq::{ascending, contains_char, insert_sorted, lemma_rearranged, strictly_ascending};
use crate::outside::sorted_unstable_chars;
use crate::sevensegdecoder::SevenSegDecoder;

verus! {

/// The texts of a list of words.
pub open spec fn texts(words: Seq<&str>) -> Seq<Seq<char>> {
    Seq::new(words.len(), |i: int| words[i]@)
}

/// Length of `word` in bytes.
pub fn byte_length(word: &str) -> (n: usize)
    ensures
        n == word.len(),
{
    word.len()
}

/// No word is shorter, in bytes, than one before it.
pub open spec fn shortest_first(order: Seq<&str>) -> bool {
    forall|i: int, j: int| 0 <= i <= j < order.len() ==> order[i].len() <= order[j].len()
}

/// The characters of `s`, each once, in the order in which they first occur.
pub open spec fn distinct(s: Seq<char>) -> Seq<char>
    decreases s.len(),
{
    if s.len() == 0 {
        s
    } else if distinct(s.drop_last()).contains(s.last()) {
        distinct(s.drop_last())
    } else {
        distinct(s.drop_last()).push(s.last())
    }
}

pub proof fn lemma_distinct(s: Seq<char>)
    ensures
        distinct(s).no_duplicates(),
        distinct(s).to_set() == s.to_set(),
        distinct(s).len() == s.to_set().len(),
        distinct(s).len() <= s.len(),
    decreases s.len(),
{
    if s.len() == 0 {
        assert(s.to_set() =~= Set::<char>::empty());
    } else {
        let head = s.drop_last();
        lemma_distinct(head);
        assert(s =~= head.push(s.last()));
        head.lemma_push_to_set_commute(s.last());
        if distinct(head).contains(s.last()) {
            assert(head.to_set().contains(s.last()));
            assert(head.to_set().insert(s.last()) =~= head.to_set());
        } else {
            distinct(head).lemma_push_to_set_commute(s.last());
        }
        distinct(s).unique_seq_to_set();
    }
}

/// The labels of `alphabet` that do not occur in `on`, in the alphabet's order.
pub open spec fn complement(alphabet: Seq<char>, on: Seq<char>) -> Seq<char>
    decreases alphabet.len(),
{
    if alphabet.len() == 0 {
        alphabet
    } else if on.contains(alphabet.last()) {
        complement(alphabet.drop_last(), on)
    } else {
        complement(alphabet.drop_last(), on).push(alphabet.last())
    }
}

pub proof fn lemma_complement(alphabet: Seq<char>, on: Seq<char>)
    ensures
        complement(alphabet, on).to_set() == alphabet.to_set().difference(on.to_set()),
    decreases alphabet.len(),
{
    if alphabet.len() == 0 {
        assert(alphabet.to_set() =~= Set::<char>::empty());
        assert(complement(alphabet, on).to_set() =~= alphabet.to_set().difference(on.to_set()));
    } else {
        let head = alphabet.drop_last();
        lemma_complement(head, on);
        assert(alphabet =~= head.push(alphabet.last()));
        head.lemma_push_to_set_commute(alphabet.last());
        if !on.contains(alphabet.last()) {
            complement(head, on).lemma_push_to_set_commute(alphabet.last());
        }
        assert(complement(alphabet, on).to_set() =~= alphabet.to_set().difference(on.to_set()));
    }
}

impl SevenSegDecoder {
    /// Sorts the characters of `word` and drops what occurs twice.
    pub fn sort_chars(word: &mut Vec<char>)
        ensures
            strictly_ascending(final(word)@),
            final(word)@.to_set() == old(word)@.to_set(),
    {
        let mut sorted: Vec<char> = Vec::new();
        let mut i: usize = 0;
        while i < word.len()
            invariant
                i <= word.len(),
                strictly_ascending(sorted@),
                sorted@.to_set() == word@.take(i as int).to_set(),
            decreases word.len() - i,
        {
            proof {
                assert(word@.take(i + 1) =~= word@.take(i as int).push(word@[i as int]));
                word@.take(i as int).lemma_push_to_set_commute(word@[i as int]);
            }
            insert_sorted(&mut sorted, word[i]);
            i += 1;
        }
        proof {
            assert(word@.take(i as int) =~= word@);
        }
        *word = sorted;
    }

    /// The set of characters of `text`: each character once.
    pub fn str_to_hashset(text: &str) -> (r: Vec<char>)
        ensures
            r@ == distinct(text@),
            r@.no_duplicates(),
            r@.to_set() == text@.to_set(),
    {
        broadcast use vstd::string::group_string_axioms;
        let mut set: Vec<char> = Vec::new();
        for c in it: text.chars()
            invariant
                it.seq() == text@,
                set@ == distinct(text@.take(it.index() as int)),
        {
            proof {
                assert(text@.take(it.index() + 1).drop_last() =~= text@.take(it.index() as int));
            }
            if !contains_char(&set, c) {
                set.push(c);
            }
        }
        proof {
            assert(text@.take(text@.len() as int) =~= text@);
            lemma_distinct(text@);
        }
        set
    }

    /// The sorted spelling of a set of characters: its members in ascending
    /// order, each once.
    pub fn hashset_to_str(set: &Vec<char>) -> (r: Vec<char>)
        ensures
            strictly_ascending(r@),
            r@.to_set() == set@.to_set(),
    {
        let sorted = sorted_unstable_chars(set);
        let mut spelling: Vec<char> = Vec::new();
        let mut i: usize = 0;
        while i < sorted.len()
            invariant
                i <= sorted.len(),
                ascending(sorted@),
                strictly_ascending(spelling@),
                spelling@.to_set() == sorted@.take(i as int).to_set(),
                i == 0 ==> spelling@.len() == 0,
                i > 0 ==> spelling@.len() > 0 && spelling@.last() == sorted@[i - 1],
            decreases sorted.len() - i,
        {
            let c = sorted[i];
            proof {
                assert(sorted@.take(i + 1) =~= sorted@.take(i as int).push(c));
                sorted@.take(i as int).lemma_push_to_set_commute(c);
            }
            if spelling.len() == 0 || spelling[spelling.len() - 1] != c {
                proof {
                    spelling@.lemma_push_to_set_commute(c);
                    let grown = spelling@.push(c);
                    assert forall|a: int, b: int| 0 <= a < b < grown.len() implies grown[a] < grown[b] by {
                        if b == grown.len() - 1 {
                            assert(sorted@[i - 1] <= c);
                            if a < spelling@.len() - 1 {
                                assert(spelling@[a] < spelling@[spelling@.len() - 1]);
                            }
                        }
                    }
                }
                spelling.push(c);
            } else {
                proof {
                    assert(spelling@.contains(c));
                    assert(spelling@.to_set().insert(c) =~= spelling@.to_set());
                }
            }
            i += 1;
        }
        proof {
            assert(sorted@.take(i as int) =~= sorted@);
            lemma_rearranged(sorted@, set@);
        }
        spelling
    }

    /// The labels that `input` leaves out: of the segment alphabet where
    /// `input` starts with a segment label, of the wire alphabet otherwise.
    pub fn invert_segments(input: &Vec<char>) -> (r: Vec<char>)
        ensures
            r@ == complement(
                if input@.len() > 0 && is_segment(input@[0]) {
                    segment_labels()
                } else {
                    wire_labels()
                },
                input@,
            ),
    {
        let uppercase = input.len() > 0 && is_segment_label(input[0]);
        let all_segments = if uppercase {
            segment_alphabet()
        } else {
            wire_alphabet()
        };
        let mut rest: Vec<char> = Vec::new();
        let mut i: usize = 0;
        while i < all_segments.len()
            invariant
                i <= all_segments.len(),
                rest@ == complement(all_segments@.take(i as int), input@),
            decreases all_segments.len() - i,
        {
            proof {
                assert(all_segments@.take(i + 1).drop_last() =~= all_segments@.take(i as int));
            }
            if !contains_char(input, all_segments[i]) {
                rest.push(all_segments[i]);
            }
            i += 1;
        }
        proof {
            assert(all_segments@.take(i as int) =~= all_segments@);
        }
        rest
    }
}

} // verus!
