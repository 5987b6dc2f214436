//! The search as mathematics: what is known while a puzzle is being solved,
//! and how each step of the elimination changes it.
//!
//! A word is identified by the set of wires it lights, so two spellings of
//! the same word are the same key.

use vstd::prelude::*;
use crate::alphabet::{segments, wire_index, wire_labels};
use crate::digit::{classify, sole, DigitState};
use crate::error::DecodeError;

verus! {

/// The segments that digit `d` lights, in alphabetical order; empty for a
/// `d` that is no digit.
pub open spec fn pattern(d: u8) -> Seq<char> {
    if d == 0 {
        seq!['A', 'B', 'C', 'E', 'F', 'G']
    } else if d == 1 {
        seq!['C', 'F']
    } else if d == 2 {
        seq!['A', 'C', 'D', 'E', 'G']
    } else if d == 3 {
        seq!['A', 'C', 'D', 'F', 'G']
    } else if d == 4 {
        seq!['B', 'C', 'D', 'F']
    } else if d == 5 {
        seq!['A', 'B', 'D', 'F', 'G']
    } else if d == 6 {
        seq!['A', 'B', 'D', 'E', 'F', 'G']
    } else if d == 7 {
        seq!['A', 'C', 'F']
    } else if d == 8 {
        seq!['A', 'B', 'C', 'D', 'E', 'F', 'G']
    } else if d == 9 {
        seq!['A', 'B', 'C', 'D', 'F', 'G']
    } else {
        Seq::empty()
    }
}

/// The set of segments that digit `d` lights.
pub open spec fn lit(d: u8) -> Set<char> {
    pattern(d).to_set()
}

/// What is known at some point of the search.
pub struct Knowledge {
    /// For each wire, by its position in the alphabet, the segments it may
    /// still drive.
    pub candidates: Seq<Set<char>>,
    /// For each input word seen, by the wires it lights, its digit state.
    pub digits: Map<Set<char>, DigitState>,
}

/// Nothing is known: every wire may drive every segment.
pub open spec fn unconstrained() -> Seq<Set<char>> {
    Seq::new(7, |w: int| segments())
}

/// The candidates once the word that lights the wires `on` is known to show
/// digit `d`: a lit wire drives no segment that `d` leaves dark, and a dark
/// wire drives no segment that `d` lights.
pub open spec fn assign(candidates: Seq<Set<char>>, on: Set<char>, d: u8) -> Seq<Set<char>> {
    Seq::new(
        candidates.len(),
        |w: int|
            if on.contains(wire_labels()[w]) {
                candidates[w].difference(segments().difference(lit(d)))
            } else {
                candidates[w].difference(lit(d))
            },
    )
}

/// `sub` gives every wire of `on` one of its candidate segments.
pub open spec fn fits(candidates: Seq<Set<char>>, on: Set<char>, sub: Map<char, char>) -> bool {
    forall|w: char|
        on.contains(w) ==> sub.dom().contains(w) && candidates[wire_index(w)].contains(
            #[trigger] sub[w],
        )
}

/// The segments that light when each wire of `on` drives what `sub` says.
pub open spec fn image(on: Set<char>, sub: Map<char, char>) -> Set<char> {
    Set::new(|s: char| exists|w: char| on.contains(w) && #[trigger] sub[w] == s)
}

/// The segment sets that the word `on` could light: every image of `on`
/// under a substitution that fits the candidates and sends no two wires to
/// the same segment.
pub open spec fn expand(candidates: Seq<Set<char>>, on: Set<char>) -> Set<Set<char>> {
    Set::new(
        |t: Set<char>|
            exists|sub: Map<char, char>|
                #[trigger] fits(candidates, on, sub) && t == image(on, sub) && t.finite()
                    && t.len() == on.len(),
    )
}

/// The digits among `plausible` whose pattern the word `on` could light.
pub open spec fn confirmed(candidates: Seq<Set<char>>, on: Set<char>, plausible: Set<u8>) -> Set<u8> {
    Set::new(|d: u8| plausible.contains(d) && d <= 9 && expand(candidates, on).contains(lit(d)))
}

/// The digits that the word `on` is still thought to show, if it is undecided.
pub open spec fn plausible(k: Knowledge, on: Set<char>) -> Set<u8> {
    if k.digits.dom().contains(on) {
        match k.digits[on] {
            DigitState::Undecided(s) => s,
            _ => Set::empty(),
        }
    } else {
        Set::empty()
    }
}

/// The digit that the word `on` is found to show, if exactly one of its
/// plausible digits is confirmed.
pub open spec fn verdict(k: Knowledge, on: Set<char>) -> Option<u8> {
    sole(confirmed(k.candidates, on, plausible(k, on)))
}

/// One attempt at the word `on`: with a verdict the word is decided and the
/// candidates narrowed, without one nothing changes.
pub open spec fn attempt(k: Knowledge, on: Set<char>) -> Knowledge {
    match verdict(k, on) {
        Some(d) => Knowledge {
            candidates: assign(k.candidates, on, d),
            digits: k.digits.insert(on, DigitState::Decided(d)),
        },
        None => k,
    }
}

/// One pass: an attempt at each pending word in turn, each seeing what the
/// earlier ones settled.
pub open spec fn sweep(k: Knowledge, pending: Seq<Set<char>>) -> Knowledge
    decreases pending.len(),
{
    if pending.len() == 0 {
        k
    } else {
        attempt(sweep(k, pending.drop_last()), pending.last())
    }
}

/// The pending words that a pass leaves undecided, in their order.
pub open spec fn left_over(k: Knowledge, pending: Seq<Set<char>>) -> Seq<Set<char>>
    decreases pending.len(),
{
    if pending.len() == 0 {
        pending
    } else {
        let before = sweep(k, pending.drop_last());
        let rest = left_over(k, pending.drop_last());
        if verdict(before, pending.last()) is Some {
            rest
        } else {
            rest.push(pending.last())
        }
    }
}

/// Passes until no word is pending. A pass that settles nothing ends the
/// search: the constraints cannot be solved.
pub open spec fn solve(k: Knowledge, pending: Seq<Set<char>>) -> Result<Knowledge, DecodeError>
    decreases pending.len(),
{
    if pending.len() == 0 {
        Ok(k)
    } else {
        let rest = left_over(k, pending);
        if rest.len() < pending.len() {
            solve(sweep(k, pending), rest)
        } else {
            Err(DecodeError::UnsolvableConstraints)
        }
    }
}

/// Taking in one input word: its length classifies it, and a length that
/// decides the digit narrows the candidates at once.
pub open spec fn take_in(k: Knowledge, word: Seq<char>) -> Knowledge {
    let on = word.to_set();
    let state = classify(on.len());
    Knowledge {
        candidates: match state {
            DigitState::Decided(d) => assign(k.candidates, on, d),
            _ => k.candidates,
        },
        digits: k.digits.insert(on, state),
    }
}

/// What is known after taking in `words`, one after the other.
pub open spec fn intake(words: Seq<Seq<char>>) -> Knowledge
    decreases words.len(),
{
    if words.len() == 0 {
        Knowledge { candidates: unconstrained(), digits: Map::empty() }
    } else {
        take_in(intake(words.drop_last()), words.last())
    }
}

/// The undecided words among `words`, each once, in the order in which they
/// first occur.
pub open spec fn pending_after(words: Seq<Seq<char>>) -> Seq<Set<char>>
    decreases words.len(),
{
    if words.len() == 0 {
        Seq::empty()
    } else {
        let earlier = pending_after(words.drop_last());
        let on = words.last().to_set();
        if classify(on.len()) is Undecided && !intake(words.drop_last()).digits.dom().contains(on) {
            earlier.push(on)
        } else {
            earlier
        }
    }
}

/// Some word lights a number of wires that no digit lights.
pub open spec fn malformed(words: Seq<Seq<char>>) -> bool {
    exists|i: int| 0 <= i < words.len() && classify((#[trigger] words[i]).to_set().len()) is Invalid
}

/// The whole search on `words`, taken in the order given.
pub open spec fn build(words: Seq<Seq<char>>) -> Result<Knowledge, DecodeError> {
    if malformed(words) {
        Err(DecodeError::MalformedCodeword)
    } else {
        solve(intake(words), pending_after(words))
    }
}

/// The digit of the word that lights the wires `on`, where the table has
/// decided it.
pub open spec fn reading(digits: Map<Set<char>, DigitState>, on: Set<char>) -> Result<u8, DecodeError> {
    if digits.dom().contains(on) {
        match digits[on] {
            DigitState::Decided(d) => Ok(d),
            _ => Err(DecodeError::UnrecognizedOutput),
        }
    } else {
        Err(DecodeError::UnrecognizedOutput)
    }
}

} // verus!
