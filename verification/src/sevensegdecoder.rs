//! The decoder of one puzzle line.

use vstd::prelude::*;
use crate::alphabet::{all_wires, is_wire, is_wire_label, wire_index, wire_position};
use crate::charseq::lemma_one_sorted_spelling;
use crate::digit::Digit;
use crate::error::DecodeError;
use crate::laws::{
    law_success_decides_every_word, lemma_malformed_rearranged, lemma_solve_fails_unsolvable,
    rearranges,
};
use crate::genuine::{
    is_wiring, law_genuine_display_is_solved, lemma_shows_digits_rearranged, shows_digits,
    solved_by,
};
use crate::model::{
    build, intake, malformed, pending_after, reading, solve, unconstrained, Knowledge,
};
use crate::codeword::{shortest_first, texts};
use crate::outside::sorted_unstable_by_length;
use crate::search::{keys_of, knowledge, pass, spelled, take_in_word};
use crate::segment::Segment;
use crate::table::{decimal, find_entry, lemma_table_at, lemma_table_dom, table_wf};
use crate::wiring::candidates_of;

verus! {

/// The wiring and the digits found for the input words of one line.
#[derive(Debug)]
pub struct SevenSegDecoder {
    segments: Vec<Segment>,
    digits: Vec<(Vec<char>, Digit)>,
}

impl View for SevenSegDecoder {
    type V = Knowledge;

    closed spec fn view(&self) -> Knowledge {
        knowledge(self.segments@, self.digits@)
    }
}

/// What a search that ended with `r` has found.
pub open spec fn outcome(r: Result<SevenSegDecoder, DecodeError>) -> Result<Knowledge, DecodeError> {
    match r {
        Ok(decoder) => Ok(decoder@),
        Err(e) => Err(e),
    }
}

impl SevenSegDecoder {
    #[verifier::type_invariant]
    spec fn well_formed(&self) -> bool {
        self.segments.len() == 7 && table_wf(self.digits@) && decimal(self.digits@)
    }

    /// Runs the search on `words` in the order given: takes every word in,
    /// then makes passes over the undecided words until all are decided.
    ///
    /// Fails with `MalformedCodeword` where a word lights fewer than two or
    /// more than seven wires, and with `UnsolvableConstraints` where a pass
    /// decides no word.
    pub fn from_ordered(words: &Vec<&str>) -> (r: Result<SevenSegDecoder, DecodeError>)
        requires
            forall|i: int| 0 <= i < words.len() ==> all_wires((#[trigger] words[i])@),
        ensures
            outcome(r) == build(texts(words@)),
            r matches Ok(decoder) ==> forall|i: int|
                0 <= i < words.len() ==> reading(decoder@.digits, (#[trigger] words[i])@.to_set()) is Ok,
    {
        let ghost all = texts(words@);
        let mut segments: Vec<Segment> = Vec::new();
        let mut w: usize = 0;
        while w < 7
            invariant
                w <= 7,
                segments.len() == w,
                forall|k: int| 0 <= k < w ==> (#[trigger] segments[k])@ == crate::alphabet::segments(),
            decreases 7 - w,
        {
            segments.push(Segment::new());
            w += 1;
        }
        let mut digits: Vec<(Vec<char>, Digit)> = Vec::new();
        let mut pending: Vec<Vec<char>> = Vec::new();
        proof {
            assert(candidates_of(segments@) =~= unconstrained());
            assert(all.take(0) =~= Seq::<Seq<char>>::empty());
            assert(keys_of(pending@) =~= Seq::<Set<char>>::empty());
        }
        // The words of known digit rule out most of the wiring.
        let mut i: usize = 0;
        while i < words.len()
            invariant
                i <= words.len(),
                all == texts(words@),
                forall|k: int| 0 <= k < words.len() ==> all_wires((#[trigger] words[k])@),
                segments.len() == 7,
                table_wf(digits@),
                decimal(digits@),
                spelled(pending@),
                knowledge(segments@, digits@) == intake(all.take(i as int)),
                keys_of(pending@) == pending_after(all.take(i as int)),
                forall|k: int|
                    0 <= k < i ==> !(crate::digit::classify((#[trigger] all[k]).to_set().len()) is Invalid),
            decreases words.len() - i,
        {
            proof {
                assert(all.take(i + 1).drop_last() =~= all.take(i as int));
                assert(all.take(i + 1).last() == words[i as int]@);
                assert(all[i as int] == words[i as int]@);
            }
            let valid = take_in_word(words[i], &mut segments, &mut digits, &mut pending);
            if !valid {
                assert(malformed(all));
                return Err(DecodeError::MalformedCodeword);
            }
            i += 1;
        }
        proof {
            assert(all.take(i as int) =~= all);
            assert(!malformed(all));
        }
        // Then the rest is ground out, pass by pass.
        while pending.len() > 0
            invariant
                all == texts(words@),
                !malformed(all),
                segments.len() == 7,
                table_wf(digits@),
                decimal(digits@),
                spelled(pending@),
                solve(knowledge(segments@, digits@), keys_of(pending@)) == solve(
                    intake(all),
                    pending_after(all),
                ),
            decreases pending.len(),
        {
            let rest = pass(&pending, &mut segments, &mut digits);
            if rest.len() >= pending.len() {
                return Err(DecodeError::UnsolvableConstraints);
            }
            pending = rest;
        }
        proof {
            law_success_decides_every_word(all);
            assert forall|i: int| 0 <= i < words.len() implies reading(
                knowledge(segments@, digits@).digits,
                (#[trigger] words[i])@.to_set(),
            ) is Ok by {
                assert(all[i] == words[i]@);
            }
        }
        Ok(SevenSegDecoder { segments, digits })
    }

    /// The words of `inputs` with the shortest first; which of two words of
    /// one length comes first is not fixed.
    pub fn by_length<'a>(inputs: &Vec<&'a str>) -> (r: Vec<&'a str>)
        ensures
            rearranges(texts(r@), texts(inputs@)),
            shortest_first(r@),
    {
        sorted_unstable_by_length(inputs)
    }

    /// Builds the decoder of one line from its input words, taken shortest
    /// first; which of two words of one length is taken first is not fixed.
    ///
    /// Fails with `MalformedCodeword` where a word lights fewer than two or
    /// more than seven wires, and with `UnsolvableConstraints` where a pass
    /// over the undecided words decides none.
    pub fn new(inputs: &Vec<&str>) -> (r: Result<SevenSegDecoder, DecodeError>)
        requires
            forall|i: int| 0 <= i < inputs.len() ==> all_wires((#[trigger] inputs[i])@),
        ensures
            exists|order: Seq<&str>|
                rearranges(texts(order), texts(inputs@)) && shortest_first(order) && outcome(r) == build(
                    #[trigger] texts(order),
                ),
            r == Err::<SevenSegDecoder, DecodeError>(DecodeError::MalformedCodeword) <==> malformed(
                texts(inputs@),
            ),
            forall|wiring: Seq<char>|
                is_wiring(wiring) && #[trigger] shows_digits(texts(inputs@), wiring) ==> (outcome(r) matches Ok(
                    found,
                ) && solved_by(found, wiring)),
            r matches Ok(decoder) ==> forall|i: int|
                0 <= i < inputs.len() ==> reading(decoder@.digits, (#[trigger] inputs[i])@.to_set()) is Ok,
    {
        let inp = Self::by_length(inputs);
        proof {
            let order = texts(inp@);
            let given = texts(inputs@);
            assert forall|wiring: Seq<char>| is_wiring(wiring) && #[trigger] shows_digits(given, wiring) implies (
            build(order) matches Ok(found) && solved_by(found, wiring)) by {
                lemma_shows_digits_rearranged(order, given, wiring);
                law_genuine_display_is_solved(order, wiring);
            }
            assert forall|i: int| 0 <= i < inp.len() implies all_wires((#[trigger] inp[i])@) by {
                assert(order[i] == inp[i]@);
                vstd::seq_lib::to_multiset_contains(order, order[i]);
                vstd::seq_lib::to_multiset_contains(given, order[i]);
                let k = choose|k: int| 0 <= k < given.len() && given[k] == order[i];
                assert(given[k] == inputs[k]@);
            }
            lemma_malformed_rearranged(order, given);
            law_success_decides_every_word(order);
            if let Ok(found) = build(order) {
                assert forall|i: int| 0 <= i < inputs.len() implies reading(
                    found.digits,
                    (#[trigger] inputs[i])@.to_set(),
                ) is Ok by {
                    assert(given[i] == inputs[i]@);
                    vstd::seq_lib::to_multiset_contains(given, given[i]);
                    vstd::seq_lib::to_multiset_contains(order, given[i]);
                    let k = choose|k: int| 0 <= k < order.len() && order[k] == given[i];
                    assert(reading(found.digits, order[k].to_set()) is Ok);
                }
            }
            if !malformed(order) {
                lemma_solve_fails_unsolvable(intake(order), pending_after(order));
            }
        }
        Self::from_ordered(&inp)
    }

    /// The digit of the input word that lights the same wires as `code`, in
    /// whatever order `code` names them.
    ///
    /// Fails with `UnrecognizedOutput` where no input word lights those
    /// wires, or where the word's digit was never decided.
    pub fn decode(&self, code: &str) -> (r: Result<u8, DecodeError>)
        ensures
            r == reading(self@.digits, code@.to_set()),
            r matches Ok(digit) ==> digit <= 9,
    {
        proof {
            use_type_invariant(self);
            lemma_table_dom(self.digits@);
        }
        let sorted_code = Self::hashset_to_str(&Self::str_to_hashset(code));
        match find_entry(&self.digits, &sorted_code) {
            Some(at) => {
                proof {
                    lemma_table_at(self.digits@, at as int);
                }
                match &self.digits[at].1 {
                    Digit::Decided(num) => Ok(*num),
                    _ => Err(DecodeError::UnrecognizedOutput),
                }
            },
            None => {
                proof {
                    let on = code@.to_set();
                    if self@.digits.dom().contains(on) {
                        let i = choose|i: int|
                            0 <= i < self.digits.len() && (#[trigger] self.digits[i]).0@.to_set() == on;
                        lemma_one_sorted_spelling(self.digits[i].0@, sorted_code@);
                    }
                }
                Err(DecodeError::UnrecognizedOutput)
            },
        }
    }

    /// The segments that `wire` may still drive; `None` where `wire` is not
    /// a wire label.
    pub fn candidates(&self, wire: char) -> (r: Option<Vec<char>>)
        ensures
            r is Some <==> is_wire(wire),
            r matches Some(list) ==> list@.to_set() == self@.candidates[wire_index(wire)],
    {
        proof {
            use_type_invariant(self);
        }
        if is_wire_label(wire) {
            Some(self.segments[wire_position(wire)].candidates.clone())
        } else {
            None
        }
    }
}

} // verus!
