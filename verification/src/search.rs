//! The steps of the search on the decoder's two tables, each proved to do
//! what the model says.

use std::collections::HashSet;
use vstd::prelude::*;
use crate::alphabet::all_wires;
use crate::charseq::{
    lemma_one_sorted_spelling, lemma_strictly_ascending_distinct, strictly_ascending,
};
use crate::digit::{classify, lemma_digit_set_finite, lemma_sole, Digit, DigitState};
use crate::expansion::{lemma_expand_word, listed, shown, tidy};
use crate::model::{
    attempt, confirmed, expand, left_over, lit, pattern, plausible, sweep, take_in, verdict,
    Knowledge,
};
use crate::patterns::lemma_pattern_sorted;
use crate::segment::Segment;
use crate::sevensegdecoder::SevenSegDecoder;
use crate::table::{
    decimal, find_entry, lemma_table_at, lemma_table_dom, lemma_table_push, lemma_table_update,
    table_map, table_wf,
};
use crate::wiring::candidates_of;

verus! {

/// What the two tables stand for.
pub open spec fn knowledge(segments: Seq<Segment>, digits: Seq<(Vec<char>, Digit)>) -> Knowledge {
    Knowledge { candidates: candidates_of(segments), digits: table_map(digits) }
}

/// The sets of wires that the words of a list light, in the list's order.
pub open spec fn keys_of(list: Seq<Vec<char>>) -> Seq<Set<char>> {
    Seq::new(list.len(), |i: int| list[i]@.to_set())
}

/// Every word of the list is a sorted spelling in wire labels.
pub open spec fn spelled(list: Seq<Vec<char>>) -> bool {
    forall|i: int|
        0 <= i < list.len() ==> strictly_ascending((#[trigger] list[i])@) && all_wires(list[i]@)
}

/// The plausible digits whose pattern the word `key` could light.
pub(crate) fn confirm(
    key: &Vec<char>,
    plausible_digits: &HashSet<u8>,
    segments: &Vec<Segment>,
) -> (matching: Vec<u8>)
    requires
        segments.len() == 7,
        all_wires(key@),
        strictly_ascending(key@),
    ensures
        matching@.no_duplicates(),
        matching@.to_set() == confirmed(candidates_of(segments@), key@.to_set(), plausible_digits@),
{
    broadcast use vstd::std_specs::hash::group_hash_axioms;
    let ghost wiring = candidates_of(segments@);
    let ghost on = key@.to_set();
    let plausible_clear_strings = SevenSegDecoder::all_possibilities(key, segments);
    proof {
        lemma_strictly_ascending_distinct(key@);
        lemma_expand_word(wiring, key@);
    }
    let mut matching: Vec<u8> = Vec::new();
    let mut d: u8 = 0;
    while d < 10
        invariant
            d <= 10,
            tidy(plausible_clear_strings@),
            shown(plausible_clear_strings@) == expand(wiring, on),
            forall|k: int| 0 <= k < matching.len() ==> matching@[k] < d,
            forall|a: int, b: int| 0 <= a < b < matching.len() ==> matching@[a] < matching@[b],
            forall|e: u8|
                e < d ==> (matching@.contains(e) <==> confirmed(wiring, on, plausible_digits@).contains(e)),
        decreases 10 - d,
    {
        let ghost before = matching@;
        let mut hit = false;
        if plausible_digits.contains(&d) {
            let valid_digit_string = SevenSegDecoder::hashset_to_str(&SevenSegDecoder::digit_to_segments(d));
            proof {
                lemma_pattern_sorted(d);
                lemma_one_sorted_spelling(valid_digit_string@, pattern(d));
            }
            hit = listed(&plausible_clear_strings, &valid_digit_string);
            proof {
                if hit {
                    let i = choose|i: int|
                        0 <= i < plausible_clear_strings.len() && (#[trigger] plausible_clear_strings[i])@
                            == valid_digit_string@;
                    assert(plausible_clear_strings[i]@.to_set() == lit(d));
                    assert(shown(plausible_clear_strings@).contains(lit(d)));
                }
                if shown(plausible_clear_strings@).contains(lit(d)) {
                    let i = choose|i: int|
                        0 <= i < plausible_clear_strings.len() && (#[trigger] plausible_clear_strings[i])@.to_set()
                            == lit(d);
                    lemma_one_sorted_spelling(plausible_clear_strings[i]@, pattern(d));
                }
            }
            if hit {
                matching.push(d);
            }
        }
        proof {
            assert(hit <==> confirmed(wiring, on, plausible_digits@).contains(d));
            assert forall|e: u8| e < d + 1 implies (matching@.contains(e) <==> confirmed(
                wiring,
                on,
                plausible_digits@,
            ).contains(e)) by {
                if matching@.contains(e) {
                    let k = choose|k: int| 0 <= k < matching@.len() && matching@[k] == e;
                    if k < before.len() {
                        assert(before[k] == e);
                    }
                }
                if e < d && before.contains(e) {
                    let k = choose|k: int| 0 <= k < before.len() && before[k] == e;
                    assert(matching@[k] == e);
                }
                if e == d && hit {
                    assert(matching@[matching@.len() - 1] == d);
                }
            }
        }
        d += 1;
    }
    proof {
        assert forall|e: u8| matching@.to_set().contains(e) <==> confirmed(
            wiring,
            on,
            plausible_digits@,
        ).contains(e) by {
            if matching@.contains(e) {
                let k = choose|k: int| 0 <= k < matching@.len() && matching@[k] == e;
                assert(e < 10);
            }
        }
        assert(matching@.to_set() =~= confirmed(wiring, on, plausible_digits@));
    }
    matching
}

/// One attempt at the pending word `key`: where exactly one plausible digit
/// is confirmed, the word is decided and the candidates are narrowed.
pub(crate) fn attempt_word(
    key: &Vec<char>,
    segments: &mut Vec<Segment>,
    digits: &mut Vec<(Vec<char>, Digit)>,
) -> (resolved: bool)
    requires
        old(segments).len() == 7,
        table_wf(old(digits)@),
        decimal(old(digits)@),
        strictly_ascending(key@),
        all_wires(key@),
    ensures
        final(segments).len() == 7,
        table_wf(final(digits)@),
        decimal(final(digits)@),
        knowledge(final(segments)@, final(digits)@) == attempt(
            knowledge(old(segments)@, old(digits)@),
            key@.to_set(),
        ),
        resolved == (verdict(knowledge(old(segments)@, old(digits)@), key@.to_set()) is Some),
{
    let ghost k0 = knowledge(segments@, digits@);
    let ghost on = key@.to_set();
    proof {
        lemma_table_dom(digits@);
        lemma_digit_set_finite(confirmed(k0.candidates, on, plausible(k0, on)));
    }
    let found = find_entry(digits, key);
    let at = match found {
        Some(at) => at,
        None => {
            proof {
                if k0.digits.dom().contains(on) {
                    let i = choose|i: int| 0 <= i < digits.len() && (#[trigger] digits[i]).0@.to_set() == on;
                    lemma_one_sorted_spelling(digits[i].0@, key@);
                }
                assert(confirmed(k0.candidates, on, plausible(k0, on)) =~= Set::<u8>::empty());
            }
            return false;
        },
    };
    proof {
        lemma_table_at(digits@, at as int);
    }
    let matching: Vec<u8> = match &digits[at].1 {
        Digit::Undecided(plausible_digits) => confirm(key, plausible_digits, segments),
        _ => {
            proof {
                assert(confirmed(k0.candidates, on, plausible(k0, on)) =~= Set::<u8>::empty());
            }
            Vec::new()
        },
    };
    proof {
        assert(matching@.to_set() =~= confirmed(k0.candidates, on, plausible(k0, on)));
        matching@.unique_seq_to_set();
    }
    if matching.len() == 1 {
        let real_digit = matching[0];
        proof {
            assert(matching@.to_set().contains(real_digit));
            lemma_sole(matching@.to_set(), real_digit);
        }
        SevenSegDecoder::update_segments(key, real_digit, segments);
        let ghost entry = (digits[at as int].0, Digit::Decided(real_digit));
        proof {
            lemma_table_update(digits@, at as int, entry);
        }
        digits[at].1 = Digit::Decided(real_digit);
        assert(digits@ =~= old(digits)@.update(at as int, entry));
        assert(decimal(digits@)) by {
            assert forall|i: int| 0 <= i < digits.len() implies ((#[trigger] digits[i]).1@ matches DigitState::Decided(
                d,
            ) ==> d <= 9) by {
                if i != at {
                    assert(digits[i] == old(digits)[i]);
                }
            }
        }
        true
    } else {
        false
    }
}

/// Takes in one input word: classifies it by the number of wires it lights,
/// narrows the candidates where that decides the digit, and enters it in the
/// table; a word that is new and undecided joins the pending list. Returns
/// `false`, and changes nothing, for a word that no digit can show.
pub(crate) fn take_in_word(
    word: &str,
    segments: &mut Vec<Segment>,
    digits: &mut Vec<(Vec<char>, Digit)>,
    pending: &mut Vec<Vec<char>>,
) -> (valid: bool)
    requires
        all_wires(word@),
        old(segments).len() == 7,
        table_wf(old(digits)@),
        decimal(old(digits)@),
        spelled(old(pending)@),
    ensures
        valid == !(classify(word@.to_set().len()) is Invalid),
        final(segments).len() == 7,
        table_wf(final(digits)@),
        decimal(final(digits)@),
        spelled(final(pending)@),
        valid ==> knowledge(final(segments)@, final(digits)@) == take_in(
            knowledge(old(segments)@, old(digits)@),
            word@,
        ),
        valid ==> keys_of(final(pending)@) == if classify(word@.to_set().len()) is Undecided
            && !table_map(old(digits)@).dom().contains(word@.to_set()) {
            keys_of(old(pending)@).push(word@.to_set())
        } else {
            keys_of(old(pending)@)
        },
        !valid ==> final(segments)@ == old(segments)@,
        !valid ==> final(digits)@ == old(digits)@,
        !valid ==> final(pending)@ == old(pending)@,
{
    let ghost k0 = knowledge(segments@, digits@);
    let ghost on = word@.to_set();
    let input = SevenSegDecoder::str_to_hashset(word);
    proof {
        input@.unique_seq_to_set();
        assert forall|i: int| 0 <= i < input@.len() implies crate::alphabet::is_wire(#[trigger] input@[i]) by {
            assert(input@.to_set().contains(input@[i]));
            let j = choose|j: int| 0 <= j < word@.len() && word@[j] == input@[i];
            assert(crate::alphabet::is_wire(word@[j]));
        }
    }
    let dig = SevenSegDecoder::lookup_digits(&input);
    match &dig {
        Digit::Invalid => {
            return false;
        },
        Digit::Decided(n) => {
            SevenSegDecoder::update_segments(&input, *n, segments);
        },
        Digit::Undecided(_) => {},
    }
    let sr = SevenSegDecoder::hashset_to_str(&input);
    proof {
        lemma_table_dom(digits@);
        assert forall|i: int| 0 <= i < sr@.len() implies crate::alphabet::is_wire(#[trigger] sr@[i]) by {
            assert(sr@.to_set().contains(sr@[i]));
            let j = choose|j: int| 0 <= j < input@.len() && input@[j] == sr@[i];
        }
    }
    let undecided = dig.is_undecided();
    match find_entry(digits, &sr) {
        Some(at) => {
            let ghost entry = (digits[at as int].0, dig);
            proof {
                lemma_table_update(digits@, at as int, entry);
                assert(digits[at as int].0@.to_set() == on);
            }
            digits[at].1 = dig;
            assert(digits@ =~= old(digits)@.update(at as int, entry));
            assert(decimal(digits@)) by {
                assert forall|i: int| 0 <= i < digits.len() implies ((#[trigger] digits[i]).1@ matches DigitState::Decided(
                    d,
                ) ==> d <= 9) by {
                    if i != at {
                        assert(digits[i] == old(digits)[i]);
                    }
                }
            }
        },
        None => {
            proof {
                lemma_table_push(digits@, (sr, dig));
                if table_map(digits@).dom().contains(on) {
                    let i = choose|i: int| 0 <= i < digits.len() && (#[trigger] digits[i]).0@.to_set() == on;
                    lemma_one_sorted_spelling(digits[i].0@, sr@);
                }
            }
            if undecided {
                let ghost before = pending@;
                pending.push(sr.clone());
                proof {
                    assert(keys_of(pending@) =~= keys_of(before).push(on));
                    assert forall|i: int| 0 <= i < pending.len() implies strictly_ascending(
                        (#[trigger] pending[i])@,
                    ) && all_wires(pending[i]@) by {
                        if i < before.len() {
                            assert(pending[i] == before[i]);
                        }
                    }
                }
            }
            digits.push((sr, dig));
            assert(decimal(digits@)) by {
                assert forall|i: int| 0 <= i < digits.len() implies ((#[trigger] digits[i]).1@ matches DigitState::Decided(
                    d,
                ) ==> d <= 9) by {
                    if i < old(digits).len() {
                        assert(digits[i] == old(digits)[i]);
                    }
                }
            }
        },
    }
    true
}

/// One pass over the pending words, an attempt at each in turn. Returns the
/// words that stay pending.
pub(crate) fn pass(
    pending: &Vec<Vec<char>>,
    segments: &mut Vec<Segment>,
    digits: &mut Vec<(Vec<char>, Digit)>,
) -> (rest: Vec<Vec<char>>)
    requires
        old(segments).len() == 7,
        table_wf(old(digits)@),
        decimal(old(digits)@),
        spelled(pending@),
    ensures
        final(segments).len() == 7,
        table_wf(final(digits)@),
        decimal(final(digits)@),
        spelled(rest@),
        knowledge(final(segments)@, final(digits)@) == sweep(
            knowledge(old(segments)@, old(digits)@),
            keys_of(pending@),
        ),
        keys_of(rest@) == left_over(knowledge(old(segments)@, old(digits)@), keys_of(pending@)),
{
    let ghost k0 = knowledge(segments@, digits@);
    let ghost keys = keys_of(pending@);
    let mut rest: Vec<Vec<char>> = Vec::new();
    let mut i: usize = 0;
    proof {
        assert(keys.take(0) =~= Seq::<Set<char>>::empty());
        assert(keys_of(rest@) =~= Seq::<Set<char>>::empty());
    }
    while i < pending.len()
        invariant
            i <= pending.len(),
            segments.len() == 7,
            table_wf(digits@),
            decimal(digits@),
            spelled(pending@),
            spelled(rest@),
            keys == keys_of(pending@),
            knowledge(segments@, digits@) == sweep(k0, keys.take(i as int)),
            keys_of(rest@) == left_over(k0, keys.take(i as int)),
        decreases pending.len() - i,
    {
        proof {
            assert(keys.take(i + 1).drop_last() =~= keys.take(i as int));
            assert(keys.take(i + 1).last() == pending[i as int]@.to_set());
        }
        let resolved = attempt_word(&pending[i], segments, digits);
        if !resolved {
            let ghost before = rest@;
            rest.push(pending[i].clone());
            proof {
                assert(keys_of(rest@) =~= keys_of(before).push(pending[i as int]@.to_set()));
                assert forall|a: int| 0 <= a < rest.len() implies strictly_ascending((#[trigger] rest[a])@)
                    && all_wires(rest[a]@) by {
                    if a < before.len() {
                        assert(rest[a] == before[a]);
                    }
                }
            }
        }
        i += 1;
    }
    proof {
        assert(keys.take(i as int) =~= keys);
    }
    rest
}

} // verus!
