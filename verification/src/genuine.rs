//! A display that really shows the ten digits through some wiring is always
//! solved, and solved rightly.

use vstd::prelude::*;
use crate::alphabet::{
    is_segment, is_wire, lemma_segment_labels, lemma_wire_labels, segments, wire_index,
    wire_labels,
};
use crate::error::DecodeError;
use crate::digit::{classify, lemma_digit_set_finite, lemma_sole, sole, DigitState};
use crate::laws::{law_assign_narrows, narrows};
use crate::model::{
    assign, attempt, build, confirmed, expand, fits, image, intake, left_over, lit, malformed,
    pattern, pending_after, plausible, reading, solve, sweep, take_in, unconstrained, verdict,
    Knowledge,
};
use crate::patterns::{lemma_pattern_sorted, lemma_patterns_differ};

verus! {

/// Whether digit `d` lights segment `s`, read off the seven-segment display.
pub open spec fn lights(d: u8, s: char) -> bool {
    if s == 'A' {
        d == 0 || d == 2 || d == 3 || d == 5 || d == 6 || d == 7 || d == 8 || d == 9
    } else if s == 'B' {
        d == 0 || d == 4 || d == 5 || d == 6 || d == 8 || d == 9
    } else if s == 'C' {
        d == 0 || d == 1 || d == 2 || d == 3 || d == 4 || d == 7 || d == 8 || d == 9
    } else if s == 'D' {
        d == 2 || d == 3 || d == 4 || d == 5 || d == 6 || d == 8 || d == 9
    } else if s == 'E' {
        d == 0 || d == 2 || d == 6 || d == 8
    } else if s == 'F' {
        d == 0 || d == 1 || d == 3 || d == 4 || d == 5 || d == 6 || d == 7 || d == 8 || d == 9
    } else if s == 'G' {
        d == 0 || d == 2 || d == 3 || d == 5 || d == 6 || d == 8 || d == 9
    } else {
        false
    }
}

/// The patterns, segment by segment.
pub proof fn lemma_lit(d: u8)
    ensures
        forall|s: char| lit(d).contains(s) <==> lights(d, s),
        forall|s: char| lit(d).contains(s) ==> is_segment(s),
{
    let p = pattern(d);
    assert forall|s: char| lit(d).contains(s) <==> lights(d, s) by {
        if p.contains(s) {
            let i = choose|i: int| 0 <= i < p.len() && p[i] == s;
            assert(p[i] == s);
        }
        if lights(d, s) {
            if s == 'A' {
                assert(p[0] == s);
            } else if s == 'B' {
                assert(p[0] == s || p[1] == s);
            } else if s == 'C' {
                assert(p[0] == s || p[1] == s || p[2] == s);
            } else if s == 'D' {
                assert(p[1] == s || p[2] == s || p[3] == s);
            } else if s == 'E' {
                assert(p[3] == s || p[4] == s);
            } else if s == 'F' {
                assert(p[1] == s || p[2] == s || p[3] == s || p[4] == s || p[5] == s);
            } else {
                assert(p[4] == s || p[5] == s || p[6] == s);
            }
        }
    }
}

/// `wiring` says for each wire, by its position, which segment it drives:
/// every segment is driven by exactly one wire.
pub open spec fn is_wiring(wiring: Seq<char>) -> bool {
    &&& wiring.len() == 7
    &&& wiring.no_duplicates()
    &&& forall|w: int| 0 <= w < 7 ==> is_segment(#[trigger] wiring[w])
}

/// The wires that are lit when a display wired by `wiring` shows `d`.
pub open spec fn scrambled(wiring: Seq<char>, d: u8) -> Set<char> {
    Set::new(|c: char| is_wire(c) && lit(d).contains(wiring[wire_index(c)]))
}

/// The wire that drives segment `s`.
pub open spec fn wire_of(wiring: Seq<char>, s: char) -> char {
    wire_labels()[wiring.index_of(s)]
}

/// Every segment has its wire.
pub proof fn lemma_wire_of(wiring: Seq<char>, s: char)
    requires
        is_wiring(wiring),
        is_segment(s),
    ensures
        0 <= wiring.index_of(s) < 7,
        wiring[wiring.index_of(s)] == s,
        is_wire(wire_of(wiring, s)),
        wire_index(wire_of(wiring, s)) == wiring.index_of(s),
        wiring[wire_index(wire_of(wiring, s))] == s,
{
    lemma_segment_labels();
    lemma_wire_labels();
    wiring.unique_seq_to_set();
    vstd::seq_lib::seq_to_set_is_finite(wiring);
    assert(wiring.to_set().subset_of(segments())) by {
        assert forall|c: char| wiring.to_set().contains(c) implies segments().contains(c) by {
            let w = choose|w: int| 0 <= w < wiring.len() && wiring[w] == c;
            assert(is_segment(wiring[w]));
        }
    }
    vstd::set_lib::lemma_subset_equality(wiring.to_set(), segments());
    assert(segments().contains(s));
    assert(wiring.contains(s));
}

/// A digit lights as many wires as segments.
pub proof fn lemma_scrambled_size(wiring: Seq<char>, d: u8)
    requires
        is_wiring(wiring),
        d <= 9,
    ensures
        scrambled(wiring, d).finite(),
        scrambled(wiring, d).len() == pattern(d).len(),
{
    lemma_lit(d);
    lemma_pattern_sorted(d);
    lemma_wire_labels();
    let f = |s: char| wire_of(wiring, s);
    assert(vstd::relations::injective_on(f, lit(d))) by {
        assert forall|a: char, b: char|
            lit(d).contains(a) && lit(d).contains(b) && #[trigger] f(a) == #[trigger] f(b) implies a
            == b by {
            lemma_wire_of(wiring, a);
            lemma_wire_of(wiring, b);
        }
    }
    assert forall|c: char| lit(d).map(f).contains(c) <==> scrambled(wiring, d).contains(c) by {
        if lit(d).map(f).contains(c) {
            let s = choose|s: char| lit(d).contains(s) && c == f(s);
            lemma_wire_of(wiring, s);
        }
        if scrambled(wiring, d).contains(c) {
            let s = wiring[wire_index(c)];
            lemma_wire_of(wiring, s);
            assert(wiring.index_of(s) == wire_index(c));
            assert(f(s) == c);
        }
    }
    assert(lit(d).map(f) =~= scrambled(wiring, d));
    vstd::set_lib::lemma_map_size(lit(d), scrambled(wiring, d), f);
}

/// Two digits light different wires.
pub proof fn lemma_scrambled_differ(wiring: Seq<char>, d: u8, e: u8)
    requires
        is_wiring(wiring),
        d <= 9,
        e <= 9,
        scrambled(wiring, d) == scrambled(wiring, e),
    ensures
        d == e,
{
    lemma_lit(d);
    lemma_lit(e);
    assert forall|s: char| lit(d).contains(s) <==> lit(e).contains(s) by {
        if is_segment(s) {
            lemma_wire_of(wiring, s);
            let c = wire_of(wiring, s);
            assert(scrambled(wiring, d).contains(c) <==> lit(d).contains(s));
            assert(scrambled(wiring, e).contains(c) <==> lit(e).contains(s));
        }
    }
    assert(lit(d) =~= lit(e));
    lemma_patterns_differ(d, e);
}

/// An image has no more members than the set it is the image of.
pub proof fn lemma_image_size(on: Set<char>, sub: Map<char, char>)
    requires
        on.finite(),
    ensures
        image(on, sub).finite(),
        image(on, sub).len() <= on.len(),
{
    let f = |w: char| sub[w];
    assert(on.map(f) =~= image(on, sub));
    vstd::set_lib::lemma_map_size_bound(on, image(on, sub), f);
}

/// The candidates leave the true segment of every wire in, and hold
/// segments only.
pub open spec fn sound(candidates: Seq<Set<char>>, wiring: Seq<char>) -> bool {
    &&& candidates.len() == 7
    &&& forall|w: int|
        0 <= w < 7 ==> (#[trigger] candidates[w]).contains(wiring[w]) && candidates[w].subset_of(
            segments(),
        )
}

/// The candidates have taken digit `d` into account: what a wire may still
/// drive is lit by `d` exactly if what it does drive is.
pub open spec fn told(candidates: Seq<Set<char>>, wiring: Seq<char>, d: u8) -> bool {
    forall|w: int, s: char|
        0 <= w < 7 && #[trigger] candidates[w].contains(s) ==> (lit(d).contains(s) <==> lit(d).contains(
            wiring[w],
        ))
}

/// What the candidates were told they still know when narrowed.
pub proof fn lemma_told_stays(before: Seq<Set<char>>, after: Seq<Set<char>>, wiring: Seq<char>, d: u8)
    requires
        before.len() == 7,
        crate::laws::narrows(before, after),
        told(before, wiring, d),
    ensures
        told(after, wiring, d),
{
    assert forall|w: int, s: char| 0 <= w < 7 && #[trigger] after[w].contains(s) implies (lit(d).contains(s)
        <==> lit(d).contains(wiring[w])) by {
        assert(after[w].subset_of(before[w]));
        assert(before[w].contains(s));
    }
}

/// Learning a true fact keeps the candidates sound and tells them the digit.
pub proof fn lemma_assign_true(candidates: Seq<Set<char>>, wiring: Seq<char>, d: u8)
    requires
        is_wiring(wiring),
        sound(candidates, wiring),
    ensures
        sound(assign(candidates, scrambled(wiring, d), d), wiring),
        told(assign(candidates, scrambled(wiring, d), d), wiring, d),
{
    let on = scrambled(wiring, d);
    let after = assign(candidates, on, d);
    lemma_wire_labels();
    assert forall|w: int| 0 <= w < 7 implies (#[trigger] after[w]).contains(wiring[w]) && after[w].subset_of(
        segments(),
    ) by {
        assert(candidates[w].contains(wiring[w]) && candidates[w].subset_of(segments()));
        assert(wire_index(wire_labels()[w]) == w);
        assert(on.contains(wire_labels()[w]) <==> lit(d).contains(wiring[w]));
    }
    assert forall|w: int, s: char| 0 <= w < 7 && #[trigger] after[w].contains(s) implies (lit(d).contains(s)
        <==> lit(d).contains(wiring[w])) by {
        assert(candidates[w].contains(wiring[w]) && candidates[w].subset_of(segments()));
        assert(wire_index(wire_labels()[w]) == w);
        assert(on.contains(wire_labels()[w]) <==> lit(d).contains(wiring[w]));
        assert(candidates[w].contains(s));
        assert(segments().contains(s));
    }
}

/// Under sound candidates a word could light the pattern of its digit.
pub proof fn lemma_true_image(candidates: Seq<Set<char>>, wiring: Seq<char>, d: u8)
    requires
        is_wiring(wiring),
        sound(candidates, wiring),
        d <= 9,
    ensures
        expand(candidates, scrambled(wiring, d)).contains(lit(d)),
{
    let on = scrambled(wiring, d);
    let sub = Map::new(|c: char| is_wire(c), |c: char| wiring[wire_index(c)]);
    lemma_wire_labels();
    lemma_lit(d);
    assert(fits(candidates, on, sub)) by {
        assert forall|c: char| on.contains(c) implies sub.dom().contains(c) && candidates[wire_index(
            c,
        )].contains(#[trigger] sub[c]) by {
            assert(candidates[wire_index(c)].contains(wiring[wire_index(c)]));
        }
    }
    assert forall|s: char| lit(d).contains(s) <==> image(on, sub).contains(s) by {
        if lit(d).contains(s) {
            lemma_wire_of(wiring, s);
            let c = wire_of(wiring, s);
            assert(on.contains(c) && sub[c] == s);
        }
        if image(on, sub).contains(s) {
            let c = choose|c: char| on.contains(c) && #[trigger] sub[c] == s;
        }
    }
    assert(lit(d) =~= image(on, sub));
    lemma_scrambled_size(wiring, d);
    lemma_pattern_sorted(d);
    assert(fits(candidates, on, sub) && lit(d) == image(on, sub) && lit(d).finite() && lit(d).len() == on.len());
}

/// The two segments are lit alike by the digits 1, 4 and 7, the digits that
/// every search knows from the start.
pub open spec fn alike(s: char, t: char) -> bool {
    &&& lights(1, s) == lights(1, t)
    &&& lights(4, s) == lights(4, t)
    &&& lights(7, s) == lights(7, t)
}

/// The digits that light five segments, or six, as `d` does.
pub open spec fn rivals(d: u8) -> Set<u8> {
    if pattern(d).len() == 5 {
        set![2u8, 3u8, 5u8]
    } else {
        set![0u8, 6u8, 9u8]
    }
}

/// The digits that the number of lit segments leaves undecided.
pub open spec fn ambiguous(d: u8) -> bool {
    d == 0 || d == 2 || d == 3 || d == 5 || d == 6 || d == 9
}

/// Once the candidates know 1, 4 and 7, the word of `d` cannot light the
/// pattern of `e` if `d` lights two segments `k1` and `k2` that are alike
/// and `e` lights only one segment like them: two wires would have to drive
/// that one.
proof fn lemma_false_image(candidates: Seq<Set<char>>, wiring: Seq<char>, d: u8, e: u8, k1: char, k2: char)
    requires
        is_wiring(wiring),
        sound(candidates, wiring),
        told(candidates, wiring, 1),
        told(candidates, wiring, 4),
        told(candidates, wiring, 7),
        d <= 9,
        k1 != k2,
        lights(d, k1),
        lights(d, k2),
        forall|s: char, t: char|
            lights(e, s) && lights(e, t) && alike(s, k1) && alike(t, k2) ==> s == t,
    ensures
        !expand(candidates, scrambled(wiring, d)).contains(lit(e)),
{
    let on = scrambled(wiring, d);
    if expand(candidates, on).contains(lit(e)) {
        let sub = choose|sub: Map<char, char>| #[trigger]
            fits(candidates, on, sub) && lit(e) == image(on, sub) && lit(e).finite() && lit(e).len()
                == on.len();
        lemma_lit(d);
        lemma_lit(e);
        lemma_lit(1);
        lemma_lit(4);
        lemma_lit(7);
        lemma_wire_of(wiring, k1);
        lemma_wire_of(wiring, k2);
        let w1 = wire_of(wiring, k1);
        let w2 = wire_of(wiring, k2);
        assert(on.contains(w1) && on.contains(w2));
        let s1 = sub[w1];
        let s2 = sub[w2];
        assert(candidates[wire_index(w1)].contains(s1));
        assert(candidates[wire_index(w2)].contains(s2));
        assert(image(on, sub).contains(s1));
        assert(image(on, sub).contains(s2));
        assert(alike(s1, k1));
        assert(alike(s2, k2));
        assert(s1 == s2);
        let fewer = on.remove(w2);
        assert forall|s: char| image(on, sub).contains(s) implies image(fewer, sub).contains(s) by {
            let c = choose|c: char| on.contains(c) && #[trigger] sub[c] == s;
            if c == w2 {
                assert(fewer.contains(w1) && sub[w1] == s);
            } else {
                assert(fewer.contains(c) && sub[c] == s);
            }
        }
        assert forall|s: char| image(fewer, sub).contains(s) implies image(on, sub).contains(s) by {
            let c = choose|c: char| fewer.contains(c) && #[trigger] sub[c] == s;
            assert(on.contains(c) && sub[c] == s);
        }
        assert(image(on, sub) =~= image(fewer, sub));
        lemma_scrambled_size(wiring, d);
        lemma_image_size(fewer, sub);
        assert(false);
    }
}

/// Once the candidates know 1, 4 and 7, exactly one of the digits that an
/// ambiguous word might show is confirmed: the one it does show.
pub proof fn lemma_verdict_true(candidates: Seq<Set<char>>, wiring: Seq<char>, d: u8)
    requires
        is_wiring(wiring),
        sound(candidates, wiring),
        told(candidates, wiring, 1),
        told(candidates, wiring, 4),
        told(candidates, wiring, 7),
        ambiguous(d),
    ensures
        sole(confirmed(candidates, scrambled(wiring, d), rivals(d))) == Some(d),
{
    let found = confirmed(candidates, scrambled(wiring, d), rivals(d));
    lemma_true_image(candidates, wiring, d);
    if d == 2 {
        lemma_false_image(candidates, wiring, 2, 3, 'E', 'G');
        lemma_false_image(candidates, wiring, 2, 5, 'E', 'G');
    } else if d == 3 {
        lemma_false_image(candidates, wiring, 3, 2, 'C', 'F');
        lemma_false_image(candidates, wiring, 3, 5, 'C', 'F');
    } else if d == 5 {
        lemma_false_image(candidates, wiring, 5, 2, 'B', 'D');
        lemma_false_image(candidates, wiring, 5, 3, 'B', 'D');
    } else if d == 0 {
        lemma_false_image(candidates, wiring, 0, 6, 'C', 'F');
        lemma_false_image(candidates, wiring, 0, 9, 'E', 'G');
    } else if d == 6 {
        lemma_false_image(candidates, wiring, 6, 0, 'B', 'D');
        lemma_false_image(candidates, wiring, 6, 9, 'E', 'G');
    } else {
        lemma_false_image(candidates, wiring, 9, 0, 'B', 'D');
        lemma_false_image(candidates, wiring, 9, 6, 'C', 'F');
    }
    assert(found =~= set![d]);
    lemma_digit_set_finite(found);
    lemma_sole(found, d);
}

/// The word of `d` is in the table as decided, and the candidates know it.
pub open spec fn settled(k: Knowledge, wiring: Seq<char>, d: u8) -> bool {
    &&& k.digits.dom().contains(scrambled(wiring, d))
    &&& k.digits[scrambled(wiring, d)] == DigitState::Decided(d)
    &&& told(k.candidates, wiring, d)
}

/// The word of `d` is in the table as undecided between `d` and its rivals.
pub open spec fn unsettled(k: Knowledge, wiring: Seq<char>, d: u8) -> bool {
    &&& ambiguous(d)
    &&& k.digits.dom().contains(scrambled(wiring, d))
    &&& k.digits[scrambled(wiring, d)] == DigitState::Undecided(rivals(d))
}

/// While the words are taken in: the candidates are sound, and each word
/// in the table is settled if its length decides it and unsettled if not.
pub open spec fn taking_in(k: Knowledge, wiring: Seq<char>) -> bool {
    &&& sound(k.candidates, wiring)
    &&& forall|d: u8|
        d <= 9 && k.digits.dom().contains(#[trigger] scrambled(wiring, d)) ==> if ambiguous(d) {
            unsettled(k, wiring, d)
        } else {
            settled(k, wiring, d)
        }
}

/// During the passes: the candidates are sound, all ten words are in the
/// table, and each is settled or unsettled.
pub open spec fn on_track(k: Knowledge, wiring: Seq<char>) -> bool {
    &&& sound(k.candidates, wiring)
    &&& forall|d: u8| d <= 9 ==> #[trigger] settled(k, wiring, d) || unsettled(k, wiring, d)
}

/// The wires `on` are those of some digit.
pub open spec fn is_digit_word(wiring: Seq<char>, on: Set<char>) -> bool {
    exists|d: u8| d <= 9 && on == #[trigger] scrambled(wiring, d)
}

/// Some word lights exactly the wires `on`.
pub open spec fn has_word(words: Seq<Seq<char>>, on: Set<char>) -> bool {
    exists|i: int| 0 <= i < words.len() && (#[trigger] words[i]).to_set() == on
}

/// Each word is the word of some digit.
pub open spec fn only_digits(words: Seq<Seq<char>>, wiring: Seq<char>) -> bool {
    forall|i: int| 0 <= i < words.len() ==> is_digit_word(wiring, (#[trigger] words[i]).to_set())
}

/// Each digit has its word.
pub open spec fn every_digit(words: Seq<Seq<char>>, wiring: Seq<char>) -> bool {
    forall|d: u8| d <= 9 ==> has_word(words, #[trigger] scrambled(wiring, d))
}

/// The words are those of a display wired by `wiring` that shows each of
/// the ten digits, in any order and in any spelling.
pub open spec fn shows_digits(words: Seq<Seq<char>>, wiring: Seq<char>) -> bool {
    only_digits(words, wiring) && every_digit(words, wiring)
}

proof fn lemma_first_state(wiring: Seq<char>, d: u8)
    requires
        is_wiring(wiring),
        d <= 9,
    ensures
        classify(scrambled(wiring, d).len()) == if ambiguous(d) {
            DigitState::Undecided(rivals(d))
        } else {
            DigitState::Decided(d)
        },
{
    lemma_scrambled_size(wiring, d);
    let n = pattern(d).len();
    assert(n == if d == 1 {
        2nat
    } else if d == 7 {
        3nat
    } else if d == 4 {
        4nat
    } else if d == 8 {
        7nat
    } else if d == 2 || d == 3 || d == 5 {
        5nat
    } else {
        6nat
    });
}

proof fn lemma_take_in_genuine(k: Knowledge, wiring: Seq<char>, word: Seq<char>, d: u8)
    requires
        is_wiring(wiring),
        taking_in(k, wiring),
        d <= 9,
        word.to_set() == scrambled(wiring, d),
    ensures
        taking_in(take_in(k, word), wiring),
        take_in(k, word).digits.dom() == k.digits.dom().insert(scrambled(wiring, d)),
{
    let on = scrambled(wiring, d);
    let after = take_in(k, word);
    lemma_first_state(wiring, d);
    crate::laws::law_take_in_narrows(k, word);
    if !ambiguous(d) {
        lemma_assign_true(k.candidates, wiring, d);
    }
    assert forall|e: u8| e <= 9 && after.digits.dom().contains(#[trigger] scrambled(wiring, e)) implies if ambiguous(e) {
        unsettled(after, wiring, e)
    } else {
        settled(after, wiring, e)
    } by {
        if scrambled(wiring, e) == on {
            lemma_scrambled_differ(wiring, d, e);
        } else {
            assert(k.digits.dom().contains(scrambled(wiring, e)));
            if !ambiguous(e) {
                lemma_told_stays(k.candidates, after.candidates, wiring, e);
            }
        }
    }
    assert(after.digits.dom() =~= k.digits.dom().insert(on));
}

proof fn lemma_intake_genuine(words: Seq<Seq<char>>, wiring: Seq<char>)
    requires
        is_wiring(wiring),
        only_digits(words, wiring),
    ensures
        taking_in(intake(words), wiring),
        forall|on: Set<char>|
            intake(words).digits.dom().contains(on) <==> exists|i: int|
                0 <= i < words.len() && (#[trigger] words[i]).to_set() == on,
        pending_after(words).no_duplicates(),
        forall|j: int|
            0 <= j < pending_after(words).len() ==> exists|d: u8|
                ambiguous(d) && (#[trigger] pending_after(words)[j]) == #[trigger] scrambled(wiring, d),
        forall|d: u8|
            ambiguous(d) && intake(words).digits.dom().contains(#[trigger] scrambled(wiring, d))
                ==> pending_after(words).contains(scrambled(wiring, d)),
    decreases words.len(),
{
    if words.len() == 0 {
        lemma_segment_labels();
        assert(sound(unconstrained(), wiring));
    } else {
        let head = words.drop_last();
        let word = words.last();
        assert(only_digits(head, wiring)) by {
            assert forall|i: int| 0 <= i < head.len() implies is_digit_word(
                wiring,
                (#[trigger] head[i]).to_set(),
            ) by {
                assert(head[i] == words[i]);
            }
        }
        lemma_intake_genuine(head, wiring);
        assert(is_digit_word(wiring, words[words.len() - 1].to_set()));
        let d = choose|d: u8| d <= 9 && words[words.len() - 1].to_set() == #[trigger] scrambled(wiring, d);
        let on = scrambled(wiring, d);
        lemma_take_in_genuine(intake(head), wiring, word, d);
        lemma_first_state(wiring, d);
        let before = pending_after(head);
        let after = pending_after(words);
        assert forall|on2: Set<char>|
            intake(words).digits.dom().contains(on2) <==> exists|i: int|
                0 <= i < words.len() && (#[trigger] words[i]).to_set() == on2 by {
            if intake(words).digits.dom().contains(on2) {
                if on2 == on {
                    assert(words[words.len() - 1].to_set() == on2);
                } else {
                    assert(intake(head).digits.dom().contains(on2));
                    let i = choose|i: int| 0 <= i < head.len() && (#[trigger] head[i]).to_set() == on2;
                    assert(words[i] == head[i]);
                }
            }
            if exists|i: int| 0 <= i < words.len() && (#[trigger] words[i]).to_set() == on2 {
                let i = choose|i: int| 0 <= i < words.len() && (#[trigger] words[i]).to_set() == on2;
                if i < head.len() {
                    assert(head[i] == words[i]);
                    assert(intake(head).digits.dom().contains(on2));
                }
            }
        }
        if ambiguous(d) && !intake(head).digits.dom().contains(on) {
            assert(after == before.push(on));
            assert forall|a: int, b: int| 0 <= a < after.len() && 0 <= b < after.len() && a != b implies after[a]
                != after[b] by {
                if a == after.len() - 1 || b == after.len() - 1 {
                    let j = if a == after.len() - 1 { b } else { a };
                    assert(after[j] == before[j]);
                    let e = choose|e: u8| ambiguous(e) && before[j] == #[trigger] scrambled(wiring, e);
                    if before[j] == on {
                        lemma_before_in_table(head, j);
                        assert(false);
                    }
                } else {
                    assert(after[a] == before[a] && after[b] == before[b]);
                }
            }
            assert forall|j: int| 0 <= j < after.len() implies exists|e: u8|
                ambiguous(e) && (#[trigger] after[j]) == #[trigger] scrambled(wiring, e) by {
                if j < before.len() {
                    assert(after[j] == before[j]);
                    let e = choose|e: u8| ambiguous(e) && before[j] == #[trigger] scrambled(wiring, e);
                    assert(ambiguous(e) && after[j] == scrambled(wiring, e));
                } else {
                    assert(ambiguous(d) && after[j] == scrambled(wiring, d));
                }
            }
            assert forall|e: u8|
                ambiguous(e) && intake(words).digits.dom().contains(#[trigger] scrambled(wiring, e)) implies after.contains(
                scrambled(wiring, e),
            ) by {
                if scrambled(wiring, e) == on {
                    assert(after[after.len() - 1] == on);
                } else {
                    assert(intake(head).digits.dom().contains(scrambled(wiring, e)));
                    let j = choose|j: int| 0 <= j < before.len() && before[j] == scrambled(wiring, e);
                    assert(after[j] == before[j]);
                }
            }
        } else {
            assert(after == before);
            assert forall|e: u8|
                ambiguous(e) && intake(words).digits.dom().contains(#[trigger] scrambled(wiring, e)) implies after.contains(
                scrambled(wiring, e),
            ) by {
                if scrambled(wiring, e) == on {
                    lemma_scrambled_differ(wiring, d, e);
                    assert(intake(head).digits.dom().contains(on));
                }
            }
        }
    }
}

/// A pending word is in the table.
proof fn lemma_before_in_table(words: Seq<Seq<char>>, j: int)
    requires
        0 <= j < pending_after(words).len(),
    ensures
        intake(words).digits.dom().contains(pending_after(words)[j]),
    decreases words.len(),
{
    if words.len() > 0 {
        let head = words.drop_last();
        if j < pending_after(head).len() {
            lemma_before_in_table(head, j);
        }
    }
}

/// An attempt at an unsettled word settles it on its true digit, and keeps
/// the search on track.
proof fn lemma_attempt_genuine(k: Knowledge, wiring: Seq<char>, d: u8)
    requires
        is_wiring(wiring),
        on_track(k, wiring),
        d <= 9,
        unsettled(k, wiring, d),
    ensures
        verdict(k, scrambled(wiring, d)) == Some(d),
        on_track(attempt(k, scrambled(wiring, d)), wiring),
        settled(attempt(k, scrambled(wiring, d)), wiring, d),
        forall|e: u8|
            e <= 9 && #[trigger] settled(k, wiring, e) ==> settled(attempt(k, scrambled(wiring, d)), wiring, e),
        forall|e: u8|
            e <= 9 && e != d && #[trigger] unsettled(k, wiring, e) ==> unsettled(
                attempt(k, scrambled(wiring, d)),
                wiring,
                e,
            ),
{
    let on = scrambled(wiring, d);
    assert(settled(k, wiring, 1) || unsettled(k, wiring, 1));
    assert(settled(k, wiring, 4) || unsettled(k, wiring, 4));
    assert(settled(k, wiring, 7) || unsettled(k, wiring, 7));
    assert(plausible(k, on) == rivals(d));
    lemma_verdict_true(k.candidates, wiring, d);
    let after = attempt(k, on);
    assert(after.candidates == assign(k.candidates, on, d));
    lemma_assign_true(k.candidates, wiring, d);
    law_assign_narrows(k.candidates, on, d);
    assert forall|e: u8| e <= 9 && #[trigger] settled(k, wiring, e) implies settled(after, wiring, e) by {
        lemma_told_stays(k.candidates, after.candidates, wiring, e);
        if scrambled(wiring, e) == on {
            lemma_scrambled_differ(wiring, d, e);
        }
    }
    assert forall|e: u8| e <= 9 && e != d && #[trigger] unsettled(k, wiring, e) implies unsettled(
        after,
        wiring,
        e,
    ) by {
        if scrambled(wiring, e) == on {
            lemma_scrambled_differ(wiring, d, e);
        }
    }
    assert forall|e: u8| e <= 9 implies #[trigger] settled(after, wiring, e) || unsettled(after, wiring, e) by {
        assert(settled(k, wiring, e) || unsettled(k, wiring, e));
    }
}

/// The wires `on` are those of a digit whose word is unsettled.
pub open spec fn is_open_word(k: Knowledge, wiring: Seq<char>, on: Set<char>) -> bool {
    exists|d: u8| d <= 9 && on == #[trigger] scrambled(wiring, d) && unsettled(k, wiring, d)
}

/// A pass over unsettled words settles each of them on its true digit.
proof fn lemma_sweep_genuine(k: Knowledge, wiring: Seq<char>, pending: Seq<Set<char>>)
    requires
        is_wiring(wiring),
        on_track(k, wiring),
        pending.no_duplicates(),
        forall|j: int| 0 <= j < pending.len() ==> is_open_word(k, wiring, #[trigger] pending[j]),
    ensures
        on_track(sweep(k, pending), wiring),
        left_over(k, pending).len() == 0,
        forall|e: u8| e <= 9 && #[trigger] settled(k, wiring, e) ==> settled(sweep(k, pending), wiring, e),
        forall|e: u8|
            e <= 9 && pending.contains(#[trigger] scrambled(wiring, e)) ==> settled(
                sweep(k, pending),
                wiring,
                e,
            ),
        forall|e: u8|
            e <= 9 && #[trigger] unsettled(k, wiring, e) && !pending.contains(scrambled(wiring, e))
                ==> unsettled(sweep(k, pending), wiring, e),
    decreases pending.len(),
{
    if pending.len() > 0 {
        let head = pending.drop_last();
        let on = pending.last();
        assert(head.no_duplicates()) by {
            assert forall|a: int, b: int| 0 <= a < head.len() && 0 <= b < head.len() && a != b implies head[a]
                != head[b] by {
                assert(head[a] == pending[a] && head[b] == pending[b]);
            }
        }
        assert forall|j: int| 0 <= j < head.len() implies is_open_word(k, wiring, #[trigger] head[j]) by {
            assert(head[j] == pending[j]);
        }
        lemma_sweep_genuine(k, wiring, head);
        let mid = sweep(k, head);
        assert(is_open_word(k, wiring, pending[pending.len() - 1]));
        let d = choose|d: u8| d <= 9 && on == #[trigger] scrambled(wiring, d) && unsettled(k, wiring, d);
        assert(!head.contains(on)) by {
            if head.contains(on) {
                let j = choose|j: int| 0 <= j < head.len() && head[j] == on;
                assert(pending[j] == on);
            }
        }
        assert(unsettled(mid, wiring, d));
        lemma_attempt_genuine(mid, wiring, d);
        let after = sweep(k, pending);
        assert(after == attempt(mid, on));
        assert forall|e: u8| e <= 9 && pending.contains(#[trigger] scrambled(wiring, e)) implies settled(
            after,
            wiring,
            e,
        ) by {
            let j = choose|j: int| 0 <= j < pending.len() && pending[j] == scrambled(wiring, e);
            if j < head.len() {
                assert(head[j] == pending[j]);
                assert(head.contains(scrambled(wiring, e)));
                assert(settled(mid, wiring, e));
            } else {
                lemma_scrambled_differ(wiring, d, e);
            }
        }
        assert forall|e: u8|
            e <= 9 && #[trigger] unsettled(k, wiring, e) && !pending.contains(scrambled(wiring, e)) implies unsettled(
            after,
            wiring,
            e,
        ) by {
            if head.contains(scrambled(wiring, e)) {
                let j = choose|j: int| 0 <= j < head.len() && head[j] == scrambled(wiring, e);
                assert(pending[j] == scrambled(wiring, e));
            }
            assert(unsettled(mid, wiring, e));
            if e == d {
                assert(pending[pending.len() - 1] == scrambled(wiring, e));
            }
        }
        assert forall|e: u8| e <= 9 && #[trigger] settled(k, wiring, e) implies settled(after, wiring, e) by {
            assert(settled(mid, wiring, e));
        }
    }
}

/// With every digit told, each wire has one candidate left: its segment.
proof fn lemma_wiring_found(candidates: Seq<Set<char>>, wiring: Seq<char>)
    requires
        is_wiring(wiring),
        sound(candidates, wiring),
        forall|d: u8| d <= 9 ==> #[trigger] told(candidates, wiring, d),
    ensures
        forall|w: int| 0 <= w < 7 ==> #[trigger] candidates[w] == set![wiring[w]],
{
    assert forall|w: int| 0 <= w < 7 implies #[trigger] candidates[w] == set![wiring[w]] by {
        assert forall|s: char| candidates[w].contains(s) implies s == wiring[w] by {
            let t = wiring[w];
            assert(segments().contains(s));
            assert(is_segment(t));
            assert(told(candidates, wiring, 0) && told(candidates, wiring, 1) && told(candidates, wiring, 2));
            assert(told(candidates, wiring, 4) && told(candidates, wiring, 5) && told(candidates, wiring, 7));
            lemma_lit(0);
            lemma_lit(1);
            lemma_lit(2);
            lemma_lit(4);
            lemma_lit(5);
            lemma_lit(7);
            assert(lights(0, s) == lights(0, t));
            assert(lights(1, s) == lights(1, t));
            assert(lights(2, s) == lights(2, t));
            assert(lights(4, s) == lights(4, t));
            assert(lights(5, s) == lights(5, t));
            assert(lights(7, s) == lights(7, t));
        }
        assert(candidates[w].contains(wiring[w]));
        assert(candidates[w] =~= set![wiring[w]]);
    }
}

/// The knowledge is complete and right for a display wired by `wiring`:
/// the word of each digit is decided as that digit, and every wire is left
/// with the one segment it drives.
pub open spec fn solved_by(k: Knowledge, wiring: Seq<char>) -> bool {
    &&& forall|d: u8|
        d <= 9 ==> reading(k.digits, #[trigger] scrambled(wiring, d)) == Ok::<u8, DecodeError>(d)
    &&& k.candidates.len() == 7
    &&& forall|w: int| 0 <= w < 7 ==> #[trigger] k.candidates[w] == set![wiring[w]]
}

/// A display that shows the ten digits through some wiring is solved: the
/// search succeeds whatever the order and the spelling of the words, the
/// word of each digit decodes to that digit, and every wire is left with
/// the one segment it drives.
pub proof fn law_genuine_display_is_solved(words: Seq<Seq<char>>, wiring: Seq<char>)
    requires
        is_wiring(wiring),
        shows_digits(words, wiring),
    ensures
        build(words) matches Ok(found) && solved_by(found, wiring),
{
    assert(!malformed(words)) by {
        if malformed(words) {
            let i = choose|i: int| 0 <= i < words.len() && classify((#[trigger] words[i]).to_set().len()) is Invalid;
            assert(is_digit_word(wiring, words[i].to_set()));
            let d = choose|d: u8| d <= 9 && words[i].to_set() == #[trigger] scrambled(wiring, d);
            lemma_first_state(wiring, d);
        }
    }
    lemma_intake_genuine(words, wiring);
    let k = intake(words);
    let pending = pending_after(words);
    assert forall|d: u8| d <= 9 implies #[trigger] settled(k, wiring, d) || unsettled(k, wiring, d) by {
        assert(has_word(words, scrambled(wiring, d)));
        assert(k.digits.dom().contains(scrambled(wiring, d)));
    }
    assert forall|j: int| 0 <= j < pending.len() implies is_open_word(k, wiring, #[trigger] pending[j]) by {
        let d = choose|d: u8| ambiguous(d) && pending[j] == #[trigger] scrambled(wiring, d);
        assert(has_word(words, scrambled(wiring, d)));
        assert(k.digits.dom().contains(scrambled(wiring, d)));
        assert(d <= 9 && pending[j] == scrambled(wiring, d) && unsettled(k, wiring, d));
    }
    lemma_sweep_genuine(k, wiring, pending);
    let found = sweep(k, pending);
    assert(solve(k, pending) == Ok::<Knowledge, DecodeError>(found)) by {
        if pending.len() == 0 {
        } else {
            assert(solve(found, left_over(k, pending)) == Ok::<Knowledge, DecodeError>(found));
        }
    }
    assert forall|d: u8| d <= 9 implies #[trigger] settled(found, wiring, d) by {
        assert(settled(k, wiring, d) || unsettled(k, wiring, d));
        assert(has_word(words, scrambled(wiring, d)));
        if unsettled(k, wiring, d) {
            assert(pending.contains(scrambled(wiring, d)));
        }
    }
    assert forall|d: u8| d <= 9 implies #[trigger] told(found.candidates, wiring, d) by {
        assert(settled(found, wiring, d));
    }
    lemma_wiring_found(found.candidates, wiring);
    assert forall|d: u8| d <= 9 implies reading(found.digits, #[trigger] scrambled(wiring, d)) == Ok::<u8, DecodeError>(d) by {
        assert(settled(found, wiring, d));
    }
}

/// Whether words are those of such a display does not depend on their order.
pub proof fn lemma_shows_digits_rearranged(order: Seq<Seq<char>>, words: Seq<Seq<char>>, wiring: Seq<char>)
    requires
        order.to_multiset() == words.to_multiset(),
        shows_digits(words, wiring),
    ensures
        shows_digits(order, wiring),
{
    assert forall|i: int| 0 <= i < order.len() implies is_digit_word(wiring, (#[trigger] order[i]).to_set()) by {
        vstd::seq_lib::to_multiset_contains(order, order[i]);
        vstd::seq_lib::to_multiset_contains(words, order[i]);
        let k = choose|k: int| 0 <= k < words.len() && words[k] == order[i];
        assert(is_digit_word(wiring, words[k].to_set()));
    }
    assert forall|d: u8| d <= 9 implies has_word(order, #[trigger] scrambled(wiring, d)) by {
        assert(has_word(words, scrambled(wiring, d)));
        let i = choose|i: int| 0 <= i < words.len() && (#[trigger] words[i]).to_set() == scrambled(wiring, d);
        vstd::seq_lib::to_multiset_contains(words, words[i]);
        vstd::seq_lib::to_multiset_contains(order, words[i]);
        let k = choose|k: int| 0 <= k < order.len() && order[k] == words[i];
        assert(order[k].to_set() == scrambled(wiring, d));
    }
}

} // verus!
