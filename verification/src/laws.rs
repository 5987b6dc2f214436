//! What holds of the search on every input.

use vstd::prelude::*;
use crate::digit::classify;
use crate::error::DecodeError;
use crate::model::{
    assign, attempt, build, confirmed, expand, intake, left_over, malformed, pending_after,
    plausible, reading, solve, sweep, take_in, unconstrained, verdict, Knowledge,
};
use crate::segment::{lemma_without, without};

verus! {

/// `order` holds the words of `words`, each as often.
pub open spec fn rearranges(order: Seq<Seq<char>>, words: Seq<Seq<char>>) -> bool {
    order.to_multiset() == words.to_multiset()
}

/// The candidates `after` are those of `before` or fewer, wire by wire.
pub open spec fn narrows(before: Seq<Set<char>>, after: Seq<Set<char>>) -> bool {
    &&& after.len() == before.len()
    &&& forall|w: int| 0 <= w < before.len() ==> (#[trigger] after[w]).subset_of(before[w])
    &&& forall|w: int|
        0 <= w < before.len() && before[w].finite() ==> (#[trigger] after[w]).finite() && after[w].len()
            <= before[w].len()
}

/// Ruling a segment out a second time changes nothing.
pub proof fn law_eliminate_idempotent(candidates: Seq<char>, segment: char)
    ensures
        without(without(candidates, segment), segment) == without(candidates, segment),
        candidates.to_set().remove(segment).remove(segment) == candidates.to_set().remove(segment),
{
    lemma_without(candidates, segment);
    lemma_without(without(candidates, segment), segment);
    assert(!without(candidates, segment).to_set().contains(segment));
    assert(candidates.to_set().remove(segment).remove(segment) =~= candidates.to_set().remove(segment));
}

proof fn lemma_subsets_narrow(before: Seq<Set<char>>, after: Seq<Set<char>>)
    requires
        after.len() == before.len(),
        forall|w: int| 0 <= w < before.len() ==> (#[trigger] after[w]).subset_of(before[w]),
    ensures
        narrows(before, after),
{
    assert forall|w: int| 0 <= w < before.len() && before[w].finite() implies (#[trigger] after[w]).finite()
        && after[w].len() <= before[w].len() by {
        vstd::set_lib::lemma_set_subset_finite(before[w], after[w]);
        vstd::set_lib::lemma_len_subset(after[w], before[w]);
    }
}

/// Narrowing twice is narrowing.
pub proof fn lemma_narrows_twice(a: Seq<Set<char>>, b: Seq<Set<char>>, c: Seq<Set<char>>)
    requires
        narrows(a, b),
        narrows(b, c),
    ensures
        narrows(a, c),
{
    assert forall|w: int| 0 <= w < a.len() implies (#[trigger] c[w]).subset_of(a[w]) by {
        assert(b[w].subset_of(a[w]));
    }
    lemma_subsets_narrow(a, c);
}

/// Learning the digit of a word only takes candidates away.
pub proof fn law_assign_narrows(candidates: Seq<Set<char>>, on: Set<char>, d: u8)
    ensures
        narrows(candidates, assign(candidates, on, d)),
{
    lemma_subsets_narrow(candidates, assign(candidates, on, d));
}

/// Taking a word in only takes candidates away.
pub proof fn law_take_in_narrows(k: Knowledge, word: Seq<char>)
    ensures
        narrows(k.candidates, take_in(k, word).candidates),
{
    lemma_subsets_narrow(k.candidates, take_in(k, word).candidates);
}

/// An attempt at a word only takes candidates away.
pub proof fn law_attempt_narrows(k: Knowledge, on: Set<char>)
    ensures
        narrows(k.candidates, attempt(k, on).candidates),
{
    lemma_subsets_narrow(k.candidates, attempt(k, on).candidates);
}

/// A pass only takes candidates away.
pub proof fn law_sweep_narrows(k: Knowledge, pending: Seq<Set<char>>)
    ensures
        narrows(k.candidates, sweep(k, pending).candidates),
    decreases pending.len(),
{
    if pending.len() == 0 {
        lemma_subsets_narrow(k.candidates, k.candidates);
    } else {
        let before = sweep(k, pending.drop_last());
        law_sweep_narrows(k, pending.drop_last());
        law_attempt_narrows(before, pending.last());
        lemma_narrows_twice(k.candidates, before.candidates, sweep(k, pending).candidates);
    }
}

/// The passes only take candidates away.
pub proof fn law_solve_narrows(k: Knowledge, pending: Seq<Set<char>>)
    ensures
        solve(k, pending) matches Ok(found) ==> narrows(k.candidates, found.candidates),
    decreases pending.len(),
{
    if pending.len() == 0 {
        lemma_subsets_narrow(k.candidates, k.candidates);
    } else {
        let rest = left_over(k, pending);
        if rest.len() < pending.len() {
            let mid = sweep(k, pending);
            law_sweep_narrows(k, pending);
            law_solve_narrows(mid, rest);
            if let Ok(found) = solve(mid, rest) {
                lemma_narrows_twice(k.candidates, mid.candidates, found.candidates);
            }
        }
    }
}

/// Taking the words in only takes candidates away.
pub proof fn law_intake_narrows(words: Seq<Seq<char>>)
    ensures
        narrows(unconstrained(), intake(words).candidates),
    decreases words.len(),
{
    if words.len() == 0 {
        lemma_subsets_narrow(unconstrained(), unconstrained());
    } else {
        law_intake_narrows(words.drop_last());
        law_take_in_narrows(intake(words.drop_last()), words.last());
        lemma_narrows_twice(
            unconstrained(),
            intake(words.drop_last()).candidates,
            intake(words).candidates,
        );
    }
}

/// From the first word taken in to the last pass the candidates of each
/// wire only shrink: what a search ends with is, wire by wire, a set of
/// segments no larger than the seven it started from.
pub proof fn law_candidates_only_shrink(words: Seq<Seq<char>>)
    ensures
        build(words) matches Ok(found) ==> narrows(unconstrained(), found.candidates),
{
    if let Ok(found) = build(words) {
        law_intake_narrows(words);
        law_solve_narrows(intake(words), pending_after(words));
        lemma_narrows_twice(unconstrained(), intake(words).candidates, found.candidates);
    }
}

/// Whatever a word could light has as many segments as the word has wires.
pub proof fn law_expand_keeps_size(candidates: Seq<Set<char>>, on: Set<char>, t: Set<char>)
    requires
        expand(candidates, on).contains(t),
    ensures
        t.finite(),
        t.len() == on.len(),
{
}

/// A word without plausible digits gets no verdict.
proof fn lemma_no_verdict(k: Knowledge, on: Set<char>)
    requires
        plausible(k, on) == Set::<u8>::empty(),
    ensures
        verdict(k, on) is None,
{
    assert(confirmed(k.candidates, on, plausible(k, on)) =~= Set::<u8>::empty());
}

/// An attempt changes the table at the attempted word only, and only from
/// undecided to decided: the table gains no word, and a decided word keeps
/// its digit.
pub proof fn law_attempt_decides_only(k: Knowledge, on: Set<char>)
    ensures
        attempt(k, on).digits.dom() == k.digits.dom(),
        forall|other: Set<char>|
            other != on && k.digits.dom().contains(other) ==> #[trigger] attempt(k, on).digits[other]
                == k.digits[other],
        k.digits.dom().contains(on) && !(k.digits[on] is Undecided) ==> attempt(k, on).digits[on]
            == k.digits[on],
        verdict(k, on) is Some ==> k.digits.dom().contains(on) && k.digits[on] is Undecided && attempt(
            k,
            on,
        ).digits[on] is Decided,
        verdict(k, on) is None ==> attempt(k, on) == k,
{
    if !k.digits.dom().contains(on) || !(k.digits[on] is Undecided) {
        lemma_no_verdict(k, on);
    }
    assert(attempt(k, on).digits.dom() =~= k.digits.dom());
}

/// What was decided before a pass is decided as before after it, and what
/// was undecided is decided now or unchanged and, if it was pending, left
/// over.
pub proof fn law_sweep_decides_only(k: Knowledge, pending: Seq<Set<char>>)
    ensures
        sweep(k, pending).digits.dom() == k.digits.dom(),
        forall|on: Set<char>|
            k.digits.dom().contains(on) && !(k.digits[on] is Undecided) ==> #[trigger] sweep(
                k,
                pending,
            ).digits[on] == k.digits[on],
        forall|on: Set<char>|
            k.digits.dom().contains(on) && k.digits[on] is Undecided ==> (#[trigger] sweep(
                k,
                pending,
            ).digits[on]) is Decided || (sweep(k, pending).digits[on] == k.digits[on] && (pending.contains(on)
                ==> left_over(k, pending).contains(on))),
    decreases pending.len(),
{
    if pending.len() > 0 {
        let head = pending.drop_last();
        let last = pending.last();
        let mid = sweep(k, head);
        let rest = left_over(k, head);
        let after = sweep(k, pending);
        law_sweep_decides_only(k, head);
        law_attempt_decides_only(mid, last);
        assert forall|on: Set<char>| k.digits.dom().contains(on) && !(k.digits[on] is Undecided) implies #[trigger] after.digits[on]
            == k.digits[on] by {
            assert(mid.digits[on] == k.digits[on]);
        }
        assert forall|on: Set<char>| k.digits.dom().contains(on) && k.digits[on] is Undecided implies (
        #[trigger] after.digits[on]) is Decided || (after.digits[on] == k.digits[on] && (pending.contains(on)
            ==> left_over(k, pending).contains(on))) by {
            assert(mid.digits[on] is Decided || (mid.digits[on] == k.digits[on] && (head.contains(on)
                ==> rest.contains(on))));
            if !(after.digits[on] is Decided) {
                if on == last {
                    assert(verdict(mid, last) is None);
                    assert(left_over(k, pending) == rest.push(last));
                    assert(rest.push(last)[rest.len() as int] == last);
                } else if pending.contains(on) {
                    let j = choose|j: int| 0 <= j < pending.len() && pending[j] == on;
                    assert(head[j] == on);
                    let i = choose|i: int| 0 <= i < rest.len() && rest[i] == on;
                    if verdict(mid, last) is None {
                        assert(rest.push(last)[i] == on);
                    }
                }
            }
        }
    }
}

/// The passes never take a decision back: a word that is decided before
/// them has the same digit after them.
pub proof fn law_decided_stays_decided(k: Knowledge, pending: Seq<Set<char>>, on: Set<char>)
    requires
        k.digits.dom().contains(on),
        k.digits[on] is Decided,
    ensures
        solve(k, pending) matches Ok(found) ==> found.digits.dom().contains(on) && found.digits[on]
            == k.digits[on],
    decreases pending.len(),
{
    if pending.len() > 0 {
        let rest = left_over(k, pending);
        if rest.len() < pending.len() {
            law_sweep_decides_only(k, pending);
            assert(sweep(k, pending).digits[on] == k.digits[on]);
            law_decided_stays_decided(sweep(k, pending), rest, on);
        }
    }
}

/// Every word of the table is decided, or undecided and pending.
pub open spec fn accounted(k: Knowledge, pending: Seq<Set<char>>) -> bool {
    forall|on: Set<char>|
        k.digits.dom().contains(on) ==> (#[trigger] k.digits[on]) is Decided || (k.digits[on] is Undecided
            && pending.contains(on))
}

proof fn lemma_solve_decides_all(k: Knowledge, pending: Seq<Set<char>>)
    requires
        accounted(k, pending),
    ensures
        solve(k, pending) matches Ok(found) ==> found.digits.dom() == k.digits.dom() && (forall|
            on: Set<char>,
        |
            found.digits.dom().contains(on) ==> (#[trigger] found.digits[on]) is Decided),
    decreases pending.len(),
{
    if pending.len() == 0 {
        assert forall|on: Set<char>| k.digits.dom().contains(on) implies (#[trigger] k.digits[on]) is Decided by {
            assert(!pending.contains(on));
        }
    } else {
        let rest = left_over(k, pending);
        if rest.len() < pending.len() {
            let mid = sweep(k, pending);
            law_sweep_decides_only(k, pending);
            assert forall|on: Set<char>| mid.digits.dom().contains(on) implies (#[trigger] mid.digits[on]) is Decided
                || (mid.digits[on] is Undecided && rest.contains(on)) by {
                assert(k.digits[on] is Decided || (k.digits[on] is Undecided && pending.contains(on)));
            }
            lemma_solve_decides_all(mid, rest);
        }
    }
}

proof fn lemma_intake_accounted(words: Seq<Seq<char>>)
    requires
        !malformed(words),
    ensures
        accounted(intake(words), pending_after(words)),
        forall|i: int| 0 <= i < words.len() ==> intake(words).digits.dom().contains((#[trigger] words[i]).to_set()),
        forall|on: Set<char>|
            intake(words).digits.dom().contains(on) ==> #[trigger] intake(words).digits[on] == classify(
                on.len(),
            ),
    decreases words.len(),
{
    if words.len() > 0 {
        let head = words.drop_last();
        let on = words.last().to_set();
        assert(!malformed(head)) by {
            if malformed(head) {
                let i = choose|i: int| 0 <= i < head.len() && classify((#[trigger] head[i]).to_set().len()) is Invalid;
                assert(words[i] == head[i]);
            }
        }
        lemma_intake_accounted(head);
        let before = pending_after(head);
        let after = pending_after(words);
        assert(!(classify(words[words.len() - 1].to_set().len()) is Invalid));
        assert forall|i: int| 0 <= i < words.len() implies intake(words).digits.dom().contains(
            (#[trigger] words[i]).to_set(),
        ) by {
            if i < head.len() {
                assert(head[i] == words[i]);
            }
        }
        assert forall|other: Set<char>| intake(words).digits.dom().contains(other) implies (#[trigger] intake(
            words,
        ).digits[other]) is Decided || (intake(words).digits[other] is Undecided && after.contains(other)) by {
            if other == on {
                if classify(on.len()) is Undecided {
                    if intake(head).digits.dom().contains(on) {
                        assert(intake(head).digits[on] == classify(on.len()));
                        let j = choose|j: int| 0 <= j < before.len() && before[j] == on;
                        assert(after[j] == on);
                    } else {
                        assert(after[after.len() - 1] == on);
                    }
                }
            } else {
                assert(intake(head).digits.dom().contains(other));
                if !(intake(head).digits[other] is Decided) {
                    let j = choose|j: int| 0 <= j < before.len() && before[j] == other;
                    assert(after[j] == other);
                }
            }
        }
    }
}

/// A search that succeeds has decided every input word: the table holds
/// the input words and no others, each with a digit, so each input word
/// can be read off.
pub proof fn law_success_decides_every_word(words: Seq<Seq<char>>)
    ensures
        build(words) matches Ok(found) ==> {
            &&& forall|on: Set<char>| found.digits.dom().contains(on) ==> (#[trigger] found.digits[on]) is Decided
            &&& forall|i: int| 0 <= i < words.len() ==> reading(found.digits, (#[trigger] words[i]).to_set()) is Ok
            &&& found.digits.dom() == intake(words).digits.dom()
        },
{
    if let Ok(found) = build(words) {
        lemma_intake_accounted(words);
        lemma_solve_decides_all(intake(words), pending_after(words));
        assert forall|i: int| 0 <= i < words.len() implies reading(found.digits, (#[trigger] words[i]).to_set()) is Ok by {
            assert(found.digits.dom().contains(words[i].to_set()));
            assert(found.digits[words[i].to_set()] is Decided);
        }
    }
}

/// Passes fail in one way only.
pub proof fn lemma_solve_fails_unsolvable(k: Knowledge, pending: Seq<Set<char>>)
    ensures
        solve(k, pending) matches Err(e) ==> e == DecodeError::UnsolvableConstraints,
    decreases pending.len(),
{
    if pending.len() > 0 {
        let rest = left_over(k, pending);
        if rest.len() < pending.len() {
            lemma_solve_fails_unsolvable(sweep(k, pending), rest);
        }
    }
}

/// Whether a list of words is malformed does not depend on their order.
pub proof fn lemma_malformed_rearranged(order: Seq<Seq<char>>, words: Seq<Seq<char>>)
    requires
        rearranges(order, words),
    ensures
        malformed(order) == malformed(words),
{
    if malformed(order) {
        let i = choose|i: int|
            0 <= i < order.len() && classify((#[trigger] order[i]).to_set().len()) is Invalid;
        vstd::seq_lib::to_multiset_contains(order, order[i]);
        vstd::seq_lib::to_multiset_contains(words, order[i]);
        let k = choose|k: int| 0 <= k < words.len() && words[k] == order[i];
        assert(classify(words[k].to_set().len()) is Invalid);
    }
    if malformed(words) {
        let i = choose|i: int|
            0 <= i < words.len() && classify((#[trigger] words[i]).to_set().len()) is Invalid;
        vstd::seq_lib::to_multiset_contains(words, words[i]);
        vstd::seq_lib::to_multiset_contains(order, words[i]);
        let k = choose|k: int| 0 <= k < order.len() && order[k] == words[i];
        assert(classify(order[k].to_set().len()) is Invalid);
    }
}

} // verus!
