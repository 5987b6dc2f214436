//! The table of input words and their digit states: a list of entries that
//! stands for a map from the set of lit wires to the state.

use vstd::prelude::*;
use crate::charseq::{lemma_one_sorted_spelling, same_chars, strictly_ascending};
use crate::digit::{Digit, DigitState};

verus! {

/// The map that a list of entries stands for; a later entry replaces an
/// earlier one with the same key.
pub open spec fn table_map(entries: Seq<(Vec<char>, Digit)>) -> Map<Set<char>, DigitState>
    decreases entries.len(),
{
    if entries.len() == 0 {
        Map::empty()
    } else {
        table_map(entries.drop_last()).insert(entries.last().0@.to_set(), entries.last().1@)
    }
}

/// Every key is in sorted spelling and no key occurs twice.
pub open spec fn table_wf(entries: Seq<(Vec<char>, Digit)>) -> bool {
    &&& forall|i: int| 0 <= i < entries.len() ==> strictly_ascending((#[trigger] entries[i]).0@)
    &&& forall|i: int, j: int|
        0 <= i < j < entries.len() ==> (#[trigger] entries[i]).0@ != (#[trigger] entries[j]).0@
}

/// Every decided digit is a decimal digit.
pub open spec fn decimal(entries: Seq<(Vec<char>, Digit)>) -> bool {
    forall|i: int|
        0 <= i < entries.len() ==> ((#[trigger] entries[i]).1@ matches DigitState::Decided(d) ==> d <= 9)
}

pub proof fn lemma_table_dom(entries: Seq<(Vec<char>, Digit)>)
    ensures
        forall|on: Set<char>|
            table_map(entries).dom().contains(on) <==> exists|i: int|
                0 <= i < entries.len() && (#[trigger] entries[i]).0@.to_set() == on,
    decreases entries.len(),
{
    if entries.len() > 0 {
        let head = entries.drop_last();
        lemma_table_dom(head);
        assert forall|on: Set<char>|
            table_map(entries).dom().contains(on) <==> exists|i: int|
                0 <= i < entries.len() && (#[trigger] entries[i]).0@.to_set() == on by {
            if table_map(entries).dom().contains(on) {
                if on == entries.last().0@.to_set() {
                    assert(entries[entries.len() - 1].0@.to_set() == on);
                } else {
                    assert(table_map(head).dom().contains(on));
                    let i = choose|i: int| 0 <= i < head.len() && (#[trigger] head[i]).0@.to_set() == on;
                    assert(entries[i] == head[i]);
                }
            }
            if exists|i: int| 0 <= i < entries.len() && (#[trigger] entries[i]).0@.to_set() == on {
                let i = choose|i: int| 0 <= i < entries.len() && (#[trigger] entries[i]).0@.to_set() == on;
                if i < head.len() {
                    assert(head[i] == entries[i]);
                    assert(table_map(head).dom().contains(on));
                }
            }
        }
    }
}

/// In a well-formed table each entry's state is what the map gives for its key.
pub proof fn lemma_table_at(entries: Seq<(Vec<char>, Digit)>, i: int)
    requires
        table_wf(entries),
        0 <= i < entries.len(),
    ensures
        table_map(entries).dom().contains(entries[i].0@.to_set()),
        table_map(entries)[entries[i].0@.to_set()] == entries[i].1@,
    decreases entries.len(),
{
    let head = entries.drop_last();
    if i < entries.len() - 1 {
        assert(table_wf(head)) by {
            assert forall|a: int| 0 <= a < head.len() implies strictly_ascending((#[trigger] head[a]).0@) by {
                assert(head[a] == entries[a]);
            }
            assert forall|a: int, b: int| 0 <= a < b < head.len() implies (#[trigger] head[a]).0@ != (
            #[trigger] head[b]).0@ by {
                assert(head[a] == entries[a] && head[b] == entries[b]);
            }
        }
        lemma_table_at(head, i);
        assert(head[i] == entries[i]);
        if entries[i].0@.to_set() == entries.last().0@.to_set() {
            lemma_one_sorted_spelling(entries[i].0@, entries[entries.len() - 1].0@);
        }
    }
}

/// Replacing the state of the entry at `i` is an insertion under its key.
pub proof fn lemma_table_update(entries: Seq<(Vec<char>, Digit)>, i: int, entry: (Vec<char>, Digit))
    requires
        table_wf(entries),
        0 <= i < entries.len(),
        entry.0@ == entries[i].0@,
    ensures
        table_wf(entries.update(i, entry)),
        table_map(entries.update(i, entry)) == table_map(entries).insert(entry.0@.to_set(), entry.1@),
    decreases entries.len(),
{
    let changed = entries.update(i, entry);
    let head = entries.drop_last();
    assert(table_wf(changed)) by {
        assert forall|a: int| 0 <= a < changed.len() implies strictly_ascending((#[trigger] changed[a]).0@) by {
            assert(changed[a].0@ == entries[a].0@);
        }
        assert forall|a: int, b: int| 0 <= a < b < changed.len() implies (#[trigger] changed[a]).0@ != (
        #[trigger] changed[b]).0@ by {
            assert(changed[a].0@ == entries[a].0@ && changed[b].0@ == entries[b].0@);
        }
    }
    if i == entries.len() - 1 {
        assert(changed.drop_last() =~= head);
        assert(table_map(changed) =~= table_map(entries).insert(entry.0@.to_set(), entry.1@));
    } else {
        assert(table_wf(head)) by {
            assert forall|a: int| 0 <= a < head.len() implies strictly_ascending((#[trigger] head[a]).0@) by {
                assert(head[a] == entries[a]);
            }
            assert forall|a: int, b: int| 0 <= a < b < head.len() implies (#[trigger] head[a]).0@ != (
            #[trigger] head[b]).0@ by {
                assert(head[a] == entries[a] && head[b] == entries[b]);
            }
        }
        lemma_table_update(head, i, entry);
        assert(changed.drop_last() =~= head.update(i, entry));
        assert(changed.last() == entries.last());
        assert(entries[i].0@ != entries[entries.len() - 1].0@);
        if entry.0@.to_set() == entries.last().0@.to_set() {
            lemma_one_sorted_spelling(entries[i].0@, entries[entries.len() - 1].0@);
        }
        assert(table_map(changed) =~= table_map(entries).insert(entry.0@.to_set(), entry.1@));
    }
}

/// Adding an entry under a key that the table lacks keeps it well-formed.
pub proof fn lemma_table_push(entries: Seq<(Vec<char>, Digit)>, entry: (Vec<char>, Digit))
    requires
        table_wf(entries),
        strictly_ascending(entry.0@),
        forall|i: int| 0 <= i < entries.len() ==> (#[trigger] entries[i]).0@ != entry.0@,
    ensures
        table_wf(entries.push(entry)),
        table_map(entries.push(entry)) == table_map(entries).insert(entry.0@.to_set(), entry.1@),
{
    let grown = entries.push(entry);
    assert(grown.drop_last() =~= entries);
    assert forall|a: int| 0 <= a < grown.len() implies strictly_ascending((#[trigger] grown[a]).0@) by {
        if a < entries.len() {
            assert(grown[a] == entries[a]);
        }
    }
    assert forall|a: int, b: int| 0 <= a < b < grown.len() implies (#[trigger] grown[a]).0@ != (
    #[trigger] grown[b]).0@ by {
        assert(grown[a] == entries[a]);
        if b < entries.len() {
            assert(grown[b] == entries[b]);
        }
    }
}

/// The place of the entry whose key is spelled `key`.
pub fn find_entry(entries: &Vec<(Vec<char>, Digit)>, key: &Vec<char>) -> (r: Option<usize>)
    ensures
        match r {
            Some(i) => i < entries.len() && entries[i as int].0@ == key@,
            None => forall|i: int| 0 <= i < entries.len() ==> (#[trigger] entries[i]).0@ != key@,
        },
{
    let mut i: usize = 0;
    while i < entries.len()
        invariant
            i <= entries.len(),
            forall|k: int| 0 <= k < i ==> (#[trigger] entries[k]).0@ != key@,
        decreases entries.len() - i,
    {
        if same_chars(&entries[i].0, key) {
            return Some(i);
        }
        i += 1;
    }
    None
}

} // verus!
