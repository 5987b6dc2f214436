//! Words as sequences of characters, and the sorted form in which two words
//! that light the same wires are the same sequence.

use vstd::prelude::*;

verus! {

/// No character is smaller than one before it.
pub open spec fn ascending(s: Seq<char>) -> bool {
    forall|i: int, j: int| 0 <= i <= j < s.len() ==> s[i] <= s[j]
}

/// Every character is larger than those before it: sorted, nothing twice.
pub open spec fn strictly_ascending(s: Seq<char>) -> bool {
    forall|i: int, j: int| 0 <= i < j < s.len() ==> s[i] < s[j]
}

pub proof fn lemma_strictly_ascending_distinct(s: Seq<char>)
    requires
        strictly_ascending(s),
    ensures
        s.no_duplicates(),
        ascending(s),
        s.to_set().len() == s.len(),
{
    assert forall|i: int, j: int| 0 <= i < s.len() && 0 <= j < s.len() && i != j implies s[i] != s[j] by {
        if i < j {
            assert(s[i] < s[j]);
        } else {
            assert(s[j] < s[i]);
        }
    }
    s.unique_seq_to_set();
}

/// Rearranging a word changes neither its length nor its letters.
pub proof fn lemma_rearranged(a: Seq<char>, b: Seq<char>)
    requires
        a.to_multiset() == b.to_multiset(),
    ensures
        a.len() == b.len(),
        a.to_set() == b.to_set(),
        a.no_duplicates() <==> b.no_duplicates(),
{
    vstd::seq_lib::to_multiset_len(a);
    vstd::seq_lib::to_multiset_len(b);
    assert forall|c: char| a.to_set().contains(c) <==> b.to_set().contains(c) by {
        vstd::seq_lib::to_multiset_contains(a, c);
        vstd::seq_lib::to_multiset_contains(b, c);
    }
    assert(a.to_set() =~= b.to_set());
    if a.no_duplicates() {
        a.lemma_multiset_has_no_duplicates();
        b.lemma_multiset_has_no_duplicates_conv();
    }
    if b.no_duplicates() {
        b.lemma_multiset_has_no_duplicates();
        a.lemma_multiset_has_no_duplicates_conv();
    }
}

/// A set of characters has one sorted spelling only.
pub proof fn lemma_one_sorted_spelling(a: Seq<char>, b: Seq<char>)
    requires
        strictly_ascending(a),
        strictly_ascending(b),
        a.to_set() == b.to_set(),
    ensures
        a == b,
    decreases a.len(),
{
    if a.len() == 0 {
        if b.len() > 0 {
            assert(b.to_set().contains(b[0]));
            assert(a.contains(b[0]));
        }
        assert(a =~= b);
    } else {
        let x = a.last();
        assert(a.to_set().contains(x));
        assert(b.contains(x));
        let y = b.last();
        assert(b.to_set().contains(y));
        assert(a.contains(y));
        let ix = choose|i: int| 0 <= i < b.len() && b[i] == x;
        let iy = choose|i: int| 0 <= i < a.len() && a[i] == y;
        assert(x <= y) by {
            if ix < b.len() - 1 {
                assert(b[ix] < b[b.len() - 1]);
            }
        }
        assert(y <= x) by {
            if iy < a.len() - 1 {
                assert(a[iy] < a[a.len() - 1]);
            }
        }
        let a0 = a.drop_last();
        let b0 = b.drop_last();
        assert forall|c: char| a0.to_set().contains(c) <==> b0.to_set().contains(c) by {
            if a0.contains(c) {
                let i = choose|i: int| 0 <= i < a0.len() && a0[i] == c;
                assert(a[i] == c && a[i] < a[a.len() - 1]);
                assert(a.to_set().contains(c));
                assert(b.contains(c));
                let j = choose|j: int| 0 <= j < b.len() && b[j] == c;
                assert(j < b.len() - 1);
                assert(b0[j] == c);
            }
            if b0.contains(c) {
                let i = choose|i: int| 0 <= i < b0.len() && b0[i] == c;
                assert(b[i] == c && b[i] < b[b.len() - 1]);
                assert(b.to_set().contains(c));
                assert(a.contains(c));
                let j = choose|j: int| 0 <= j < a.len() && a[j] == c;
                assert(j < a.len() - 1);
                assert(a0[j] == c);
            }
        }
        assert(a0.to_set() =~= b0.to_set());
        lemma_one_sorted_spelling(a0, b0);
        assert(a =~= a0.push(x));
        assert(b =~= b0.push(y));
    }
}

/// Whether `c` occurs in `word`.
pub fn contains_char(word: &Vec<char>, c: char) -> (r: bool)
    ensures
        r == word@.contains(c),
{
    let mut i: usize = 0;
    while i < word.len()
        invariant
            i <= word.len(),
            forall|k: int| 0 <= k < i ==> word@[k] != c,
        decreases word.len() - i,
    {
        if word[i] == c {
            return true;
        }
        i += 1;
    }
    false
}

/// Whether the two words are the same, letter for letter.
pub fn same_chars(a: &Vec<char>, b: &Vec<char>) -> (r: bool)
    ensures
        r == (a@ == b@),
{
    if a.len() != b.len() {
        return false;
    }
    let mut i: usize = 0;
    while i < a.len()
        invariant
            i <= a.len(),
            a.len() == b.len(),
            forall|k: int| 0 <= k < i ==> a@[k] == b@[k],
        decreases a.len() - i,
    {
        if a[i] != b[i] {
            return false;
        }
        i += 1;
    }
    assert(a@ =~= b@);
    true
}

/// Puts `c` at its place in a sorted word, unless it is there already.
pub fn insert_sorted(word: &mut Vec<char>, c: char)
    requires
        strictly_ascending(old(word)@),
    ensures
        strictly_ascending(final(word)@),
        final(word)@.to_set() == old(word)@.to_set().insert(c),
{
    let ghost before = word@;
    let mut at: usize = 0;
    while at < word.len() && word[at] < c
        invariant
            at <= word.len(),
            word@ == before,
            forall|k: int| 0 <= k < at ==> before[k] < c,
        decreases word.len() - at,
    {
        at += 1;
    }
    if at < word.len() && word[at] == c {
        assert(before.contains(c));
        assert(before.to_set().insert(c) =~= before.to_set());
    } else {
        word.insert(at, c);
        proof {
            let after = word@;
            assert(after == before.insert(at as int, c));
            assert forall|i: int, j: int| 0 <= i < j < after.len() implies after[i] < after[j] by {
                if j < at {
                    assert(after[i] == before[i] && after[j] == before[j]);
                } else if j == at {
                    assert(after[i] == before[i]);
                } else if i == at {
                    assert(after[j] == before[j - 1]);
                    assert(before[at as int] <= before[j - 1]) by {
                        if at < j - 1 {
                            assert(before[at as int] < before[j - 1]);
                        }
                    }
                } else if i < at {
                    assert(after[i] == before[i] && after[j] == before[j - 1]);
                    assert(before[i] < before[j - 1]);
                } else {
                    assert(after[i] == before[i - 1] && after[j] == before[j - 1]);
                }
            }
            assert forall|x: char| after.to_set().contains(x) <==> before.to_set().insert(c).contains(x) by {
                if after.contains(x) {
                    let i = choose|i: int| 0 <= i < after.len() && after[i] == x;
                    if i < at {
                        assert(before[i] == x);
                    } else if i > at {
                        assert(before[i - 1] == x);
                    }
                }
                if before.contains(x) {
                    let i = choose|i: int| 0 <= i < before.len() && before[i] == x;
                    if i < at {
                        assert(after[i] == x);
                    } else {
                        assert(after[i + 1] == x);
                    }
                }
                if x == c {
                    assert(after[at as int] == c);
                }
            }
            assert(after.to_set() =~= before.to_set().insert(c));
        }
    }
}

} // verus!
