//! The segments that one wire may still drive.

use vstd::prelude::*;
use crate::alphabet::{lemma_segment_labels, segment_alphabet, segment_labels, segments};

verus! {

/// `s` with every occurrence of `c` taken out.
pub open spec fn without(s: Seq<char>, c: char) -> Seq<char>
    decreases s.len(),
{
    if s.len() == 0 {
        s
    } else if s.last() == c {
        without(s.drop_last(), c)
    } else {
        without(s.drop_last(), c).push(s.last())
    }
}

pub proof fn lemma_without(s: Seq<char>, c: char)
    ensures
        without(s, c).to_set() == s.to_set().remove(c),
        without(s, c).len() <= s.len(),
        s.no_duplicates() ==> without(s, c).no_duplicates(),
        !s.contains(c) ==> without(s, c) == s,
    decreases s.len(),
{
    if s.len() > 0 {
        let head = s.drop_last();
        lemma_without(head, c);
        let w = without(s, c);
        assert(s =~= head.push(s.last()));
        head.lemma_push_to_set_commute(s.last());
        if s.last() != c {
            without(head, c).lemma_push_to_set_commute(s.last());
        }
        assert(w.to_set() =~= s.to_set().remove(c));
        if s.no_duplicates() {
            assert(head.no_duplicates());
            if s.last() != c {
                assert forall|i: int, j: int| 0 <= i < w.len() && 0 <= j < w.len() && i != j implies w[i] != w[j] by {
                    if i == w.len() - 1 || j == w.len() - 1 {
                        let k = if i == w.len() - 1 { j } else { i };
                        assert(without(head, c).contains(w[k]));
                        assert(head.to_set().contains(w[k]));
                        let m = choose|m: int| 0 <= m < head.len() && head[m] == w[k];
                        assert(s[m] == w[k]);
                    }
                }
            }
        }
        if !s.contains(c) {
            assert(s[s.len() - 1] != c);
            assert forall|i: int| 0 <= i < head.len() implies head[i] != c by {
                assert(s[i] == head[i]);
            }
            assert(w =~= s);
        }
    }
}

/// Candidate segments of a single wire.
#[derive(Debug)]
pub struct Segment {
    pub candidates: Vec<char>,
}

impl View for Segment {
    type V = Set<char>;

    open spec fn view(&self) -> Set<char> {
        self.candidates@.to_set()
    }
}

impl Segment {
    /// A wire about which nothing is known: every segment is a candidate.
    pub fn new() -> (s: Segment)
        ensures
            s.candidates@ == segment_labels(),
            s@ == segments(),
    {
        proof {
            lemma_segment_labels();
        }
        Segment { candidates: segment_alphabet() }
    }

    /// Rules `candidate` out. The other candidates stay, in their order.
    pub fn eliminate(&mut self, candidate: &char)
        ensures
            final(self).candidates@ == without(old(self).candidates@, *candidate),
            final(self)@ == old(self)@.remove(*candidate),
            final(self)@.subset_of(old(self)@),
            final(self)@.len() <= old(self)@.len(),
    {
        let ghost before = self.candidates@;
        let mut kept: Vec<char> = Vec::new();
        let mut i: usize = 0;
        while i < self.candidates.len()
            invariant
                i <= self.candidates.len(),
                self.candidates@ == before,
                kept@ == without(before.take(i as int), *candidate),
            decreases self.candidates.len() - i,
        {
            let c = self.candidates[i];
            proof {
                assert(before.take(i + 1).drop_last() =~= before.take(i as int));
                assert(before.take(i + 1).last() == c);
            }
            if c != *candidate {
                kept.push(c);
            }
            i += 1;
        }
        proof {
            assert(before.take(i as int) =~= before);
            lemma_without(before, *candidate);
            vstd::seq_lib::seq_to_set_is_finite(before);
            vstd::set_lib::lemma_len_subset(kept@.to_set(), before.to_set());
        }
        self.candidates = kept;
    }
}

} // verus!
