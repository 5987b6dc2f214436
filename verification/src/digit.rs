//! What is known of the digit that one input word shows.

use std::collections::HashSet;
use vstd::prelude::*;

verus! {

/// Mathematical value of a [`Digit`].
pub enum DigitState {
    /// The digit is known.
    Decided(u8),
    /// The digit is one of these.
    Undecided(Set<u8>),
    /// No digit lights that many segments.
    Invalid,
}

/// What the number of lit wires alone tells about a word: 1, 7, 4 and 8 are
/// the only digits with 2, 3, 4 and 7 segments; five segments leave 2, 3 and
/// 5; six leave 0, 6 and 9.
pub open spec fn classify(lit: nat) -> DigitState {
    if lit == 2 {
        DigitState::Decided(1)
    } else if lit == 3 {
        DigitState::Decided(7)
    } else if lit == 4 {
        DigitState::Decided(4)
    } else if lit == 5 {
        DigitState::Undecided(set![2u8, 3u8, 5u8])
    } else if lit == 6 {
        DigitState::Undecided(set![0u8, 6u8, 9u8])
    } else if lit == 7 {
        DigitState::Decided(8)
    } else {
        DigitState::Invalid
    }
}

/// The only member of `s`, if it has exactly one.
pub open spec fn sole(s: Set<u8>) -> Option<u8> {
    if s.finite() && s.len() == 1 {
        Some(s.choose())
    } else {
        None
    }
}

/// `state` once `candidate` is known not to be the digit: an undecided state
/// loses the candidate and is decided as soon as one digit is left.
pub open spec fn rule_out(state: DigitState, candidate: u8) -> DigitState {
    match state {
        DigitState::Undecided(s) => match sole(s.remove(candidate)) {
            Some(d) => DigitState::Decided(d),
            None => DigitState::Undecided(s.remove(candidate)),
        },
        _ => state,
    }
}

/// There are only 256 values of `u8`, so a set of them cannot be infinite.
pub proof fn lemma_digit_set_finite(s: Set<u8>)
    ensures
        s.finite(),
{
    let narrow = |i: int| i as u8;
    let all = vstd::set_lib::set_int_range(0, 256).map(narrow);
    vstd::set_lib::lemma_int_range(0, 256);
    vstd::set_lib::set_int_range(0, 256).lemma_map_finite(narrow);
    assert forall|x: u8| s.contains(x) implies all.contains(x) by {
        assert(vstd::set_lib::set_int_range(0, 256).contains(x as int));
        assert(narrow(x as int) == x);
    }
    vstd::set_lib::lemma_set_subset_finite(all, s);
}

pub proof fn lemma_sole(s: Set<u8>, d: u8)
    requires
        s.len() == 1,
        s.contains(d),
    ensures
        sole(s) == Some(d),
        s == set![d],
{
    lemma_digit_set_finite(s);
    let e = s.choose();
    if e != d {
        assert(s.remove(d).contains(e));
        assert(s.remove(d).len() == 0);
    }
    assert forall|x: u8| s.contains(x) implies x == d by {
        if x != d {
            assert(s.remove(d).contains(x));
            assert(s.remove(d).len() == 0);
        }
    }
    assert(s =~= set![d]);
}

/// State of one input word during the search.
#[derive(Debug)]
pub enum Digit {
    Decided(u8),
    Undecided(HashSet<u8>),
    Invalid,
}

impl View for Digit {
    type V = DigitState;

    open spec fn view(&self) -> DigitState {
        match self {
            Digit::Decided(d) => DigitState::Decided(*d),
            Digit::Undecided(s) => DigitState::Undecided(s@),
            Digit::Invalid => DigitState::Invalid,
        }
    }
}

impl Clone for Digit {
    fn clone(&self) -> (r: Digit)
        ensures
            r@ == self@,
    {
        broadcast use vstd::std_specs::hash::group_hash_axioms;
        match self {
            Digit::Decided(d) => Digit::Decided(*d),
            Digit::Invalid => Digit::Invalid,
            Digit::Undecided(candidates) => {
                let mut copy: HashSet<u8> = HashSet::new();
                let mut d: u8 = 0;
                loop
                    invariant_except_break
                        forall|e: u8| copy@.contains(e) <==> e < d && candidates@.contains(e),
                    ensures
                        copy@ == candidates@,
                    decreases 255 - d,
                {
                    if candidates.contains(&d) {
                        copy.insert(d);
                    }
                    if d == 255 {
                        assert(copy@ =~= candidates@);
                        break;
                    }
                    d += 1;
                }
                Digit::Undecided(copy)
            },
        }
    }
}

impl Digit {
    pub fn is_undecided(&self) -> (r: bool)
        ensures
            r == (self@ is Undecided),
    {
        match self {
            Digit::Undecided(_) => true,
            Digit::Decided(_) => false,
            Digit::Invalid => false,
        }
    }

    pub fn is_decided(&self) -> (r: bool)
        ensures
            r == (self@ is Decided),
    {
        match self {
            Digit::Decided(_) => true,
            Digit::Undecided(_) => false,
            Digit::Invalid => false,
        }
    }

    /// Rules `candidate` out of an undecided state; a state that is decided
    /// or invalid stays as it is.
    pub fn eliminate(&mut self, candidate: &u8)
        ensures
            final(self)@ == rule_out(old(self)@, *candidate),
    {
        broadcast use vstd::std_specs::hash::group_hash_axioms;
        let mut answer: Option<u8> = None;
        match self {
            Digit::Undecided(candidates) => {
                candidates.remove(candidate);
                if candidates.len() == 1 {
                    answer = Self::only_member(candidates);
                }
            },
            _ => {},
        }
        if let Some(d) = answer {
            *self = Digit::Decided(d);
        }
    }

    /// The member of a set of one.
    fn only_member(candidates: &HashSet<u8>) -> (r: Option<u8>)
        requires
            candidates@.len() == 1,
        ensures
            r == sole(candidates@),
            r is Some,
    {
        broadcast use vstd::std_specs::hash::group_hash_axioms;
        let mut d: u8 = 0;
        while d < 255
            invariant
                candidates@.len() == 1,
                forall|e: u8| e < d ==> !candidates@.contains(e),
            decreases 255 - d,
        {
            if candidates.contains(&d) {
                proof {
                    lemma_sole(candidates@, d);
                }
                return Some(d);
            }
            d += 1;
        }
        proof {
            let e = candidates@.choose();
            assert(candidates@.contains(e));
            lemma_sole(candidates@, 255u8);
        }
        Some(d)
    }
}

} // verus!
