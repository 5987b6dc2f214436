//! The two seven-letter alphabets: lower-case wire labels name the scrambled
//! inputs, upper-case segment labels name the true display positions.

use vstd::prelude::*;

verus! {

/// Number of wires, and of segments.
pub const WIDTH: usize = 7;

pub open spec fn is_wire(c: char) -> bool {
    'a' <= c && c <= 'g'
}

pub open spec fn is_segment(c: char) -> bool {
    'A' <= c && c <= 'G'
}

/// The wire labels in alphabetical order.
pub open spec fn wire_labels() -> Seq<char> {
    seq!['a', 'b', 'c', 'd', 'e', 'f', 'g']
}

/// The segment labels in alphabetical order.
pub open spec fn segment_labels() -> Seq<char> {
    seq!['A', 'B', 'C', 'D', 'E', 'F', 'G']
}

pub open spec fn wires() -> Set<char> {
    Set::new(|c: char| is_wire(c))
}

pub open spec fn segments() -> Set<char> {
    Set::new(|c: char| is_segment(c))
}

/// Position of a wire label in the alphabet: `a` is 0, `g` is 6.
pub open spec fn wire_index(c: char) -> int {
    c as int - 'a' as int
}

/// A word written in wire labels only.
pub open spec fn all_wires(word: Seq<char>) -> bool {
    forall|i: int| 0 <= i < word.len() ==> is_wire(#[trigger] word[i])
}

pub proof fn lemma_wire_labels()
    ensures
        wire_labels().len() == WIDTH,
        wire_labels().to_set() == wires(),
        wire_labels().no_duplicates(),
        forall|c: char| is_wire(c) ==> 0 <= #[trigger] wire_index(c) < WIDTH && wire_labels()[wire_index(c)] == c,
        forall|i: int| 0 <= i < WIDTH ==> is_wire(#[trigger] wire_labels()[i]) && wire_index(wire_labels()[i]) == i,
{
    let w = wire_labels();
    assert forall|c: char| is_wire(c) implies 0 <= #[trigger] wire_index(c) < WIDTH && w[wire_index(c)] == c by {
        let k = wire_index(c);
        assert(k == 0 || k == 1 || k == 2 || k == 3 || k == 4 || k == 5 || k == 6);
    }
    assert forall|c: char| w.to_set().contains(c) <==> wires().contains(c) by {
        if is_wire(c) {
            assert(w[wire_index(c)] == c);
        }
    }
    assert(w.to_set() =~= wires());
}

pub proof fn lemma_segment_labels()
    ensures
        segment_labels().len() == WIDTH,
        segment_labels().to_set() == segments(),
        segment_labels().no_duplicates(),
        segments().finite(),
        segments().len() == WIDTH,
{
    let s = segment_labels();
    assert forall|c: char| s.to_set().contains(c) <==> segments().contains(c) by {
        if is_segment(c) {
            let k = c as int - 'A' as int;
            assert(k == 0 || k == 1 || k == 2 || k == 3 || k == 4 || k == 5 || k == 6);
            assert(s[k] == c);
        }
    }
    assert(s.to_set() =~= segments());
    s.unique_seq_to_set();
}

/// Whether `c` is one of the seven wire labels.
pub fn is_wire_label(c: char) -> (r: bool)
    ensures
        r == is_wire(c),
{
    'a' <= c && c <= 'g'
}

/// Whether `c` is one of the seven segment labels.
pub fn is_segment_label(c: char) -> (r: bool)
    ensures
        r == is_segment(c),
{
    'A' <= c && c <= 'G'
}

/// Position of the wire `c` in a table with one entry per wire.
pub fn wire_position(c: char) -> (r: usize)
    requires
        is_wire(c),
    ensures
        r == wire_index(c),
        r < WIDTH,
{
    (c as u32 - 'a' as u32) as usize
}

/// The seven wire labels, `a` first.
pub fn wire_alphabet() -> (r: Vec<char>)
    ensures
        r@ == wire_labels(),
{
    vec!['a', 'b', 'c', 'd', 'e', 'f', 'g']
}

/// The seven segment labels, `A` first.
pub fn segment_alphabet() -> (r: Vec<char>)
    ensures
        r@ == segment_labels(),
{
    vec!['A', 'B', 'C', 'D', 'E', 'F', 'G']
}

} // verus!
