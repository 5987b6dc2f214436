//! The table of candidates, one [`Segment`] per wire, and the two operations
//! of the search on it: narrowing by a known digit, and listing what a word
//! could still show.

use vstd::prelude::*;
use crate::alphabet::{
    all_wires, is_wire, lemma_segment_labels, lemma_wire_labels, segment_labels, segments,
    wire_labels, wire_position, wires,
};
use crate::codeword::lemma_complement;
use crate::model::{assign, pattern};
use crate::segment::Segment;
use crate::sevensegdecoder::SevenSegDecoder;

verus! {

/// The candidate sets of a table of wires, by position.
pub open spec fn candidates_of(segments: Seq<Segment>) -> Seq<Set<char>> {
    Seq::new(segments.len(), |w: int| segments[w]@)
}

/// Rules out every member of `out`.
fn eliminate_all(segment: &mut Segment, out: &Vec<char>)
    ensures
        final(segment)@ == old(segment)@.difference(out@.to_set()),
{
    let mut i: usize = 0;
    while i < out.len()
        invariant
            i <= out.len(),
            segment@ == old(segment)@.difference(out@.take(i as int).to_set()),
        decreases out.len() - i,
    {
        proof {
            assert(out@.take(i + 1) =~= out@.take(i as int).push(out@[i as int]));
            out@.take(i as int).lemma_push_to_set_commute(out@[i as int]);
        }
        segment.eliminate(&out[i]);
        proof {
            assert(segment@ =~= old(segment)@.difference(out@.take(i + 1).to_set()));
        }
        i += 1;
    }
    proof {
        assert(out@.take(i as int) =~= out@);
    }
}

/// Rules out every member of `out` for each wire in `which`.
fn eliminate_for(segments: &mut Vec<Segment>, which: &Vec<char>, out: &Vec<char>)
    requires
        old(segments).len() == 7,
        all_wires(which@),
    ensures
        final(segments).len() == 7,
        forall|w: int|
            0 <= w < 7 ==> (#[trigger] final(segments)[w])@ == if which@.contains(wire_labels()[w]) {
                old(segments)[w]@.difference(out@.to_set())
            } else {
                old(segments)[w]@
            },
{
    let ghost before = segments@;
    let mut i: usize = 0;
    while i < which.len()
        invariant
            i <= which.len(),
            segments.len() == 7,
            all_wires(which@),
            forall|w: int|
                0 <= w < 7 ==> (#[trigger] segments[w])@ == if which@.take(i as int).contains(
                    wire_labels()[w],
                ) {
                    before[w]@.difference(out@.to_set())
                } else {
                    before[w]@
                },
        decreases which.len() - i,
    {
        let code = which[i];
        let at = wire_position(code);
        let ghost mid = segments@;
        eliminate_all(&mut segments[at], out);
        proof {
            lemma_wire_labels();
            let seen = which@.take(i as int);
            let seen_now = which@.take(i + 1);
            assert(seen_now =~= seen.push(code));
            assert forall|w: int| 0 <= w < 7 implies (#[trigger] segments[w])@ == if seen_now.contains(
                wire_labels()[w],
            ) {
                before[w]@.difference(out@.to_set())
            } else {
                before[w]@
            } by {
                let label = wire_labels()[w];
                assert(mid[w]@ == if seen.contains(label) {
                    before[w]@.difference(out@.to_set())
                } else {
                    before[w]@
                });
                if w == at {
                    assert(label == code);
                    assert(seen_now[i as int] == code);
                    assert(segments[w]@ == mid[w]@.difference(out@.to_set()));
                    assert(before[w]@.difference(out@.to_set()).difference(out@.to_set())
                        =~= before[w]@.difference(out@.to_set()));
                } else {
                    assert(segments[w] == mid[w]);
                    assert(label != code);
                    if seen_now.contains(label) {
                        let j = choose|j: int| 0 <= j < seen_now.len() && seen_now[j] == label;
                        assert(seen[j] == label);
                    }
                    if seen.contains(label) {
                        let j = choose|j: int| 0 <= j < seen.len() && seen[j] == label;
                        assert(seen_now[j] == label);
                    }
                }
            }
        }
        i += 1;
    }
    proof {
        assert(which@.take(i as int) =~= which@);
    }
}

impl SevenSegDecoder {
    /// Narrows the candidates by the fact that the word `code_segments_on`
    /// shows `digit`.
    pub fn update_segments(code_segments_on: &Vec<char>, digit: u8, segments: &mut Vec<Segment>)
        requires
            digit <= 9,
            old(segments).len() == 7,
            all_wires(code_segments_on@),
        ensures
            final(segments).len() == 7,
            candidates_of(final(segments)@) == assign(
                candidates_of(old(segments)@),
                code_segments_on@.to_set(),
                digit,
            ),
            forall|w: int|
                0 <= w < 7 ==> (#[trigger] final(segments)[w])@.subset_of(old(segments)[w]@),
    {
        let ghost before = segments@;
        let code_segments_off = Self::invert_segments(code_segments_on);
        let clear_segments_on = Self::digit_to_segments(digit);
        let clear_segments_off = Self::invert_segments(&clear_segments_on);
        proof {
            lemma_wire_labels();
            lemma_segment_labels();
            lemma_complement(wire_labels(), code_segments_on@);
            lemma_complement(segment_labels(), clear_segments_on@);
            assert(pattern(digit).len() > 0 && crate::alphabet::is_segment(pattern(digit)[0]));
            if code_segments_on@.len() > 0 {
                assert(is_wire(code_segments_on@[0]));
            }
            assert forall|i: int| 0 <= i < code_segments_off@.len() implies is_wire(
                #[trigger] code_segments_off@[i],
            ) by {
                assert(code_segments_off@.to_set().contains(code_segments_off@[i]));
                assert(wires().contains(code_segments_off@[i]));
            }
        }
        // Wires that are on cannot drive segments that are off.
        eliminate_for(segments, code_segments_on, &clear_segments_off);
        let ghost mid = segments@;
        // Wires that are off cannot drive segments that are on.
        eliminate_for(segments, &code_segments_off, &clear_segments_on);
        proof {
            let on = code_segments_on@.to_set();
            let target = assign(candidates_of(before), on, digit);
            assert forall|w: int| 0 <= w < 7 implies candidates_of(segments@)[w] == target[w] by {
                let label = wire_labels()[w];
                assert(mid[w]@ == if code_segments_on@.contains(label) {
                    before[w]@.difference(clear_segments_off@.to_set())
                } else {
                    before[w]@
                });
                assert(segments[w]@ == if code_segments_off@.contains(label) {
                    mid[w]@.difference(clear_segments_on@.to_set())
                } else {
                    mid[w]@
                });
                assert(code_segments_off@.to_set().contains(label) <==> wires().contains(label)
                    && !on.contains(label));
                assert(wires().contains(label));
            }
            assert(candidates_of(segments@) =~= target);
        }
    }
}

} // verus!
