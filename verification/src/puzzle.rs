//! One line of puzzle text: the input words, a bar, the output words.

use vstd::prelude::*;
use crate::alphabet::all_wires;
use crate::digit::DigitState;
use crate::error::DecodeError;
use crate::model::{build, reading, Knowledge};
use crate::codeword::{shortest_first, texts};
use crate::outside::{is_whitespace, pattern_matches, white_space};
use crate::patterns::digit_of_length;
use crate::laws::rearranges;
use crate::sevensegdecoder::SevenSegDecoder;

verus! {

/// The character between the inputs and the outputs of a line.
pub const BAR: char = '|';

/// The words of `s`: its longest stretches without white space, in order.
pub open spec fn words(s: Seq<char>) -> Seq<Seq<char>>
    decreases s.len(),
{
    if s.len() == 0 {
        Seq::empty()
    } else {
        let before = words(s.drop_last());
        let c = s.last();
        if white_space(c) {
            before
        } else if s.len() >= 2 && !white_space(s[s.len() - 2]) && before.len() > 0 {
            before.drop_last().push(before.last().push(c))
        } else {
            before.push(seq![c])
        }
    }
}

/// The line holds exactly one bar.
pub open spec fn one_bar(line: Seq<char>) -> bool {
    exists|at: int| is_bar_at(line, at)
}

/// The only bar of the line is at `at`.
pub open spec fn is_bar_at(line: Seq<char>, at: int) -> bool {
    &&& 0 <= at < line.len()
    &&& line[at] == BAR
    &&& forall|i: int| 0 <= i < line.len() && i != at ==> line[i] != BAR
}

/// The text before the bar.
pub open spec fn left_of_bar(line: Seq<char>) -> Seq<char> {
    line.take(choose|at: int| is_bar_at(line, at))
}

/// The text after the bar.
pub open spec fn right_of_bar(line: Seq<char>) -> Seq<char> {
    line.skip((choose|at: int| is_bar_at(line, at)) + 1)
}

/// Every word is written in wire labels, one at least.
pub open spec fn wire_words(list: Seq<Seq<char>>) -> bool {
    forall|i: int| 0 <= i < list.len() ==> (#[trigger] list[i]).len() > 0 && all_wires(list[i])
}

/// The line is a puzzle: one bar, and on both sides of it words of wire
/// labels only.
pub open spec fn well_written(line: Seq<char>) -> bool {
    &&& one_bar(line)
    &&& wire_words(words(left_of_bar(line)))
    &&& wire_words(words(right_of_bar(line)))
}

/// The number that decimal digits spell, the first digit weighing most.
pub open spec fn number(digits: Seq<u8>) -> nat
    decreases digits.len(),
{
    if digits.len() == 0 {
        0
    } else {
        number(digits.drop_last()) * 10 + digits.last() as nat
    }
}

/// Every word of `outputs` has a decided digit in the table.
pub open spec fn all_read(digits: Map<Set<char>, DigitState>, outputs: Seq<Seq<char>>) -> bool {
    forall|i: int| 0 <= i < outputs.len() ==> reading(digits, (#[trigger] outputs[i]).to_set()) is Ok
}

/// The digits of the words of `outputs`, in order.
pub open spec fn digits_read(digits: Map<Set<char>, DigitState>, outputs: Seq<Seq<char>>) -> Seq<u8> {
    Seq::new(outputs.len(), |i: int| reading(digits, outputs[i].to_set())->Ok_0)
}

/// The number that `outputs` shows under the table, or the failure of the
/// first word that cannot be read.
pub open spec fn value_read(
    digits: Map<Set<char>, DigitState>,
    outputs: Seq<Seq<char>>,
) -> Result<nat, DecodeError> {
    if all_read(digits, outputs) {
        Ok(number(digits_read(digits, outputs)))
    } else {
        Err(DecodeError::UnrecognizedOutput)
    }
}

/// The value of a line whose search ended with `found`.
pub open spec fn line_value(
    found: Result<Knowledge, DecodeError>,
    outputs: Seq<Seq<char>>,
) -> Result<nat, DecodeError> {
    match found {
        Ok(k) => value_read(k.digits, outputs),
        Err(e) => Err(e),
    }
}

/// The number of letters of each word.
pub open spec fn lengths(list: Seq<Seq<char>>) -> Seq<int> {
    Seq::new(list.len(), |i: int| list[i].len() as int)
}

/// How many of the lengths give a digit away.
pub open spec fn easy_among(lengths: Seq<int>) -> nat
    decreases lengths.len(),
{
    if lengths.len() == 0 {
        0
    } else if digit_of_length(lengths.last()) is Some {
        easy_among(lengths.drop_last()) + 1
    } else {
        easy_among(lengths.drop_last())
    }
}

/// Ten to the power `n`.
pub open spec fn pow10(n: nat) -> nat
    decreases n,
{
    if n == 0 {
        1
    } else {
        10 * pow10((n - 1) as nat)
    }
}

proof fn lemma_pow10_grows(a: nat, b: nat)
    requires
        a <= b,
    ensures
        pow10(a) <= pow10(b),
        pow10(a) >= 1,
    decreases b,
{
    if a < b {
        lemma_pow10_grows(a, (b - 1) as nat);
    } else if a > 0 {
        lemma_pow10_grows((a - 1) as nat, (b - 1) as nat);
    }
}

/// A result with its number as a natural number.
pub open spec fn widen(r: Result<u64, DecodeError>) -> Result<nat, DecodeError> {
    match r {
        Ok(v) => Ok(v as nat),
        Err(e) => Err(e),
    }
}

/// The pattern of a word of wire labels.
pub const WIRE_WORD: &'static str = "^[a-g]+$";

/// The characters of `line`.
fn chars_of(line: &str) -> (r: Vec<char>)
    ensures
        r@ == line@,
{
    broadcast use vstd::string::group_string_axioms;
    let mut chars: Vec<char> = Vec::new();
    for c in it: line.chars()
        invariant
            it.seq() == line@,
            chars@ == line@.take(it.index() as int),
    {
        proof {
            assert(line@.take(it.index() + 1) =~= line@.take(it.index() as int).push(c));
        }
        chars.push(c);
    }
    proof {
        assert(line@.take(line@.len() as int) =~= line@);
    }
    chars
}

/// The words of the stretch of `line` from `from` up to `to`.
fn split_words<'a>(line: &'a str, chars: &Vec<char>, from: usize, to: usize) -> (r: Vec<&'a str>)
    requires
        chars@ == line@,
        from <= to <= chars.len(),
    ensures
        texts(r@) == words(chars@.subrange(from as int, to as int)),
{
    let ghost region = chars@.subrange(from as int, to as int);
    let mut done: Vec<&'a str> = Vec::new();
    let mut start: usize = from;
    let mut i: usize = from;
    proof {
        assert(region.take(0) =~= Seq::<char>::empty());
        assert(texts(done@) =~= Seq::<Seq<char>>::empty());
    }
    while i < to
        invariant
            from <= start <= i <= to,
            to <= chars.len(),
            chars@ == line@,
            region == chars@.subrange(from as int, to as int),
            start < i ==> forall|k: int| start <= k < i ==> !white_space(#[trigger] chars@[k]),
            start < i ==> (start == from || white_space(chars@[start - 1])),
            start == i ==> (i == from || white_space(chars@[i - 1])),
            words(region.take(i - from)) == if start < i {
                texts(done@).push(chars@.subrange(start as int, i as int))
            } else {
                texts(done@)
            },
        decreases to - i,
    {
        let c = chars[i];
        let ghost seen = region.take(i - from);
        let ghost seen_now = region.take(i + 1 - from);
        proof {
            assert(seen_now.drop_last() =~= seen);
            assert(seen_now.last() == c);
            if i > from {
                assert(seen_now[seen_now.len() - 2] == chars@[i - 1]);
            }
        }
        if is_whitespace(c) {
            if start < i {
                let ghost before = done@;
                done.push(line.substring_char(start, i));
                proof {
                    assert(texts(done@) =~= texts(before).push(chars@.subrange(start as int, i as int)));
                }
            }
            start = i + 1;
        } else {
            proof {
                if start < i {
                    assert(!white_space(chars@[i - 1]));
                    let grown = chars@.subrange(start as int, i as int).push(c);
                    assert(grown =~= chars@.subrange(start as int, i + 1));
                    let list = texts(done@).push(chars@.subrange(start as int, i as int));
                    assert(list.drop_last() =~= texts(done@));
                    assert(list.last() == chars@.subrange(start as int, i as int));
                } else {
                    assert(seq![c] =~= chars@.subrange(start as int, i + 1));
                    if i > from {
                        assert(white_space(chars@[i - 1]));
                    }
                }
            }
        }
        i += 1;
    }
    proof {
        assert(region.take(to - from) =~= region);
    }
    if start < i {
        let ghost before = done@;
        done.push(line.substring_char(start, i));
        proof {
            assert(texts(done@) =~= texts(before).push(chars@.subrange(start as int, i as int)));
        }
    }
    done
}

/// Whether every word of the list is a word of wire labels.
fn all_wire_words(list: &Vec<&str>) -> (r: bool)
    ensures
        r == wire_words(texts(list@)),
{
    let mut i: usize = 0;
    while i < list.len()
        invariant
            i <= list.len(),
            forall|k: int| 0 <= k < i ==> (#[trigger] texts(list@)[k]).len() > 0 && all_wires(texts(list@)[k]),
        decreases list.len() - i,
    {
        assert(texts(list@)[i as int] == list[i as int]@);
        match pattern_matches(WIRE_WORD, list[i]) {
            Some(true) => {},
            _ => {
                return false;
            },
        }
        i += 1;
    }
    true
}

/// The input words and the output words of one line.
#[derive(Debug)]
pub struct Puzzle<'a> {
    inputs: Vec<&'a str>,
    outputs: Vec<&'a str>,
}

impl<'a> Puzzle<'a> {
    #[verifier::type_invariant]
    spec fn well_formed(&self) -> bool {
        wire_words(texts(self.inputs@)) && wire_words(texts(self.outputs@))
    }

    /// The texts of the input words.
    pub closed spec fn input_words(&self) -> Seq<Seq<char>> {
        texts(self.inputs@)
    }

    /// The texts of the output words.
    pub closed spec fn output_words(&self) -> Seq<Seq<char>> {
        texts(self.outputs@)
    }

    /// Reads a line: the words before its one bar are the inputs, those
    /// after it the outputs. A line without a bar or with several, or with a
    /// word that is not made of wire labels, is no puzzle.
    pub fn new(line: &'a str) -> (r: Option<Puzzle<'a>>)
        ensures
            r is Some <==> well_written(line@),
            r matches Some(puzzle) ==> puzzle.input_words() == words(left_of_bar(line@))
                && puzzle.output_words() == words(right_of_bar(line@)),
    {
        let chars = chars_of(line);
        let mut bar: Option<usize> = None;
        let mut i: usize = 0;
        while i < chars.len()
            invariant
                i <= chars.len(),
                chars@ == line@,
                match bar {
                    Some(at) => at < i && is_bar_at(chars@.take(i as int), at as int),
                    None => forall|k: int| 0 <= k < i ==> chars@[k] != BAR,
                },
            decreases chars.len() - i,
        {
            if chars[i] == BAR {
                if bar.is_some() {
                    proof {
                        let first = bar->Some_0 as int;
                        assert(chars@.take(i as int)[first] == BAR);
                        assert forall|at: int| !is_bar_at(line@, at) by {
                            if is_bar_at(line@, at) {
                                if at == first {
                                    assert(line@[i as int] == BAR);
                                } else {
                                    assert(line@[first] == BAR);
                                }
                            }
                        }
                    }
                    return None;
                }
                bar = Some(i);
            }
            proof {
                if let Some(at) = bar {
                    let seen = chars@.take(i + 1);
                    assert forall|k: int| 0 <= k < seen.len() && k != at implies seen[k] != BAR by {
                        if at < i && k < i {
                            assert(chars@.take(i as int)[k] == seen[k]);
                        }
                    }
                }
            }
            i += 1;
        }
        proof {
            assert(chars@.take(i as int) =~= chars@);
        }
        let at = match bar {
            Some(at) => at,
            None => {
                assert forall|at: int| !is_bar_at(line@, at) by {}
                return None;
            },
        };
        proof {
            let chosen = choose|k: int| is_bar_at(line@, k);
            assert(is_bar_at(line@, at as int));
            assert(chosen == at);
            assert(chars@.subrange(0, at as int) =~= left_of_bar(line@));
            assert(chars@.subrange(at + 1, chars@.len() as int) =~= right_of_bar(line@));
        }
        let inputs = split_words(line, &chars, 0, at);
        let outputs = split_words(line, &chars, at + 1, chars.len());
        // Every word is to be made of the letters a to g.
        if !all_wire_words(&inputs) {
            return None;
        }
        if !all_wire_words(&outputs) {
            return None;
        }
        Some(Puzzle { inputs, outputs })
    }

    /// The input words.
    pub fn inputs(&self) -> (r: &Vec<&'a str>)
        ensures
            texts(r@) == self.input_words(),
            wire_words(texts(r@)),
    {
        proof {
            use_type_invariant(self);
        }
        &self.inputs
    }

    /// The output words.
    pub fn outputs(&self) -> (r: &Vec<&'a str>)
        ensures
            texts(r@) == self.output_words(),
            wire_words(texts(r@)),
    {
        proof {
            use_type_invariant(self);
        }
        &self.outputs
    }

    /// How many of the outputs show 1, 4, 7 or 8, the digits that the
    /// length of a word gives away.
    pub fn count_easy(&self) -> (r: usize)
        ensures
            r == easy_among(lengths(self.output_words())),
    {
        let ghost all = lengths(self.output_words());
        let mut total: usize = 0;
        let mut i: usize = 0;
        while i < self.outputs.len()
            invariant
                i <= self.outputs.len(),
                all == lengths(texts(self.outputs@)),
                total == easy_among(all.take(i as int)),
                total <= i,
            decreases self.outputs.len() - i,
        {
            proof {
                assert(all.take(i + 1).drop_last() =~= all.take(i as int));
                assert(all.take(i + 1).last() == self.outputs[i as int]@.len());
            }
            if SevenSegDecoder::digit_by_length(self.outputs[i].unicode_len()).is_some() {
                total += 1;
            }
            i += 1;
        }
        proof {
            assert(all.take(i as int) =~= all);
        }
        total
    }

    /// Solves the line: builds the decoder from the inputs, taken shortest
    /// first, and reads the outputs as one decimal number. Fails as the
    /// decoder fails, and with `UnrecognizedOutput` where an output is not
    /// among the inputs.
    pub fn solve(&self) -> (r: Result<u64, DecodeError>)
        requires
            self.output_words().len() <= 19,
        ensures
            exists|order: Seq<&str>|
                rearranges(texts(order), self.input_words()) && shortest_first(order) && widen(r)
                    == line_value(build(#[trigger] texts(order)), self.output_words()),
    {
        proof {
            use_type_invariant(self);
            assert forall|i: int| 0 <= i < self.inputs.len() implies all_wires((#[trigger] self.inputs[i])@) by {
                assert(texts(self.inputs@)[i] == self.inputs[i]@);
            }
        }
        match SevenSegDecoder::new(&self.inputs) {
            Ok(ssd) => ssd.decode_all(&self.outputs),
            Err(e) => Err(e),
        }
    }
}

impl SevenSegDecoder {
    /// Reads `outputs` as one decimal number, the first word giving the
    /// leading digit. Fails with `UnrecognizedOutput` where a word cannot be
    /// decoded.
    pub fn decode_all(&self, outputs: &Vec<&str>) -> (r: Result<u64, DecodeError>)
        requires
            outputs.len() <= 19,
        ensures
            widen(r) == value_read(self@.digits, texts(outputs@)),
    {
        let ghost table = self@.digits;
        let ghost all = texts(outputs@);
        let mut total: u64 = 0;
        let mut i: usize = 0;
        proof {
            assert(digits_read(table, all.take(0)) =~= Seq::<u8>::empty());
        }
        while i < outputs.len()
            invariant
                i <= outputs.len() <= 19,
                table == self@.digits,
                all == texts(outputs@),
                all_read(table, all.take(i as int)),
                total == number(digits_read(table, all.take(i as int))),
                total < pow10(i as nat),
            decreases outputs.len() - i,
        {
            let ghost seen = all.take(i as int);
            let ghost seen_now = all.take(i + 1);
            proof {
                assert(all[i as int] == outputs[i as int]@);
                assert(seen_now[i as int] == all[i as int]);
            }
            let digit = match self.decode(outputs[i]) {
                Ok(digit) => digit,
                Err(e) => {
                    proof {
                        assert(!(reading(table, all[i as int].to_set()) is Ok));
                    }
                    return Err(e);
                },
            };
            proof {
                assert forall|k: int| 0 <= k < seen_now.len() implies reading(
                    table,
                    (#[trigger] seen_now[k]).to_set(),
                ) is Ok by {
                    if k < i {
                        assert(seen[k] == seen_now[k]);
                    }
                }
                assert(digits_read(table, seen_now).drop_last() =~= digits_read(table, seen));
                assert(digits_read(table, seen_now).last() == digit);
                lemma_pow10_grows(i as nat, 18);
                assert(pow10(18) == 1_000_000_000_000_000_000) by {
                    reveal_with_fuel(pow10, 20);
                }
            }
            total = total * 10 + digit as u64;
            i += 1;
        }
        proof {
            assert(all.take(i as int) =~= all);
        }
        Ok(total)
    }
}

} // verus!
