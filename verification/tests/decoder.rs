use sevenseg::error::DecodeError;
use sevenseg::sevensegdecoder::SevenSegDecoder;

const PATTERNS: [&str; 10] = [
    "ABCEFG", "CF", "ACDEG", "ACDFG", "BCDF", "ABDFG", "ABDEFG", "ACF", "ABCDEFG", "ABCDFG",
];

fn classic_inputs() -> Vec<&'static str> {
    vec![
        "acedgfb", "cdfbe", "gcdfa", "fbcad", "dab", "cefabd", "cdfgeb", "eafb", "cagedb", "ab",
    ]
}

/// The word that a display shows for `digit` when wire `i` drives
/// `wiring[i]`.
fn scramble(wiring: &[char; 7], digit: usize) -> String {
    let wires = ['a', 'b', 'c', 'd', 'e', 'f', 'g'];
    let mut word = String::new();
    for i in 0..7 {
        if PATTERNS[digit].contains(wiring[i]) {
            word.push(wires[i]);
        }
    }
    word
}

/// All orders of the seven segments.
fn wirings() -> Vec<[char; 7]> {
    fn extend(prefix: &mut Vec<char>, rest: &mut Vec<char>, out: &mut Vec<[char; 7]>) {
        if rest.is_empty() {
            let mut wiring = ['A'; 7];
            wiring.copy_from_slice(prefix);
            out.push(wiring);
            return;
        }
        for i in 0..rest.len() {
            let c = rest.remove(i);
            prefix.push(c);
            extend(prefix, rest, out);
            prefix.pop();
            rest.insert(i, c);
        }
    }
    let mut out = Vec::new();
    extend(&mut Vec::new(), &mut "ABCDEFG".chars().collect(), &mut out);
    out
}

#[test]
fn classic_example_decodes_to_5353() {
    let decoder = SevenSegDecoder::new(&classic_inputs()).unwrap();
    let outputs = ["cdfeb", "fcadb", "cdfeb", "cdfbac"];
    let mut number: u64 = 0;
    for word in outputs {
        number = number * 10 + decoder.decode(word).unwrap() as u64;
    }
    assert_eq!(number, 5353);
}

#[test]
fn classic_example_decodes_each_input() {
    let decoder = SevenSegDecoder::new(&classic_inputs()).unwrap();
    let expected = [8, 5, 2, 3, 7, 9, 6, 4, 0, 1];
    for (word, digit) in classic_inputs().iter().zip(expected) {
        assert_eq!(decoder.decode(word), Ok(digit));
    }
}

#[test]
fn classic_example_finds_the_wiring() {
    let decoder = SevenSegDecoder::new(&classic_inputs()).unwrap();
    let expected = [('a', 'C'), ('b', 'F'), ('c', 'G'), ('d', 'A'), ('e', 'B'), ('f', 'D'), ('g', 'E')];
    for (wire, segment) in expected {
        assert_eq!(decoder.candidates(wire), Some(vec![segment]));
    }
}

#[test]
fn candidates_of_no_wire_are_none() {
    let decoder = SevenSegDecoder::new(&classic_inputs()).unwrap();
    assert_eq!(decoder.candidates('h'), None);
    assert_eq!(decoder.candidates('A'), None);
    assert_eq!(decoder.candidates(' '), None);
}

#[test]
fn lengths_alone_decide_one_seven_four_eight() {
    let inputs = vec!["ab", "abd", "abef", "abcdefg"];
    let decoder = SevenSegDecoder::new(&inputs).unwrap();
    assert_eq!(decoder.decode("ab"), Ok(1));
    assert_eq!(decoder.decode("abd"), Ok(7));
    assert_eq!(decoder.decode("abef"), Ok(4));
    assert_eq!(decoder.decode("abcdefg"), Ok(8));
    // Without the other digits the wiring stays open in pairs.
    let mut a = decoder.candidates('a').unwrap();
    a.sort();
    assert_eq!(a, vec!['C', 'F']);
    let mut c = decoder.candidates('c').unwrap();
    c.sort();
    assert_eq!(c, vec!['E', 'G']);
    assert_eq!(decoder.candidates('d'), Some(vec!['A']));
}

#[test]
fn decode_takes_the_letters_in_any_order() {
    let inputs = vec!["ab", "abd", "abef", "abcdefg"];
    let decoder = SevenSegDecoder::new(&inputs).unwrap();
    assert_eq!(decoder.decode("ba"), Ok(1));
    assert_eq!(decoder.decode("dba"), Ok(7));
    assert_eq!(decoder.decode("feba"), Ok(4));
    assert_eq!(decoder.decode("gfedcba"), Ok(8));
    assert_eq!(decoder.decode("abab"), Ok(1));
}

#[test]
fn unknown_output_is_unrecognized() {
    let inputs = vec!["ab", "abd", "abef", "abcdefg"];
    let decoder = SevenSegDecoder::new(&inputs).unwrap();
    assert_eq!(decoder.decode("abc"), Err(DecodeError::UnrecognizedOutput));
    assert_eq!(decoder.decode(""), Err(DecodeError::UnrecognizedOutput));
    assert_eq!(decoder.decode("AB"), Err(DecodeError::UnrecognizedOutput));
    assert_eq!(decoder.decode("a\u{e9}"), Err(DecodeError::UnrecognizedOutput));
}

#[test]
fn word_of_one_wire_is_malformed() {
    let mut inputs = classic_inputs();
    inputs[9] = "a";
    let r = SevenSegDecoder::new(&inputs);
    assert!(matches!(r, Err(DecodeError::MalformedCodeword)));
}

#[test]
fn word_of_no_wire_is_malformed() {
    let r = SevenSegDecoder::new(&vec!["ab", ""]);
    assert!(matches!(r, Err(DecodeError::MalformedCodeword)));
}

#[test]
fn repeated_letter_counts_once() {
    // Two different wires only: one letter is written twice.
    let decoder = SevenSegDecoder::new(&vec!["aab"]).unwrap();
    assert_eq!(decoder.decode("ab"), Ok(1));
    // One wire only, however often it is written.
    let r = SevenSegDecoder::new(&vec!["aaa"]);
    assert!(matches!(r, Err(DecodeError::MalformedCodeword)));
}

#[test]
fn malformed_word_wins_over_unsolvable() {
    let r = SevenSegDecoder::new(&vec!["abcde", "a"]);
    assert!(matches!(r, Err(DecodeError::MalformedCodeword)));
}

#[test]
fn duplicated_words_cannot_be_solved() {
    let inputs = vec![
        "ab", "dab", "acedgfb", "gcdfa", "cdfbe", "ab", "dab", "acedgfb", "gcdfa", "cdfbe",
    ];
    let r = SevenSegDecoder::new(&inputs);
    assert!(matches!(r, Err(DecodeError::UnsolvableConstraints)));
}

#[test]
fn one_word_ten_times_cannot_be_solved() {
    let inputs = vec!["cdfbe"; 10];
    let r = SevenSegDecoder::new(&inputs);
    assert!(matches!(r, Err(DecodeError::UnsolvableConstraints)));
}

#[test]
fn no_words_make_an_empty_decoder() {
    let decoder = SevenSegDecoder::new(&Vec::new()).unwrap();
    assert_eq!(decoder.decode("ab"), Err(DecodeError::UnrecognizedOutput));
    let mut a = decoder.candidates('a').unwrap();
    a.sort();
    assert_eq!(a, vec!['A', 'B', 'C', 'D', 'E', 'F', 'G']);
}

#[test]
fn every_wiring_is_found() {
    for wiring in wirings() {
        let words: Vec<String> = (0..10).map(|d| scramble(&wiring, d)).collect();
        let inputs: Vec<&str> = words.iter().map(|w| w.as_str()).collect();
        let decoder = SevenSegDecoder::new(&inputs).unwrap();
        for d in 0..10 {
            assert_eq!(decoder.decode(&words[d]), Ok(d as u8));
        }
        let wires = ['a', 'b', 'c', 'd', 'e', 'f', 'g'];
        for i in 0..7 {
            assert_eq!(decoder.candidates(wires[i]), Some(vec![wiring[i]]));
        }
    }
}

#[test]
fn the_order_of_the_words_does_not_matter_for_a_true_display() {
    let wiring = ['D', 'G', 'A', 'F', 'B', 'E', 'C'];
    let words: Vec<String> = (0..10).map(|d| scramble(&wiring, d)).collect();
    for shift in 0..10 {
        let mut inputs: Vec<&str> = words.iter().map(|w| w.as_str()).collect();
        inputs.rotate_left(shift);
        inputs.reverse();
        let decoder = SevenSegDecoder::from_ordered(&inputs).unwrap();
        for d in 0..10 {
            assert_eq!(decoder.decode(&words[d]), Ok(d as u8));
        }
    }
}

#[test]
fn from_ordered_takes_the_words_as_given() {
    let decoder = SevenSegDecoder::from_ordered(&classic_inputs()).unwrap();
    assert_eq!(decoder.decode("cdfeb"), Ok(5));
    assert_eq!(decoder.decode("fcadb"), Ok(3));
    assert_eq!(decoder.decode("cdfbac"), Ok(3));
    assert_eq!(decoder.decode("dbafec"), Ok(9));
    let r = SevenSegDecoder::from_ordered(&vec!["abcdefg", "a"]);
    assert!(matches!(r, Err(DecodeError::MalformedCodeword)));
    let r = SevenSegDecoder::from_ordered(&vec!["abcdef"]);
    assert!(matches!(r, Err(DecodeError::UnsolvableConstraints)));
}

#[test]
fn by_length_puts_the_shortest_first() {
    let sorted = SevenSegDecoder::by_length(&classic_inputs());
    let lengths: Vec<usize> = sorted.iter().map(|w| w.len()).collect();
    assert_eq!(lengths, vec![2, 3, 4, 5, 5, 5, 6, 6, 6, 7]);
    assert_eq!(sorted[0], "ab");
    assert_eq!(sorted[1], "dab");
    assert_eq!(sorted[2], "eafb");
    assert_eq!(sorted[9], "acedgfb");
    let mut again = sorted.clone();
    again.sort();
    let mut given = classic_inputs();
    given.sort();
    assert_eq!(again, given);
}

#[test]
fn decode_all_reads_the_leading_digit_first() {
    let decoder = SevenSegDecoder::new(&classic_inputs()).unwrap();
    assert_eq!(decoder.decode_all(&vec!["cdfeb", "fcadb", "cdfeb", "cdfbac"]), Ok(5353));
    assert_eq!(decoder.decode_all(&vec!["ab"]), Ok(1));
    assert_eq!(decoder.decode_all(&vec!["cagedb", "ab"]), Ok(1));
    assert_eq!(decoder.decode_all(&vec!["ab", "cagedb"]), Ok(10));
    assert_eq!(decoder.decode_all(&Vec::new()), Ok(0));
}

#[test]
fn decode_all_reads_nineteen_digits() {
    let decoder = SevenSegDecoder::new(&classic_inputs()).unwrap();
    let outputs = vec!["cefabd"; 19];
    assert_eq!(decoder.decode_all(&outputs), Ok(9_999_999_999_999_999_999));
}

#[test]
fn decode_all_fails_on_an_unknown_word() {
    let decoder = SevenSegDecoder::new(&classic_inputs()).unwrap();
    assert_eq!(
        decoder.decode_all(&vec!["cdfeb", "abc", "cdfeb"]),
        Err(DecodeError::UnrecognizedOutput)
    );
}
