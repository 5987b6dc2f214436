use std::collections::HashSet;

use sevenseg::alphabet::{
    is_segment_label, is_wire_label, segment_alphabet, wire_alphabet, wire_position,
};
use sevenseg::charseq::{contains_char, insert_sorted, same_chars};
use sevenseg::codeword::byte_length;
use sevenseg::digit::Digit;
use sevenseg::segment::Segment;
use sevenseg::sevensegdecoder::SevenSegDecoder;

fn chars(s: &str) -> Vec<char> {
    s.chars().collect()
}

fn text(v: &[char]) -> String {
    v.iter().collect()
}

fn fresh_table() -> Vec<Segment> {
    (0..7).map(|_| Segment::new()).collect()
}

fn sorted_texts(list: &[Vec<char>]) -> Vec<String> {
    let mut out: Vec<String> = list.iter().map(|w| text(w)).collect();
    out.sort();
    out
}

#[test]
fn alphabets_have_seven_labels() {
    assert_eq!(text(&wire_alphabet()), "abcdefg");
    assert_eq!(text(&segment_alphabet()), "ABCDEFG");
}

#[test]
fn labels_are_told_apart() {
    for c in "abcdefg".chars() {
        assert!(is_wire_label(c));
        assert!(!is_segment_label(c));
    }
    for c in "ABCDEFG".chars() {
        assert!(is_segment_label(c));
        assert!(!is_wire_label(c));
    }
    for c in "hH`@ 0\u{e9}".chars() {
        assert!(!is_wire_label(c));
        assert!(!is_segment_label(c));
    }
}

#[test]
fn wires_are_numbered_from_zero() {
    assert_eq!(wire_position('a'), 0);
    assert_eq!(wire_position('d'), 3);
    assert_eq!(wire_position('g'), 6);
}

#[test]
fn a_new_segment_holds_every_candidate() {
    let s = Segment::new();
    assert_eq!(text(&s.candidates), "ABCDEFG");
}

#[test]
fn eliminate_takes_one_candidate_out() {
    let mut s = Segment::new();
    s.eliminate(&'C');
    assert_eq!(text(&s.candidates), "ABDEFG");
    s.eliminate(&'A');
    s.eliminate(&'G');
    assert_eq!(text(&s.candidates), "BDEF");
}

#[test]
fn eliminate_twice_is_eliminate_once() {
    let mut once = Segment::new();
    once.eliminate(&'E');
    let mut twice = Segment::new();
    twice.eliminate(&'E');
    twice.eliminate(&'E');
    assert_eq!(once.candidates, twice.candidates);
}

#[test]
fn eliminate_of_an_absent_candidate_changes_nothing() {
    let mut s = Segment::new();
    s.eliminate(&'Z');
    s.eliminate(&'a');
    assert_eq!(text(&s.candidates), "ABCDEFG");
}

#[test]
fn eliminate_never_adds_a_candidate() {
    let mut s = Segment::new();
    let mut size = s.candidates.len();
    for c in "CAXGCBDEFQA".chars() {
        s.eliminate(&c);
        assert!(s.candidates.len() <= size);
        size = s.candidates.len();
    }
    assert!(s.candidates.is_empty());
}

#[test]
fn eliminate_takes_every_copy_out() {
    let mut s = Segment { candidates: chars("ABACA") };
    s.eliminate(&'A');
    assert_eq!(text(&s.candidates), "BC");
}

#[test]
fn digit_states_are_told_apart() {
    let undecided = Digit::Undecided(HashSet::from([2, 3, 5]));
    assert!(undecided.is_undecided());
    assert!(!undecided.is_decided());
    assert!(Digit::Decided(4).is_decided());
    assert!(!Digit::Decided(4).is_undecided());
    assert!(!Digit::Invalid.is_decided());
    assert!(!Digit::Invalid.is_undecided());
}

#[test]
fn ruling_digits_out_decides_when_one_is_left() {
    let mut d = Digit::Undecided(HashSet::from([2, 3, 5]));
    d.eliminate(&3);
    assert!(matches!(&d, Digit::Undecided(s) if *s == HashSet::from([2, 5])));
    d.eliminate(&7);
    assert!(matches!(&d, Digit::Undecided(s) if *s == HashSet::from([2, 5])));
    d.eliminate(&2);
    assert!(matches!(d, Digit::Decided(5)));
    d.eliminate(&5);
    assert!(matches!(d, Digit::Decided(5)));
}

#[test]
fn ruling_the_last_digit_out_leaves_none() {
    let mut d = Digit::Undecided(HashSet::from([255]));
    d.eliminate(&255);
    assert!(matches!(&d, Digit::Undecided(s) if s.is_empty()));
    let mut d = Digit::Undecided(HashSet::from([9, 255]));
    d.eliminate(&9);
    assert!(matches!(d, Digit::Decided(255)));
}

#[test]
fn ruling_out_leaves_an_invalid_state_alone() {
    let mut d = Digit::Invalid;
    d.eliminate(&1);
    assert!(matches!(d, Digit::Invalid));
}

#[test]
fn the_number_of_letters_classifies_a_word() {
    assert!(matches!(SevenSegDecoder::lookup_digits(&chars("")), Digit::Invalid));
    assert!(matches!(SevenSegDecoder::lookup_digits(&chars("a")), Digit::Invalid));
    assert!(matches!(SevenSegDecoder::lookup_digits(&chars("ab")), Digit::Decided(1)));
    assert!(matches!(SevenSegDecoder::lookup_digits(&chars("abc")), Digit::Decided(7)));
    assert!(matches!(SevenSegDecoder::lookup_digits(&chars("abcd")), Digit::Decided(4)));
    assert!(matches!(
        SevenSegDecoder::lookup_digits(&chars("abcde")),
        Digit::Undecided(s) if s == HashSet::from([2, 3, 5])
    ));
    assert!(matches!(
        SevenSegDecoder::lookup_digits(&chars("abcdef")),
        Digit::Undecided(s) if s == HashSet::from([0, 6, 9])
    ));
    assert!(matches!(SevenSegDecoder::lookup_digits(&chars("abcdefg")), Digit::Decided(8)));
    assert!(matches!(SevenSegDecoder::lookup_digits(&chars("abcdefgh")), Digit::Invalid));
}

#[test]
fn each_digit_has_its_pattern() {
    let patterns = [
        "ABCEFG", "CF", "ACDEG", "ACDFG", "BCDF", "ABDFG", "ABDEFG", "ACF", "ABCDEFG", "ABCDFG",
    ];
    for d in 0..10u8 {
        assert_eq!(text(&SevenSegDecoder::digit_to_segments(d)), patterns[d as usize]);
    }
    let lengths: Vec<usize> = (0..10u8).map(|d| SevenSegDecoder::digit_to_segments(d).len()).collect();
    assert_eq!(lengths, vec![6, 2, 5, 5, 4, 5, 6, 3, 7, 6]);
}

#[test]
fn each_pattern_has_its_digit() {
    for d in 0..10u8 {
        let segs = SevenSegDecoder::digit_to_segments(d);
        assert_eq!(SevenSegDecoder::segments_to_digit(&segs), Some(d));
        let mut reversed = segs.clone();
        reversed.reverse();
        assert_eq!(SevenSegDecoder::segments_to_digit(&reversed), Some(d));
    }
    assert_eq!(SevenSegDecoder::segments_to_digit(&chars("FCF")), Some(1));
}

#[test]
fn other_sets_have_no_digit() {
    for s in ["", "A", "AB", "CG", "ABCDEF", "ABCDEG", "cf", "ABCDEFGH", "ACFX"] {
        assert_eq!(SevenSegDecoder::segments_to_digit(&chars(s)), None);
    }
}

#[test]
fn sort_chars_sorts_and_drops_repeats() {
    let mut w = chars("gfaab");
    SevenSegDecoder::sort_chars(&mut w);
    assert_eq!(text(&w), "abfg");
    let mut w = chars("");
    SevenSegDecoder::sort_chars(&mut w);
    assert_eq!(text(&w), "");
    let mut w = chars("zzz");
    SevenSegDecoder::sort_chars(&mut w);
    assert_eq!(text(&w), "z");
    let mut w = chars("GFEDCBA");
    SevenSegDecoder::sort_chars(&mut w);
    assert_eq!(text(&w), "ABCDEFG");
}

#[test]
fn str_to_hashset_keeps_each_letter_once() {
    assert_eq!(text(&SevenSegDecoder::str_to_hashset("cabcab")), "cab");
    assert_eq!(text(&SevenSegDecoder::str_to_hashset("")), "");
    assert_eq!(text(&SevenSegDecoder::str_to_hashset("gfedcba")), "gfedcba");
}

#[test]
fn hashset_to_str_is_sorted() {
    assert_eq!(text(&SevenSegDecoder::hashset_to_str(&chars("cab"))), "abc");
    assert_eq!(text(&SevenSegDecoder::hashset_to_str(&chars("gfedcba"))), "abcdefg");
    assert_eq!(text(&SevenSegDecoder::hashset_to_str(&chars("GBA"))), "ABG");
    assert_eq!(text(&SevenSegDecoder::hashset_to_str(&chars(""))), "");
    assert_eq!(text(&SevenSegDecoder::hashset_to_str(&chars("bab"))), "ab");
    assert_eq!(text(&SevenSegDecoder::hashset_to_str(&chars("\u{e9}za"))), "az\u{e9}");
}

#[test]
fn the_complement_is_taken_in_the_alphabet_of_the_input() {
    assert_eq!(text(&SevenSegDecoder::invert_segments(&chars("ab"))), "cdefg");
    assert_eq!(text(&SevenSegDecoder::invert_segments(&chars("CF"))), "ABDEG");
    assert_eq!(text(&SevenSegDecoder::invert_segments(&chars("gfedcba"))), "");
    assert_eq!(text(&SevenSegDecoder::invert_segments(&chars(""))), "abcdefg");
    assert_eq!(text(&SevenSegDecoder::invert_segments(&chars("ABCDEFG"))), "");
    assert_eq!(text(&SevenSegDecoder::invert_segments(&chars("Ab"))), "BCDEFG");
}

#[test]
fn a_known_digit_narrows_the_candidates() {
    let mut table = fresh_table();
    SevenSegDecoder::update_segments(&chars("ab"), 1, &mut table);
    assert_eq!(text(&table[0].candidates), "CF");
    assert_eq!(text(&table[1].candidates), "CF");
    for w in 2..7 {
        assert_eq!(text(&table[w].candidates), "ABDEG");
    }
    SevenSegDecoder::update_segments(&chars("dab"), 7, &mut table);
    assert_eq!(text(&table[0].candidates), "CF");
    assert_eq!(text(&table[3].candidates), "A");
    assert_eq!(text(&table[2].candidates), "BDEG");
}

#[test]
fn narrowing_never_adds_a_candidate() {
    let mut table = fresh_table();
    let facts = [("ab", 1u8), ("dab", 7), ("eafb", 4), ("acedgfb", 8), ("cdfbe", 5), ("ab", 1)];
    let mut sizes: Vec<usize> = table.iter().map(|s| s.candidates.len()).collect();
    for (word, digit) in facts {
        SevenSegDecoder::update_segments(&chars(word), digit, &mut table);
        for w in 0..7 {
            assert!(table[w].candidates.len() <= sizes[w]);
            sizes[w] = table[w].candidates.len();
        }
    }
}

#[test]
fn narrowing_by_the_same_fact_twice_changes_nothing_more() {
    let mut once = fresh_table();
    SevenSegDecoder::update_segments(&chars("eafb"), 4, &mut once);
    let mut twice = fresh_table();
    SevenSegDecoder::update_segments(&chars("eafb"), 4, &mut twice);
    SevenSegDecoder::update_segments(&chars("eafb"), 4, &mut twice);
    for w in 0..7 {
        assert_eq!(once[w].candidates, twice[w].candidates);
    }
}

#[test]
fn an_unconstrained_pair_could_light_any_two_segments() {
    let table = fresh_table();
    let found = SevenSegDecoder::all_possibilities(&chars("ab"), &table);
    assert_eq!(found.len(), 21);
    for word in &found {
        assert_eq!(word.len(), 2);
        assert!(word[0] < word[1]);
    }
}

#[test]
fn a_narrowed_word_could_light_few_sets() {
    let mut table = fresh_table();
    SevenSegDecoder::update_segments(&chars("ab"), 1, &mut table);
    let found = SevenSegDecoder::all_possibilities(&chars("ab"), &table);
    assert_eq!(sorted_texts(&found), vec!["CF"]);
    let found = SevenSegDecoder::all_possibilities(&chars("abc"), &table);
    assert_eq!(sorted_texts(&found), vec!["ACF", "BCF", "CDF", "CEF", "CFG"]);
    let found = SevenSegDecoder::all_possibilities(&chars("a"), &table);
    assert_eq!(sorted_texts(&found), vec!["C", "F"]);
}

#[test]
fn what_a_word_could_light_has_the_size_of_the_word() {
    let mut table = fresh_table();
    SevenSegDecoder::update_segments(&chars("ab"), 1, &mut table);
    SevenSegDecoder::update_segments(&chars("eafb"), 4, &mut table);
    for word in ["", "a", "ab", "cde", "abcd", "cdfbe", "cefabd", "abcdefg"] {
        let found = SevenSegDecoder::all_possibilities(&chars(word), &table);
        for image in &found {
            assert_eq!(image.len(), word.len());
        }
    }
}

#[test]
fn the_empty_word_lights_nothing() {
    let table = fresh_table();
    let found = SevenSegDecoder::all_possibilities(&chars(""), &table);
    assert_eq!(found, vec![Vec::<char>::new()]);
}

#[test]
fn a_wire_without_candidates_lights_nothing() {
    let mut table = fresh_table();
    table[0].candidates.clear();
    let found = SevenSegDecoder::all_possibilities(&chars("ab"), &table);
    assert!(found.is_empty());
}

#[test]
fn a_letter_written_twice_takes_two_segments() {
    let mut table = fresh_table();
    table[0].candidates = chars("AB");
    let found = SevenSegDecoder::all_possibilities(&chars("aa"), &table);
    assert_eq!(sorted_texts(&found), vec!["AB"]);
}

#[test]
fn words_are_searched_and_compared_by_letter() {
    assert!(contains_char(&chars("abc"), 'b'));
    assert!(!contains_char(&chars("abc"), 'd'));
    assert!(!contains_char(&chars(""), 'a'));
    assert!(same_chars(&chars("abc"), &chars("abc")));
    assert!(!same_chars(&chars("abc"), &chars("abd")));
    assert!(!same_chars(&chars("abc"), &chars("ab")));
    assert!(same_chars(&chars(""), &chars("")));
}

#[test]
fn insert_sorted_keeps_the_word_sorted() {
    let mut w = chars("bdf");
    insert_sorted(&mut w, 'c');
    assert_eq!(text(&w), "bcdf");
    insert_sorted(&mut w, 'a');
    assert_eq!(text(&w), "abcdf");
    insert_sorted(&mut w, 'g');
    assert_eq!(text(&w), "abcdfg");
    insert_sorted(&mut w, 'd');
    assert_eq!(text(&w), "abcdfg");
    let mut w = Vec::new();
    insert_sorted(&mut w, 'x');
    assert_eq!(text(&w), "x");
}

#[test]
fn byte_length_counts_bytes() {
    assert_eq!(byte_length(""), 0);
    assert_eq!(byte_length("abc"), 3);
    assert_eq!(byte_length("a\u{e9}"), 3);
}

#[test]
fn a_cloned_digit_state_is_the_same_state() {
    let d = Digit::Undecided(HashSet::from([0, 6, 9, 255]));
    assert!(matches!(d.clone(), Digit::Undecided(s) if s == HashSet::from([0, 6, 9, 255])));
    assert!(matches!(Digit::Decided(7).clone(), Digit::Decided(7)));
    assert!(matches!(Digit::Invalid.clone(), Digit::Invalid));
}

#[test]
fn some_lengths_give_the_digit_away() {
    assert_eq!(SevenSegDecoder::easy_digit("ab"), Some(1));
    assert_eq!(SevenSegDecoder::easy_digit("abcd"), Some(4));
    assert_eq!(SevenSegDecoder::easy_digit("abc"), Some(7));
    assert_eq!(SevenSegDecoder::easy_digit("abcdefg"), Some(8));
    assert_eq!(SevenSegDecoder::easy_digit("aa"), Some(1));
    for word in ["", "a", "abcde", "abcdef", "abcdefgh"] {
        assert_eq!(SevenSegDecoder::easy_digit(word), None);
    }
    let by_length: Vec<Option<u8>> = (0..9).map(SevenSegDecoder::digit_by_length).collect();
    assert_eq!(
        by_length,
        vec![None, None, Some(1), Some(7), Some(4), None, None, Some(8), None]
    );
}
