use sevenseg::error::DecodeError;
use sevenseg::puzzle::Puzzle;

const CLASSIC: &str =
    "acedgfb cdfbe gcdfa fbcad dab cefabd cdfgeb eafb cagedb ab | cdfeb fcadb cdfeb cdfbac";

/// Sum of the lines that can be solved; the others count for nothing.
fn total(lines: &[&str]) -> (u64, usize) {
    let mut sum = 0;
    let mut failed = 0;
    for line in lines {
        match Puzzle::new(line) {
            Some(puzzle) if puzzle.outputs().len() <= 19 => match puzzle.solve() {
                Ok(n) => sum += n,
                Err(_) => failed += 1,
            },
            _ => failed += 1,
        }
    }
    (sum, failed)
}

#[test]
fn a_line_is_split_at_the_bar() {
    let puzzle = Puzzle::new(CLASSIC).unwrap();
    assert_eq!(
        puzzle.inputs(),
        &vec!["acedgfb", "cdfbe", "gcdfa", "fbcad", "dab", "cefabd", "cdfgeb", "eafb", "cagedb", "ab"]
    );
    assert_eq!(puzzle.outputs(), &vec!["cdfeb", "fcadb", "cdfeb", "cdfbac"]);
}

#[test]
fn classic_line_solves_to_5353() {
    let puzzle = Puzzle::new(CLASSIC).unwrap();
    assert_eq!(puzzle.solve(), Ok(5353));
}

#[test]
fn more_lines_solve() {
    let lines = [
        ("be cfbegad cbdgef fgaecd cgeb fdcge agebfd fecdb fabcd edb | fdgacbe cefdb cefbgd gcbe", 8394),
        ("edbfga begcd cbg gc gcadebf fbgde acbgfd abcde gfcbed gfec | fcgedb cgb dgebacf gc", 9781),
        ("fgaebd cg bdaec gdafb agbcfd gdcbef bgcad gfac gcb cdgabef | cg cg fdcagb cbg", 1197),
    ];
    for (line, value) in lines {
        assert_eq!(Puzzle::new(line).unwrap().solve(), Ok(value));
    }
}

#[test]
fn a_line_without_a_bar_is_no_puzzle() {
    assert!(Puzzle::new("ab abd abef").is_none());
    assert!(Puzzle::new("").is_none());
}

#[test]
fn a_line_with_two_bars_is_no_puzzle() {
    assert!(Puzzle::new("ab | abd | abef").is_none());
    assert!(Puzzle::new("||").is_none());
    assert!(Puzzle::new("ab abd || ab").is_none());
}

#[test]
fn a_word_with_another_letter_is_no_puzzle() {
    assert!(Puzzle::new("ab abh | ab").is_none());
    assert!(Puzzle::new("ab abd | aB").is_none());
    assert!(Puzzle::new("ab abd | a1").is_none());
    assert!(Puzzle::new("ab a-b | ab").is_none());
    assert!(Puzzle::new("ab ab\u{e9} | ab").is_none());
    assert!(Puzzle::new("ab abd | ab\u{0}").is_none());
}

#[test]
fn any_white_space_parts_the_words() {
    let puzzle = Puzzle::new("  ab\tabd \n abef|ab   abd\r\n").unwrap();
    assert_eq!(puzzle.inputs(), &vec!["ab", "abd", "abef"]);
    assert_eq!(puzzle.outputs(), &vec!["ab", "abd"]);
    let puzzle = Puzzle::new("ab\u{2003}abd\u{a0}abef | ab\u{3000}abd").unwrap();
    assert_eq!(puzzle.inputs(), &vec!["ab", "abd", "abef"]);
    assert_eq!(puzzle.outputs(), &vec!["ab", "abd"]);
}

#[test]
fn a_side_may_be_empty() {
    let puzzle = Puzzle::new("|").unwrap();
    assert!(puzzle.inputs().is_empty());
    assert!(puzzle.outputs().is_empty());
    assert_eq!(puzzle.solve(), Ok(0));
    let puzzle = Puzzle::new("ab abd | ").unwrap();
    assert_eq!(puzzle.inputs(), &vec!["ab", "abd"]);
    assert!(puzzle.outputs().is_empty());
    assert_eq!(puzzle.solve(), Ok(0));
    let puzzle = Puzzle::new(" | ab").unwrap();
    assert!(puzzle.inputs().is_empty());
    assert_eq!(puzzle.solve(), Err(DecodeError::UnrecognizedOutput));
}

#[test]
fn a_word_next_to_the_bar_is_whole() {
    let puzzle = Puzzle::new("ab abd|abd ab").unwrap();
    assert_eq!(puzzle.inputs(), &vec!["ab", "abd"]);
    assert_eq!(puzzle.outputs(), &vec!["abd", "ab"]);
    assert_eq!(puzzle.solve(), Ok(71));
}

#[test]
fn a_line_with_a_word_of_one_wire_fails_as_malformed() {
    let puzzle = Puzzle::new("a abd abef | abd").unwrap();
    assert_eq!(puzzle.solve(), Err(DecodeError::MalformedCodeword));
}

#[test]
fn a_line_with_too_few_different_words_fails_as_unsolvable() {
    let puzzle = Puzzle::new("cdfbe cdfbe cdfbe cdfbe cdfbe cdfbe cdfbe cdfbe cdfbe cdfbe | cdfbe").unwrap();
    assert_eq!(puzzle.solve(), Err(DecodeError::UnsolvableConstraints));
}

#[test]
fn a_line_with_an_unknown_output_fails_as_unrecognized() {
    let puzzle = Puzzle::new("ab abd abef abcdefg | ab abc").unwrap();
    assert_eq!(puzzle.solve(), Err(DecodeError::UnrecognizedOutput));
}

#[test]
fn a_failing_line_adds_nothing_to_the_total() {
    let lines = [
        CLASSIC,
        "a cdfbe gcdfa fbcad dab cefabd cdfgeb eafb cagedb ab | cdfeb fcadb cdfeb cdfbac",
        "be cfbegad cbdgef fgaecd cgeb fdcge agebfd fecdb fabcd edb | fdgacbe cefdb cefbgd gcbe",
        "no bar here",
    ];
    assert_eq!(total(&lines), (5353 + 8394, 2));
}

#[test]
fn easy_outputs_are_counted() {
    let puzzle = Puzzle::new(CLASSIC).unwrap();
    assert_eq!(puzzle.count_easy(), 0);
    let puzzle = Puzzle::new(
        "be cfbegad cbdgef fgaecd cgeb fdcge agebfd fecdb fabcd edb | fdgacbe cefdb cefbgd gcbe",
    )
    .unwrap();
    assert_eq!(puzzle.count_easy(), 2);
    let puzzle = Puzzle::new("ab | ab abc abcd abcde abcdef abcdefg a aa").unwrap();
    assert_eq!(puzzle.count_easy(), 5);
    let puzzle = Puzzle::new("ab |").unwrap();
    assert_eq!(puzzle.count_easy(), 0);
}
