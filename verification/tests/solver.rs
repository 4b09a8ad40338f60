use wordle_solver::feedback::ParseError;
use wordle_solver::{format_answer, solve, solve_wordle};

fn owned(words: &[&str]) -> Vec<String> {
    words.iter().map(|w| w.to_string()).collect()
}

fn text(s: &str) -> String {
    s.to_string()
}

#[test]
fn words_with_r_second_survive() {
    let mut words = owned(&["apple", "grape", "crane"]);
    let best = solve(&mut words, text("z"), text("_r___"), text("_____"));
    assert_eq!(words, owned(&["grape", "crane"]));
    assert_eq!(best, Ok(text("grape")));
}

#[test]
fn words_with_r_second_through_the_entry_point() {
    let answer = solve_wordle("apple\ngrape\ncrane", "_r___", "z", "");
    assert_eq!(answer, Ok(text("grape New-Words-List: grape\ncrane")));
}

#[test]
fn absent_letter_leaves_nothing() {
    let mut words = owned(&["abcde"]);
    let best = solve(&mut words, text("a"), text(""), text(""));
    assert_eq!(words, Vec::<String>::new());
    assert_eq!(best, Ok(text("No match found!")));
    let answer = solve_wordle("abcde", "", "a", "");
    assert_eq!(answer, Ok(text("No match found! New-Words-List: ")));
}

#[test]
fn misplaced_text_with_digit_and_capital() {
    let answer = solve_wordle("hello\nworld", "", "z", "_0__A");
    assert_eq!(answer, Ok(text("No match found! New-Words-List: ")));
    let answer = solve_wordle("hello\n0xaxx\na0bcd\n0xxxa\nxxa0x", "", "z", "_0__A");
    assert_eq!(answer, Ok(text("0xaxx New-Words-List: 0xaxx\nxxa0x")));
}

#[test]
fn empty_candidate_list() {
    let mut words: Vec<String> = Vec::new();
    let best = solve(&mut words, text("z"), text("H__L_"), text("_0__A")).unwrap();
    assert_eq!(best, "No match found!");
    assert_eq!(format_answer(&best, &words), "No match found! New-Words-List: ");
}

#[test]
fn empty_word_text_is_one_empty_word() {
    assert_eq!(
        solve_wordle("", "a____", "z", ""),
        Ok(text("No match found! New-Words-List: "))
    );
    assert_eq!(solve_wordle("", "", "z", ""), Ok(text(" New-Words-List: ")));
}

#[test]
fn empty_absent_text_is_an_error() {
    assert_eq!(
        solve_wordle("apple\ngrape\ncrane", "_r___", "", ""),
        Err(ParseError::InvalidAbsentFormat)
    );
}

#[test]
fn empty_absent_piece_is_an_error() {
    assert_eq!(solve_wordle("apple", "_____", "a,,b", "_____"), Err(ParseError::InvalidAbsentFormat));
    assert_eq!(solve_wordle("apple", "_____", "a,", "_____"), Err(ParseError::InvalidAbsentFormat));
}

#[test]
fn malformed_feedback_leaves_the_list_alone() {
    let mut words = owned(&["apple", "grape", "crane"]);
    let result = solve(&mut words, text(""), text("_r___"), text(""));
    assert_eq!(result, Err(ParseError::InvalidAbsentFormat));
    assert_eq!(words, owned(&["apple", "grape", "crane"]));
}

#[test]
fn feedback_is_read_without_regard_to_case_and_escapes() {
    let answer = solve_wordle("Apple\nGRAPE\ncrane\nbrace", "_R___\n", "B,\\Z\r\n", "E____\n");
    assert_eq!(answer, Ok(text("GRAPE New-Words-List: GRAPE\ncrane")));
}

#[test]
fn best_match_is_the_closest_survivor() {
    let answer = solve_wordle("stare\ncrane\ngrape\nbrake\ntrace", "_r__e", "z", "a____");
    assert_eq!(answer, Ok(text("crane New-Words-List: crane\ngrape\nbrake\ntrace")));
}

#[test]
fn best_match_is_ranked_in_stored_case() {
    let answer = solve_wordle("erase\nERASE", "", "z", "_e___");
    assert_eq!(answer, Ok(text("ERASE New-Words-List: erase\nERASE")));
}

#[test]
fn answer_line_joins_the_words_with_newlines() {
    assert_eq!(format_answer("grape", &owned(&["grape", "crane"])), "grape New-Words-List: grape\ncrane");
    assert_eq!(format_answer("x", &owned(&["x"])), "x New-Words-List: x");
}

#[test]
fn solving_again_on_the_survivors_gives_the_same_list() {
    let first = solve_wordle("stare\ncrane\ngrape\nbrake\ntrace", "_r__e", "s", "a____").unwrap();
    let (best, list) = first.split_once(" New-Words-List: ").unwrap();
    let second = solve_wordle(list, "_r__e", "s", "a____").unwrap();
    assert_eq!(second, first);
    assert_eq!(best, "crane");
}
