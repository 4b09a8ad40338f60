use wordle_solver::feedback::{parse_positional, Constraints, Letter};
use wordle_solver::filter::{
    check_absent, check_correct, check_misplaced, contains_char, filter_candidates,
    word_is_consistent,
};

fn at(letter: char, position: usize) -> Letter {
    Letter { letter, position }
}

fn owned(words: &[&str]) -> Vec<String> {
    words.iter().map(|w| w.to_string()).collect()
}

fn chars(word: &str) -> Vec<char> {
    word.chars().collect()
}

fn constraints(absent: &[Letter], correct: &[Letter], misplaced: &[Letter]) -> Constraints {
    Constraints { absent: absent.to_vec(), correct: correct.to_vec(), misplaced: misplaced.to_vec() }
}

#[test]
fn contains_char_finds_a_letter() {
    assert!(contains_char(&chars("apple"), 'e'));
    assert!(!contains_char(&chars("apple"), 'z'));
    assert!(!contains_char(&chars(""), 'a'));
}

#[test]
fn absent_letter_anywhere_fails_the_word() {
    assert!(!check_absent(&chars("abcde"), &[at('a', 0)]));
    assert!(!check_absent(&chars("abcde"), &[at('z', 0), at('e', 1)]));
    assert!(check_absent(&chars("abcde"), &[at('z', 0), at('y', 1)]));
    assert!(check_absent(&chars("abcde"), &[]));
}

#[test]
fn correct_letter_must_stand_at_its_position() {
    assert!(check_correct(&chars("grape"), &[at('r', 1)]));
    assert!(!check_correct(&chars("apple"), &[at('r', 1)]));
    assert!(!check_correct(&chars("grape"), &[at('r', 1), at('x', 4)]));
}

#[test]
fn word_too_short_for_a_correct_letter_fails() {
    assert!(!check_correct(&chars("abc"), &[at('c', 5)]));
    assert!(!check_correct(&chars(""), &[at('a', 0)]));
}

#[test]
fn misplaced_letter_must_be_present_elsewhere() {
    assert!(check_misplaced(&chars("grape"), &[at('r', 0)]));
    assert!(!check_misplaced(&chars("grape"), &[at('r', 1)]));
    assert!(!check_misplaced(&chars("grape"), &[at('z', 0)]));
}

#[test]
fn word_too_short_for_a_misplaced_letter_passes_if_it_has_the_letter() {
    assert!(check_misplaced(&chars("abc"), &[at('c', 7)]));
    assert!(!check_misplaced(&chars("abc"), &[at('z', 7)]));
}

#[test]
fn misplaced_letter_at_one_place_and_another() {
    assert!(!check_misplaced(&chars("eerie"), &[at('e', 0)]));
    assert!(check_misplaced(&chars("eerie"), &[at('e', 2)]));
}

#[test]
fn word_is_checked_against_all_three() {
    let set = constraints(&[at('z', 0)], &[at('r', 1)], &[at('e', 0)]);
    assert!(word_is_consistent("grape", &set));
    assert!(!word_is_consistent("graze", &set));
    assert!(!word_is_consistent("apple", &set));
    assert!(!word_is_consistent("erupt", &set));
}

#[test]
fn only_words_with_r_second_survive() {
    let mut words = owned(&["apple", "grape", "crane"]);
    let set = constraints(&[], &parse_positional("_r___"), &parse_positional(""));
    filter_candidates(&mut words, &set);
    assert_eq!(words, owned(&["grape", "crane"]));
}

#[test]
fn word_with_an_absent_letter_is_dropped() {
    let mut words = owned(&["abcde"]);
    filter_candidates(&mut words, &constraints(&[at('a', 0)], &[], &[]));
    assert_eq!(words, Vec::<String>::new());
}

#[test]
fn every_word_with_an_absent_letter_is_dropped() {
    let mut words = owned(&["stone", "pride", "cloud", "eerie", "fjord"]);
    filter_candidates(&mut words, &constraints(&[at('x', 0), at('e', 1)], &[], &[]));
    assert_eq!(words, owned(&["cloud", "fjord"]));
    for word in &words {
        assert!(!word.contains('e'));
    }
}

#[test]
fn misplaced_digit_and_letter() {
    let set = constraints(&[], &[], &parse_positional("_0__a"));
    let mut words = owned(&["hello", "world"]);
    filter_candidates(&mut words, &set);
    assert_eq!(words, Vec::<String>::new());
    let mut words = owned(&["0xaxx", "a0bcd", "0xxxa", "xxa0x", "a0"]);
    filter_candidates(&mut words, &set);
    assert_eq!(words, owned(&["0xaxx", "xxa0x"]));
}

#[test]
fn words_are_compared_in_lowercase_and_kept_as_given() {
    let mut words = owned(&["GRAPE", "Crane", "APPLE"]);
    filter_candidates(&mut words, &constraints(&[at('z', 0)], &[at('r', 1)], &[]));
    assert_eq!(words, owned(&["GRAPE", "Crane"]));
    let mut words = owned(&["ABCDE", "fghij"]);
    filter_candidates(&mut words, &constraints(&[at('a', 0)], &[], &[]));
    assert_eq!(words, owned(&["fghij"]));
}

#[test]
fn filtering_twice_changes_nothing_more() {
    let set = constraints(&[at('s', 0)], &[at('r', 1)], &[at('e', 0)]);
    let mut words = owned(&["grape", "crane", "apple", "trees", "erupt", "Grebe", "prose"]);
    filter_candidates(&mut words, &set);
    let once = words.clone();
    filter_candidates(&mut words, &set);
    assert_eq!(words, once);
    assert_eq!(once, owned(&["grape", "crane", "Grebe"]));
}

#[test]
fn survivors_keep_their_order() {
    let set = constraints(&[], &[], &[at('a', 4)]);
    let list = owned(&["zebra", "apple", "bread", "about", "cabin", "again", "dance"]);
    let mut words = list.clone();
    filter_candidates(&mut words, &set);
    assert_eq!(words, owned(&["apple", "bread", "about", "cabin", "again", "dance"]));
    let mut from = 0;
    for word in &words {
        let found = list[from..].iter().position(|w| w == word).unwrap();
        from += found + 1;
    }
}

#[test]
fn duplicates_are_kept_or_dropped_together() {
    let mut words = owned(&["grape", "apple", "grape", "apple"]);
    filter_candidates(&mut words, &constraints(&[], &[at('r', 1)], &[]));
    assert_eq!(words, owned(&["grape", "grape"]));
}

#[test]
fn survivors_have_the_correct_and_misplaced_letters() {
    let set = constraints(&[], &[at('a', 2)], &[at('e', 0)]);
    let mut words = owned(&["crane", "eland", "grape", "place", "stare", "cra", "heart"]);
    filter_candidates(&mut words, &set);
    assert_eq!(words, owned(&["crane", "grape", "place", "stare", "heart"]));
    for word in &words {
        assert_eq!(word.chars().nth(2), Some('a'));
        assert!(word.contains('e'));
        assert_ne!(word.chars().nth(0), Some('e'));
    }
}

#[test]
fn empty_list_stays_empty() {
    let mut words: Vec<String> = Vec::new();
    filter_candidates(&mut words, &constraints(&[at('a', 0)], &[at('b', 1)], &[at('c', 2)]));
    assert_eq!(words, Vec::<String>::new());
}

#[test]
fn no_feedback_keeps_every_word() {
    let mut words = owned(&["apple", "", "grape"]);
    filter_candidates(&mut words, &constraints(&[], &[], &[]));
    assert_eq!(words, owned(&["apple", "", "grape"]));
}
