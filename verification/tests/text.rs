use wordle_solver::text::{chars_of, join_words, normalize, remove_escape_sequences, split_text};

fn owned(words: &[&str]) -> Vec<String> {
    words.iter().map(|w| w.to_string()).collect()
}

#[test]
fn escape_characters_are_dropped() {
    assert_eq!(remove_escape_sequences("a\nb\tc\rd\\e"), "abcde");
}

#[test]
fn text_without_escapes_is_unchanged() {
    assert_eq!(remove_escape_sequences("H__L_"), "H__L_");
    assert_eq!(remove_escape_sequences(""), "");
}

#[test]
fn only_escapes_leave_nothing() {
    assert_eq!(remove_escape_sequences("\n\t\r\\"), "");
}

#[test]
fn normalize_strips_then_lowercases() {
    assert_eq!(normalize("H__L_\r\n"), "h__l_");
    assert_eq!(normalize("B,\\W"), "b,w");
}

#[test]
fn normalize_lowercases_beyond_ascii() {
    assert_eq!(normalize("ÉCOLE"), "école");
}

#[test]
fn chars_in_order() {
    assert_eq!(chars_of("héllo"), vec!['h', 'é', 'l', 'l', 'o']);
    assert_eq!(chars_of(""), Vec::<char>::new());
}

#[test]
fn split_empty_text_gives_one_empty_piece() {
    assert_eq!(split_text("", '\n'), owned(&[""]));
}

#[test]
fn split_on_newlines() {
    assert_eq!(split_text("apple\ngrape\ncrane", '\n'), owned(&["apple", "grape", "crane"]));
}

#[test]
fn split_keeps_empty_pieces() {
    assert_eq!(split_text("a\n", '\n'), owned(&["a", ""]));
    assert_eq!(split_text("\na", '\n'), owned(&["", "a"]));
    assert_eq!(split_text("a,,b", ','), owned(&["a", "", "b"]));
}

#[test]
fn split_matches_std() {
    for text in ["", ",", "a", "a,b", ",a,", "ab,,cd,", ",,,"] {
        let expected: Vec<String> = text.split(',').map(|s| s.to_string()).collect();
        assert_eq!(split_text(text, ','), expected);
    }
}

#[test]
fn join_puts_one_separator_between_words() {
    assert_eq!(join_words(&owned(&[]), '\n'), "");
    assert_eq!(join_words(&owned(&["a"]), '\n'), "a");
    assert_eq!(join_words(&owned(&["a", "b", "c"]), '\n'), "a\nb\nc");
    assert_eq!(join_words(&owned(&["", ""]), '\n'), "\n");
}

#[test]
fn join_undoes_split() {
    for text in ["", "\n", "apple", "apple\ngrape", "\n\napple\n"] {
        assert_eq!(join_words(&split_text(text, '\n'), '\n'), text);
    }
}
