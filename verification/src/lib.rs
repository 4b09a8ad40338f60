//! A filter-and-rank assistant for a five-letter word-guessing game.
//!
//! Given a list of candidate words and the feedback from earlier guesses
//! (letters that are absent, letters whose place is known, letters that
//! are present but elsewhere), the list is pruned to the words that agree
//! with the feedback, and the word closest to the known letters is
//! suggested as the next guess.

use vstd::prelude::*;

use crate::feedback::{feedback_of, parse_feedback, ConstraintSet, ParseError};
use crate::filter::{filter_candidates, kept_texts, lemma_survivor_texts, survivors};
use crate::rank::{find_best_match, first_minimum, lemma_first_minimum, scores};
use crate::text::{join_with, join_words, split_on, split_text, views};

pub mod feedback;
pub mod filter;
pub mod rank;
pub mod text;

verus! {

/// The suggestion for a list of candidate texts: the one with the lowest
/// score, the first of several; a fixed notice where the list is empty.
pub open spec fn best_text(set: ConstraintSet, candidates: Seq<Seq<char>>) -> Seq<char> {
    if candidates.len() == 0 {
        "No match found!"@
    } else {
        candidates[first_minimum(scores(set.correct, set.misplaced, candidates))]
    }
}

/// The line that reports a suggestion and the words that are left, one
/// per line.
pub open spec fn answer_text(best: Seq<char>, words: Seq<Seq<char>>) -> Seq<char> {
    best + " New-Words-List: "@ + join_with(words, '\n')
}

/// The whole answer to a word list and three raw feedback texts; `None`
/// where the absent-letter text is not well formed.
pub open spec fn answer_of(
    words: Seq<char>,
    good_chars: Seq<char>,
    bad_chars: Seq<char>,
    misplaced_chars: Seq<char>,
) -> Option<Seq<char>> {
    match feedback_of(bad_chars, good_chars, misplaced_chars) {
        Some(set) => {
            let kept = kept_texts(split_on(words, '\n'), set);
            Some(answer_text(best_text(set, kept), kept))
        },
        None => None,
    }
}

/// Reads the feedback, prunes `words` in place to the words that agree
/// with it, and returns the suggested next guess: the survivor with the
/// lowest score, or `No match found!` where none is left. Where the
/// absent-letter text is malformed the list is left as it is.
pub fn solve(
    words: &mut Vec<String>,
    bad_chars: String,
    good_chars: String,
    misplaced_chars: String,
) -> (result: Result<String, ParseError>)
    ensures
        match feedback_of(bad_chars@, good_chars@, misplaced_chars@) {
            Some(set) => {
                &&& result is Ok
                &&& final(words)@ == survivors(old(words)@, set)
                &&& result->Ok_0@ == best_text(set, views(final(words)@))
            },
            None => {
                &&& result is Err
                &&& result->Err_0 == ParseError::InvalidAbsentFormat
                &&& *final(words) == *old(words)
            },
        },
{
    let constraints = match parse_feedback(
        bad_chars.as_str(),
        good_chars.as_str(),
        misplaced_chars.as_str(),
    ) {
        Ok(constraints) => constraints,
        Err(e) => {
            return Err(e);
        },
    };
    filter_candidates(words, &constraints);
    let best_match = find_best_match(
        constraints.correct.as_slice(),
        constraints.misplaced.as_slice(),
        words.as_slice(),
    );
    proof {
        if words@.len() > 0 {
            lemma_first_minimum(
                scores(constraints@.correct, constraints@.misplaced, views(words@)),
            );
        }
    }
    match best_match {
        Some(word) => Ok(word.clone()),
        None => Ok("No match found!".to_owned()),
    }
}

/// Writes the answer line: the suggestion, the label, and the remaining
/// words joined by newlines.
pub fn format_answer(best_match: &str, words: &[String]) -> (line: String)
    ensures
        line@ == answer_text(best_match@, views(words@)),
{
    let mut line = best_match.to_owned();
    line.append(" New-Words-List: ");
    let joined = join_words(words, '\n');
    line.append(joined.as_str());
    line
}

/// Solves one round: `words` holds the candidates, one per line;
/// `good_chars` the letters in their correct place (`H__L_`), `bad_chars`
/// the absent letters (`b,w`), `misplaced_chars` the letters that are in
/// the word but elsewhere (`_0__A`). The answer names the suggested guess
/// and lists the candidates that are left.
pub fn solve_wordle(
    words: &str,
    good_chars: &str,
    bad_chars: &str,
    misplaced_chars: &str,
) -> (result: Result<String, ParseError>)
    ensures
        match answer_of(words@, good_chars@, bad_chars@, misplaced_chars@) {
            Some(text) => result is Ok && result->Ok_0@ == text,
            None => result is Err && result->Err_0 == ParseError::InvalidAbsentFormat,
        },
{
    let mut list = split_text(words, '\n');
    proof {
        let set = feedback_of(bad_chars@, good_chars@, misplaced_chars@);
        if set is Some {
            lemma_survivor_texts(list@, set->Some_0);
        }
    }
    match solve(&mut list, bad_chars.to_owned(), good_chars.to_owned(), misplaced_chars.to_owned()) {
        Ok(best_match) => Ok(format_answer(best_match.as_str(), list.as_slice())),
        Err(e) => Err(e),
    }
}

} // verus!
