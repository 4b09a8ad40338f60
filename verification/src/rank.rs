//! The ranker: a similarity score of a candidate against the known
//! letters, and the choice of the candidate with the lowest score.

use vstd::prelude::*;

use crate::feedback::Letter;
use crate::text::{chars_of, views};

verus! {

/// How far the first occurrence of the letter in the word lies from the
/// letter's position; nothing where the word lacks the letter.
pub open spec fn distance(l: Letter, word: Seq<char>) -> nat {
    match word.index_of_first(l.letter) {
        Some(p) => if l.position >= p {
            (l.position - p) as nat
        } else {
            (p - l.position) as nat
        },
        None => 0,
    }
}

/// The sum of the distances of the letters.
pub open spec fn total_distance(letters: Seq<Letter>, word: Seq<char>) -> nat
    decreases letters.len(),
{
    if letters.len() == 0 {
        0
    } else {
        total_distance(letters.drop_last(), word) + distance(letters.last(), word)
    }
}

/// The similarity of a candidate: the sum of the distances of the correct
/// letters followed by the misplaced ones. Lower is closer.
pub open spec fn similarity(correct: Seq<Letter>, misplaced: Seq<Letter>, word: Seq<char>) -> nat {
    total_distance(correct + misplaced, word)
}

/// A sum as the machine holds it: capped at `usize::MAX`.
pub open spec fn capped(n: nat) -> usize {
    if n > usize::MAX {
        usize::MAX
    } else {
        n as usize
    }
}

/// The score by which candidates are compared.
pub open spec fn score(correct: Seq<Letter>, misplaced: Seq<Letter>, word: Seq<char>) -> usize {
    capped(similarity(correct, misplaced, word))
}

/// The scores of the candidates, in order.
pub open spec fn scores(
    correct: Seq<Letter>,
    misplaced: Seq<Letter>,
    candidates: Seq<Seq<char>>,
) -> Seq<usize> {
    Seq::new(candidates.len(), |i: int| score(correct, misplaced, candidates[i]))
}

/// The index of the lowest score; of several equal ones, the first.
pub open spec fn first_minimum(scores: Seq<usize>) -> int
    decreases scores.len(),
{
    if scores.len() <= 1 {
        0
    } else {
        let best = first_minimum(scores.drop_last());
        if scores.last() < scores[best] {
            scores.len() - 1
        } else {
            best
        }
    }
}

/// The distances of two lists laid end to end add up.
pub proof fn lemma_total_distance_add(front: Seq<Letter>, back: Seq<Letter>, word: Seq<char>)
    ensures
        total_distance(front + back, word) == total_distance(front, word) + total_distance(
            back,
            word,
        ),
    decreases back.len(),
{
    if back.len() == 0 {
        assert(front + back == front);
    } else {
        lemma_total_distance_add(front, back.drop_last(), word);
        assert((front + back).drop_last() == front + back.drop_last());
        assert((front + back).last() == back.last());
    }
}

/// The chosen index holds a score that no candidate undercuts and that no
/// earlier candidate equals.
pub proof fn lemma_first_minimum(scores: Seq<usize>)
    requires
        scores.len() > 0,
    ensures
        0 <= first_minimum(scores) < scores.len(),
        forall|j: int|
            0 <= j < scores.len() ==> scores[first_minimum(scores)] <= #[trigger] scores[j],
        forall|j: int|
            0 <= j < first_minimum(scores) ==> scores[first_minimum(scores)] < #[trigger] scores[j],
    decreases scores.len(),
{
    if scores.len() > 1 {
        let shorter = scores.drop_last();
        lemma_first_minimum(shorter);
        let best = first_minimum(shorter);
        assert forall|j: int| 0 <= j < scores.len() implies scores[first_minimum(scores)]
            <= #[trigger] scores[j] by {
            if j < shorter.len() {
                assert(shorter[j] == scores[j]);
            }
        }
        assert forall|j: int| 0 <= j < first_minimum(scores) implies scores[first_minimum(scores)]
            < #[trigger] scores[j] by {
            assert(shorter[j] == scores[j]);
        }
    }
}

/// Finds the first occurrence of `c` in `word`.
pub fn first_index_of(word: &[char], c: char) -> (found: Option<usize>)
    ensures
        match found {
            Some(p) => word@.index_of_first(c) == Some(p as int),
            None => word@.index_of_first(c) is None,
        },
{
    let mut i: usize = 0;
    while i < word.len()
        invariant
            i <= word.len(),
            forall|j: int| 0 <= j < i ==> word@[j] != c,
        decreases word.len() - i,
    {
        if word[i] == c {
            proof {
                assert(word@.contains(c));
                word@.index_of_first_ensures(c);
            }
            return Some(i);
        }
        i += 1;
    }
    proof {
        word@.index_of_first_ensures(c);
    }
    None
}

/// Adds the distances of the letters to a running sum that is capped at
/// `usize::MAX`.
fn add_distances(start: usize, letters: &[Letter], word: &[char]) -> (sum: usize)
    ensures
        sum == capped(start as nat + total_distance(letters@, word@)),
{
    let mut sum = start;
    let mut k: usize = 0;
    while k < letters.len()
        invariant
            k <= letters.len(),
            sum == capped(start as nat + total_distance(letters@.take(k as int), word@)),
        decreases letters.len() - k,
    {
        proof {
            assert(letters@.take(k + 1).drop_last() == letters@.take(k as int));
            assert(letters@.take(k + 1).last() == letters@[k as int]);
        }
        let l = letters[k];
        match first_index_of(word, l.letter) {
            Some(p) => {
                let d = if l.position >= p {
                    l.position - p
                } else {
                    p - l.position
                };
                sum = sum.saturating_add(d);
            },
            None => {},
        }
        k += 1;
    }
    proof {
        assert(letters@.take(letters@.len() as int) == letters@);
    }
    sum
}

/// The score of a candidate: for each correct letter, then each misplaced
/// one, the distance between its position and the first place where the
/// candidate has that letter; letters that the candidate lacks add
/// nothing. The sum is capped at `usize::MAX`.
pub fn calculate_similarity(
    correct_letters: &[Letter],
    misplaced_letters: &[Letter],
    candidate: &str,
) -> (similarity_score: usize)
    ensures
        similarity_score == score(correct_letters@, misplaced_letters@, candidate@),
{
    let word = chars_of(candidate);
    let after_correct = add_distances(0, correct_letters, word.as_slice());
    proof {
        lemma_total_distance_add(correct_letters@, misplaced_letters@, candidate@);
    }
    add_distances(after_correct, misplaced_letters, word.as_slice())
}

/// Picks the candidate with the lowest score; of several with the same
/// score, the first. There is no match only where there is no candidate.
/// The answer depends on the letters and the candidates alone.
pub fn find_best_match<'a>(
    correct_letters: &[Letter],
    misplaced_letters: &[Letter],
    candidates: &'a [String],
) -> (best_match: Option<&'a String>)
    ensures
        match best_match {
            Some(word) => candidates@.len() > 0 && *word == candidates@[first_minimum(
                scores(correct_letters@, misplaced_letters@, views(candidates@)),
            )],
            None => candidates@.len() == 0,
        },
{
    if candidates.len() == 0 {
        return None;
    }
    let ghost all = scores(correct_letters@, misplaced_letters@, views(candidates@));
    let mut best: usize = 0;
    let mut best_score = calculate_similarity(
        correct_letters,
        misplaced_letters,
        candidates[0].as_str(),
    );
    let mut i: usize = 1;
    while i < candidates.len()
        invariant
            1 <= i <= candidates.len(),
            all == scores(correct_letters@, misplaced_letters@, views(candidates@)),
            best == first_minimum(all.take(i as int)),
            best < i,
            best_score == all[best as int],
        decreases candidates.len() - i,
    {
        proof {
            assert(all.take(i + 1).drop_last() == all.take(i as int));
            assert(all.take(i + 1).last() == all[i as int]);
        }
        let similarity_score = calculate_similarity(
            correct_letters,
            misplaced_letters,
            candidates[i].as_str(),
        );
        if similarity_score < best_score {
            best_score = similarity_score;
            best = i;
        }
        i += 1;
    }
    proof {
        assert(all.take(all.len() as int) == all);
    }
    Some(&candidates[best])
}

} // verus!
