//! The candidate filter: which words agree with the feedback, and the
//! pruning of a word list to those words.

use vstd::prelude::*;
use vstd::seq_lib::lemma_filter_view_commute;

use crate::feedback::{ConstraintSet, Constraints, Letter};
use crate::text::{chars_of, lowercase_of, views};

verus! {

/// The word has the letter at the letter's own position.
pub open spec fn holds_at(word: Seq<char>, l: Letter) -> bool {
    l.position < word.len() && word[l.position as int] == l.letter
}

/// The word has the letter somewhere, but not at the letter's position. A
/// word too short to have that position passes on containing the letter.
pub open spec fn holds_elsewhere(word: Seq<char>, l: Letter) -> bool {
    word.contains(l.letter) && !holds_at(word, l)
}

/// The word contains none of the absent letters.
pub open spec fn passes_absent(word: Seq<char>, absent: Seq<Letter>) -> bool {
    forall|k: int| 0 <= k < absent.len() ==> !word.contains((#[trigger] absent[k]).letter)
}

/// The word has every correct letter at its position; a word too short
/// for one of the positions fails.
pub open spec fn passes_correct(word: Seq<char>, correct: Seq<Letter>) -> bool {
    forall|k: int| 0 <= k < correct.len() ==> holds_at(word, #[trigger] correct[k])
}

/// The word has every misplaced letter, and none of them at its position.
pub open spec fn passes_misplaced(word: Seq<char>, misplaced: Seq<Letter>) -> bool {
    forall|k: int| 0 <= k < misplaced.len() ==> holds_elsewhere(word, #[trigger] misplaced[k])
}

/// The word, given in lowercase, agrees with all three kinds of feedback.
pub open spec fn consistent(word: Seq<char>, set: ConstraintSet) -> bool {
    &&& passes_absent(word, set.absent)
    &&& passes_correct(word, set.correct)
    &&& passes_misplaced(word, set.misplaced)
}

/// A stored word is kept when its lowercase form agrees with the feedback.
pub open spec fn keeps(word: String, set: ConstraintSet) -> bool {
    consistent(lowercase_of(word@), set)
}

/// The words of a list that are kept, in their order.
pub open spec fn survivors(words: Seq<String>, set: ConstraintSet) -> Seq<String> {
    words.filter(|w: String| keeps(w, set))
}

/// The texts of a list whose lowercase form agrees with the feedback, in
/// their order.
pub open spec fn kept_texts(texts: Seq<Seq<char>>, set: ConstraintSet) -> Seq<Seq<char>> {
    texts.filter(|t: Seq<char>| consistent(lowercase_of(t), set))
}

/// The texts of the survivors are the kept texts of the list.
pub proof fn lemma_survivor_texts(words: Seq<String>, set: ConstraintSet)
    ensures
        views(survivors(words, set)) == kept_texts(views(words), set),
{
    lemma_filter_view_commute(
        words,
        |w: String| keeps(w, set),
        |t: Seq<char>| consistent(lowercase_of(t), set),
    );
}

/// Tells whether `c` occurs in `word`.
pub fn contains_char(word: &[char], c: char) -> (found: bool)
    ensures
        found == word@.contains(c),
{
    let mut i: usize = 0;
    while i < word.len()
        invariant
            i <= word.len(),
            forall|j: int| 0 <= j < i ==> word@[j] != c,
        decreases word.len() - i,
    {
        if word[i] == c {
            return true;
        }
        i += 1;
    }
    false
}

/// Checks that the word contains none of the absent letters.
pub fn check_absent(word: &[char], absent: &[Letter]) -> (ok: bool)
    ensures
        ok == passes_absent(word@, absent@),
{
    let mut k: usize = 0;
    while k < absent.len()
        invariant
            k <= absent.len(),
            forall|j: int| 0 <= j < k ==> !word@.contains((#[trigger] absent@[j]).letter),
        decreases absent.len() - k,
    {
        if contains_char(word, absent[k].letter) {
            assert(word@.contains(absent@[k as int].letter));
            return false;
        }
        k += 1;
    }
    true
}

/// Checks that the word has every correct letter at its position.
pub fn check_correct(word: &[char], correct: &[Letter]) -> (ok: bool)
    ensures
        ok == passes_correct(word@, correct@),
{
    let mut k: usize = 0;
    while k < correct.len()
        invariant
            k <= correct.len(),
            forall|j: int| 0 <= j < k ==> holds_at(word@, #[trigger] correct@[j]),
        decreases correct.len() - k,
    {
        let l = correct[k];
        if l.position >= word.len() || word[l.position] != l.letter {
            assert(!holds_at(word@, correct@[k as int]));
            return false;
        }
        k += 1;
    }
    true
}

/// Checks that the word has every misplaced letter somewhere other than
/// at its position.
pub fn check_misplaced(word: &[char], misplaced: &[Letter]) -> (ok: bool)
    ensures
        ok == passes_misplaced(word@, misplaced@),
{
    let mut k: usize = 0;
    while k < misplaced.len()
        invariant
            k <= misplaced.len(),
            forall|j: int| 0 <= j < k ==> holds_elsewhere(word@, #[trigger] misplaced@[j]),
        decreases misplaced.len() - k,
    {
        let l = misplaced[k];
        if !contains_char(word, l.letter) {
            assert(!holds_elsewhere(word@, misplaced@[k as int]));
            return false;
        }
        if l.position < word.len() && word[l.position] == l.letter {
            assert(!holds_elsewhere(word@, misplaced@[k as int]));
            return false;
        }
        k += 1;
    }
    true
}

/// Checks a word, given in lowercase, against the feedback: first the
/// absent letters, then the correct ones, then the misplaced ones; the
/// first check that fails settles the answer.
pub fn word_is_consistent(word: &str, constraints: &Constraints) -> (ok: bool)
    ensures
        ok == consistent(word@, constraints@),
{
    let chars = chars_of(word);
    check_absent(chars.as_slice(), constraints.absent.as_slice()) && check_correct(
        chars.as_slice(),
        constraints.correct.as_slice(),
    ) && check_misplaced(chars.as_slice(), constraints.misplaced.as_slice())
}

/// A list of which every word is kept is its own list of survivors.
proof fn lemma_all_kept(words: Seq<String>, set: ConstraintSet)
    requires
        forall|j: int| 0 <= j < words.len() ==> keeps(#[trigger] words[j], set),
    ensures
        survivors(words, set) == words,
    decreases words.len(),
{
    reveal(Seq::filter);
    if words.len() > 0 {
        lemma_all_kept(words.drop_last(), set);
        assert(words.drop_last().push(words.last()) == words);
    }
}

/// The survivors of two lists laid end to end are the survivors of the
/// first followed by those of the second.
proof fn lemma_survivors_add(front: Seq<String>, back: Seq<String>, set: ConstraintSet)
    ensures
        survivors(front + back, set) == survivors(front, set) + survivors(back, set),
{
    Seq::filter_distributes_over_add(front, back, |w: String| keeps(w, set));
}

/// The list as it stands while it is pruned from the back: the words before
/// index `from` untouched, followed by the survivors of the rest.
spec fn pruned_from(words: Seq<String>, from: int, set: ConstraintSet) -> Seq<String> {
    words.take(from) + survivors(words.skip(from), set)
}

/// Removing a word that is not kept, when every word between it and the
/// pruned tail is kept, moves the pruned tail up to that word.
proof fn lemma_prune_step(words: Seq<String>, at: int, from: int, set: ConstraintSet)
    requires
        0 <= at < from <= words.len(),
        !keeps(words[at], set),
        forall|j: int| at < j < from ==> keeps(#[trigger] words[j], set),
    ensures
        pruned_from(words, from, set).remove(at) == pruned_from(words, at, set),
{
    let one = words.subrange(at, at + 1);
    let between = words.subrange(at + 1, from);
    let tail = words.skip(from);
    assert(words.skip(at) == one + (between + tail));
    lemma_survivors_add(one, between + tail, set);
    lemma_survivors_add(between, tail, set);
    assert(survivors(one, set) == Seq::<String>::empty()) by {
        reveal_with_fuel(Seq::filter, 2);
        assert(one.drop_last() == Seq::<String>::empty());
        assert(one.last() == words[at]);
    }
    assert(survivors(between, set) == between) by {
        assert forall|j: int| 0 <= j < between.len() implies keeps(#[trigger] between[j], set) by {
            assert(between[j] == words[at + 1 + j]);
        }
        lemma_all_kept(between, set);
    }
    assert(pruned_from(words, from, set).remove(at) == words.take(at) + (between + survivors(
        tail,
        set,
    )));
}

/// Once every word before the pruned tail is kept, the list holds exactly
/// the survivors.
proof fn lemma_prune_done(words: Seq<String>, from: int, set: ConstraintSet)
    requires
        0 <= from <= words.len(),
        forall|j: int| 0 <= j < from ==> keeps(#[trigger] words[j], set),
    ensures
        pruned_from(words, from, set) == survivors(words, set),
{
    assert(words == words.take(from) + words.skip(from));
    lemma_survivors_add(words.take(from), words.skip(from), set);
    lemma_all_kept(words.take(from), set);
}

/// Every survivor is kept, and is a word of the list.
pub proof fn lemma_survivors_are_kept(words: Seq<String>, set: ConstraintSet, i: int)
    requires
        0 <= i < survivors(words, set).len(),
    ensures
        keeps(survivors(words, set)[i], set),
        words.contains(survivors(words, set)[i]),
{
    let pred = |w: String| keeps(w, set);
    words.lemma_filter_pred(pred, i);
    assert(survivors(words, set).contains(survivors(words, set)[i]));
    words.lemma_filter_contains_rev(pred, survivors(words, set)[i]);
}

/// Filtering twice is filtering once: the survivors of the survivors are
/// the survivors.
pub proof fn lemma_filter_idempotent(words: Seq<String>, set: ConstraintSet)
    ensures
        survivors(survivors(words, set), set) == survivors(words, set),
{
    let once = survivors(words, set);
    assert forall|j: int| 0 <= j < once.len() implies keeps(#[trigger] once[j], set) by {
        lemma_survivors_are_kept(words, set, j);
    }
    lemma_all_kept(once, set);
}

/// A word whose lowercase form contains an absent letter is not among the
/// survivors, whatever the list.
pub proof fn lemma_absent_letter_excludes(
    words: Seq<String>,
    set: ConstraintSet,
    word: String,
    k: int,
)
    requires
        0 <= k < set.absent.len(),
        lowercase_of(word@).contains(set.absent[k].letter),
    ensures
        !survivors(words, set).contains(word),
{
    if survivors(words, set).contains(word) {
        let i = choose|i: int|
            0 <= i < survivors(words, set).len() && survivors(words, set)[i] == word;
        lemma_survivors_are_kept(words, set, i);
    }
}

/// The lowercase form of every survivor has every correct letter at its
/// position; in particular it is long enough to have that position.
pub proof fn lemma_survivor_has_correct_letter(
    words: Seq<String>,
    set: ConstraintSet,
    i: int,
    k: int,
)
    requires
        0 <= i < survivors(words, set).len(),
        0 <= k < set.correct.len(),
    ensures
        set.correct[k].position < lowercase_of(survivors(words, set)[i]@).len(),
        lowercase_of(survivors(words, set)[i]@)[set.correct[k].position as int]
            == set.correct[k].letter,
{
    lemma_survivors_are_kept(words, set, i);
    assert(holds_at(lowercase_of(survivors(words, set)[i]@), set.correct[k]));
}

/// The lowercase form of every survivor contains every misplaced letter,
/// and where it is long enough to have the letter's position, it has
/// another character there.
pub proof fn lemma_survivor_has_misplaced_letter(
    words: Seq<String>,
    set: ConstraintSet,
    i: int,
    k: int,
)
    requires
        0 <= i < survivors(words, set).len(),
        0 <= k < set.misplaced.len(),
    ensures
        lowercase_of(survivors(words, set)[i]@).contains(set.misplaced[k].letter),
        set.misplaced[k].position < lowercase_of(survivors(words, set)[i]@).len()
            ==> lowercase_of(survivors(words, set)[i]@)[set.misplaced[k].position as int]
            != set.misplaced[k].letter,
{
    lemma_survivors_are_kept(words, set, i);
    assert(holds_elsewhere(lowercase_of(survivors(words, set)[i]@), set.misplaced[k]));
}

/// `places` says where in `whole` each word of `part` stands, and the
/// places increase strictly: `part` holds words of `whole` in the order
/// in which `whole` has them.
pub open spec fn in_order_at(part: Seq<String>, whole: Seq<String>, places: Seq<int>) -> bool {
    &&& places.len() == part.len()
    &&& forall|k: int|
        0 <= k < places.len() ==> 0 <= #[trigger] places[k] < whole.len() && part[k]
            == whole[places[k]]
    &&& forall|j: int, k: int| 0 <= j < k < places.len() ==> places[j] < places[k]
}

/// The survivors stand in the order in which the list has them: there are
/// strictly increasing places in the list at which the survivors stand, and
/// these are exactly the places of the words that are kept.
pub proof fn lemma_survivors_keep_order(words: Seq<String>, set: ConstraintSet) -> (places: Seq<int>)
    ensures
        in_order_at(survivors(words, set), words, places),
        forall|i: int|
            0 <= i < words.len() ==> (keeps(#[trigger] words[i], set) <==> places.contains(i)),
    decreases words.len(),
{
    reveal(Seq::filter);
    if words.len() == 0 {
        Seq::<int>::empty()
    } else {
        let shorter = words.drop_last();
        let last = words.len() - 1;
        let before = lemma_survivors_keep_order(shorter, set);
        let places = if keeps(words.last(), set) {
            before.push(last)
        } else {
            before
        };
        assert forall|i: int| 0 <= i < words.len() implies (keeps(#[trigger] words[i], set)
            <==> places.contains(i)) by {
            if i < last {
                assert(shorter[i] == words[i]);
                if before.contains(i) {
                    let k = choose|k: int| 0 <= k < before.len() && before[k] == i;
                    assert(places[k] == i);
                }
            } else if keeps(words.last(), set) {
                assert(places[before.len() as int] == i);
            }
        }
        places
    }
}

/// Prunes the list in place to the words whose lowercase form agrees with
/// the feedback. The list is scanned from first to last and the indices of
/// the words to drop are noted; these are then removed from the highest
/// index down, so that the indices still to come stay valid. The words
/// that remain keep their order and their case.
pub fn filter_candidates(words: &mut Vec<String>, constraints: &Constraints)
    ensures
        final(words)@ == survivors(old(words)@, constraints@),
{
    let ghost orig = words@;
    let ghost set = constraints@;
    let mut doomed: Vec<usize> = Vec::new();
    let mut i: usize = 0;
    while i < words.len()
        invariant
            words@ == orig,
            set == constraints@,
            i <= orig.len(),
            forall|a: int, b: int| 0 <= a < b < doomed.len() ==> doomed@[a] < doomed@[b],
            forall|a: int|
                0 <= a < doomed.len() ==> (#[trigger] doomed@[a]) < i && !keeps(
                    orig[doomed@[a] as int],
                    set,
                ),
            forall|j: int|
                0 <= j < i && !keeps(#[trigger] orig[j], set) ==> exists|a: int|
                    0 <= a < doomed.len() && doomed@[a] == j,
        decreases orig.len() - i,
    {
        let lowered = words[i].as_str().to_lowercase();
        if !word_is_consistent(lowered.as_str(), constraints) {
            let ghost before = doomed@;
            doomed.push(i);
            assert forall|j: int| 0 <= j < i + 1 && !keeps(#[trigger] orig[j], set) implies exists|
                a: int,
            | 0 <= a < doomed.len() && doomed@[a] == j by {
                if j < i {
                    let a = choose|a: int| 0 <= a < before.len() && before[a] == j;
                    assert(doomed@[a] == j);
                } else {
                    assert(doomed@[before.len() as int] == j);
                }
            }
        }
        i += 1;
    }
    let mut k: usize = doomed.len();
    proof {
        assert(orig.take(orig.len() as int) == orig);
        assert(survivors(orig.skip(orig.len() as int), set) == Seq::<String>::empty()) by {
            reveal(Seq::filter);
        }
    }
    while k > 0
        invariant
            k <= doomed.len(),
            forall|a: int, b: int| 0 <= a < b < doomed.len() ==> doomed@[a] < doomed@[b],
            forall|a: int|
                0 <= a < doomed.len() ==> (#[trigger] doomed@[a]) < orig.len() && !keeps(
                    orig[doomed@[a] as int],
                    set,
                ),
            forall|j: int|
                0 <= j < orig.len() && !keeps(#[trigger] orig[j], set) ==> exists|a: int|
                    0 <= a < doomed.len() && doomed@[a] == j,
            words@ == pruned_from(
                orig,
                if k == doomed.len() {
                    orig.len() as int
                } else {
                    doomed@[k as int] as int
                },
                set,
            ),
        decreases k,
    {
        let ghost from = if k == doomed.len() {
            orig.len() as int
        } else {
            doomed@[k as int] as int
        };
        k -= 1;
        let at = doomed[k];
        proof {
            assert forall|j: int| at < j < from implies keeps(#[trigger] orig[j], set) by {
                if !keeps(orig[j], set) {
                    let a = choose|a: int| 0 <= a < doomed.len() && doomed@[a] == j;
                    if a <= k {
                        assert(doomed@[a] <= doomed@[k as int]);
                    } else if a > k + 1 {
                        assert(doomed@[k + 1] < doomed@[a]);
                    }
                }
            }
            lemma_prune_step(orig, at as int, from, set);
            assert(pruned_from(orig, from, set).len() > at) by {
                assert(orig.take(from).len() == from);
            }
        }
        words.remove(at);
    }
    proof {
        let from = if doomed.len() == 0 {
            orig.len() as int
        } else {
            doomed@[0] as int
        };
        assert forall|j: int| 0 <= j < from implies keeps(#[trigger] orig[j], set) by {
            if !keeps(orig[j], set) {
                let a = choose|a: int| 0 <= a < doomed.len() && doomed@[a] == j;
                if a > 0 {
                    assert(doomed@[0] < doomed@[a]);
                }
            }
        }
        lemma_prune_done(orig, from, set);
    }
}

} // verus!
