//! Feedback from earlier guesses: the letters that are absent, the letters
//! whose place is known, and the letters that are present elsewhere.

use vstd::prelude::*;

use crate::text::{chars_of, normalize, normalized, split_on, split_text, views};

verus! {

/// A letter together with a position.
///
/// For a correct or misplaced letter the position is the zero-based index
/// in the target word. For an absent letter it is only the place of the
/// letter in the comma-separated input.
#[derive(Clone, Copy, Debug, PartialEq, Eq, Structural)]
pub struct Letter {
    pub letter: char,
    pub position: usize,
}

/// The three kinds of feedback, each in input order.
#[derive(Debug)]
pub struct Constraints {
    pub absent: Vec<Letter>,
    pub correct: Vec<Letter>,
    pub misplaced: Vec<Letter>,
}

/// The mathematical content of a `Constraints` value.
pub struct ConstraintSet {
    pub absent: Seq<Letter>,
    pub correct: Seq<Letter>,
    pub misplaced: Seq<Letter>,
}

impl View for Constraints {
    type V = ConstraintSet;

    open spec fn view(&self) -> ConstraintSet {
        ConstraintSet { absent: self.absent@, correct: self.correct@, misplaced: self.misplaced@ }
    }
}

/// The positions of the letters increase strictly, so that no position
/// occurs twice.
pub open spec fn positions_increase(letters: Seq<Letter>) -> bool {
    forall|j: int, k: int|
        0 <= j < k < letters.len() ==> (#[trigger] letters[j]).position
            < (#[trigger] letters[k]).position
}

impl ConstraintSet {
    /// What holds of every set that was read from text: within each kind
    /// no position occurs twice. The filter and the ranker do not rely on
    /// it; a set that is put together by hand need not have it.
    pub open spec fn well_formed(self) -> bool {
        &&& positions_increase(self.absent)
        &&& positions_increase(self.correct)
        &&& positions_increase(self.misplaced)
    }
}

/// Why a feedback string could not be read.
#[derive(Clone, Copy, Debug, PartialEq, Eq, Structural)]
pub enum ParseError {
    /// The absent-letter text has an empty piece between its commas, or is
    /// empty altogether.
    InvalidAbsentFormat,
}

impl ParseError {
    /// A short description of the error.
    pub fn message(&self) -> (text: String)
        ensures
            text@ == "invalid absent-letter format"@,
    {
        "invalid absent-letter format".to_owned()
    }
}

/// The character at index `i` of a text, paired with that index.
pub open spec fn letter_at(text: Seq<char>, i: int) -> Letter {
    Letter { letter: text[i], position: i as usize }
}

/// The letters of a positional text: every character but the placeholder
/// `_`, paired with its index, in increasing order of index.
pub open spec fn positional_letters(text: Seq<char>) -> Seq<Letter> {
    Seq::new(text.len(), |i: int| letter_at(text, i)).filter(|l: Letter| l.letter != '_')
}

/// The first character of piece `k`, paired with the number of the piece.
pub open spec fn first_letter_of(pieces: Seq<Seq<char>>, k: int) -> Letter {
    Letter { letter: pieces[k][0], position: k as usize }
}

/// An absent-letter text is well formed when none of its comma-separated
/// pieces is empty.
pub open spec fn absent_well_formed(text: Seq<char>) -> bool {
    forall|k: int|
        0 <= k < split_on(text, ',').len() ==> (#[trigger] split_on(text, ',')[k]).len() > 0
}

/// The letters of an absent-letter text: the first character of each
/// comma-separated piece, paired with the number of the piece.
pub open spec fn absent_letters(text: Seq<char>) -> Seq<Letter> {
    let pieces = split_on(text, ',');
    Seq::new(pieces.len(), |k: int| first_letter_of(pieces, k))
}

/// Appending a character to a positional text appends its letter, unless
/// the character is the placeholder.
pub proof fn lemma_positional_letters_push(text: Seq<char>, c: char)
    ensures
        positional_letters(text.push(c)) == if c != '_' {
            positional_letters(text).push(letter_at(text.push(c), text.len() as int))
        } else {
            positional_letters(text)
        },
{
    let longer = text.push(c);
    let all = Seq::new(text.len(), |i: int| letter_at(text, i));
    let all_longer = Seq::new(longer.len(), |i: int| letter_at(longer, i));
    let last = letter_at(longer, text.len() as int);
    assert(all_longer == all.push(last));
    all.lemma_filter_push(last, |l: Letter| l.letter != '_');
}

/// The letter stands for a character of the text other than `_`, at the
/// index that is the letter's position.
pub open spec fn stands_in(l: Letter, text: Seq<char>) -> bool {
    l.position < text.len() && text[l.position as int] == l.letter && l.letter != '_'
}

/// Each letter of a positional text stands for a character of the text
/// other than `_` at its own index, and the positions increase strictly,
/// so that no position occurs twice.
pub proof fn lemma_positional_letters_placed(text: Seq<char>)
    requires
        text.len() <= usize::MAX,
    ensures
        forall|k: int|
            0 <= k < positional_letters(text).len() ==> stands_in(
                #[trigger] positional_letters(text)[k],
                text,
            ),
        positions_increase(positional_letters(text)),
    decreases text.len(),
{
    let letters = positional_letters(text);
    if text.len() == 0 {
        assert(letters == Seq::<Letter>::empty()) by {
            reveal(Seq::filter);
        }
    } else {
        let shorter = text.drop_last();
        let before = positional_letters(shorter);
        assert(shorter.push(text.last()) =~= text);
        lemma_positional_letters_placed(shorter);
        lemma_positional_letters_push(shorter, text.last());
        assert forall|k: int| 0 <= k < letters.len() implies stands_in(
            #[trigger] letters[k],
            text,
        ) by {
            if k < before.len() {
                assert(letters[k] == before[k]);
                assert(stands_in(before[k], shorter));
                assert(text[before[k].position as int] == shorter[before[k].position as int]);
            }
        }
        assert forall|j: int, k: int| 0 <= j < k < letters.len() implies (#[trigger] letters[j]).position
            < (#[trigger] letters[k]).position by {
            assert(letters[j] == before[j]);
            assert(stands_in(before[j], shorter));
            if k < before.len() {
                assert(letters[k] == before[k]);
            }
        }
    }
}

/// Every character of a positional text other than `_` has its letter
/// among the letters of the text.
pub proof fn lemma_positional_letters_complete(text: Seq<char>, i: int)
    requires
        0 <= i < text.len(),
        text[i] != '_',
    ensures
        positional_letters(text).contains(letter_at(text, i)),
    decreases text.len(),
{
    let letters = positional_letters(text);
    let shorter = text.drop_last();
    let before = positional_letters(shorter);
    assert(shorter.push(text.last()) =~= text);
    lemma_positional_letters_push(shorter, text.last());
    if i < shorter.len() {
        lemma_positional_letters_complete(shorter, i);
        assert(letter_at(text, i) == letter_at(shorter, i));
        let k = choose|k: int| 0 <= k < before.len() && before[k] == letter_at(shorter, i);
        assert(letters[k] == letter_at(text, i));
    } else {
        assert(letters[letters.len() - 1] == letter_at(text, i));
    }
}

/// Reads a positional text, in which `_` marks a place without a letter.
pub fn parse_positional(text: &str) -> (letters: Vec<Letter>)
    ensures
        letters@ == positional_letters(text@),
        positions_increase(letters@),
{
    let chars = chars_of(text);
    let mut letters: Vec<Letter> = Vec::new();
    let mut i: usize = 0;
    assert(positional_letters(chars@.take(0)) == Seq::<Letter>::empty()) by {
        reveal(Seq::filter);
    }
    while i < chars.len()
        invariant
            i <= chars.len(),
            letters@ == positional_letters(chars@.take(i as int)),
        decreases chars.len() - i,
    {
        proof {
            lemma_positional_letters_push(chars@.take(i as int), chars@[i as int]);
            assert(chars@.take(i + 1) == chars@.take(i as int).push(chars@[i as int]));
        }
        if chars[i] != '_' {
            letters.push(Letter { letter: chars[i], position: i });
        }
        i += 1;
    }
    proof {
        assert(chars@.take(chars@.len() as int) == chars@);
        lemma_positional_letters_placed(chars@);
    }
    letters
}

/// Reads an absent-letter text: comma-separated pieces, of each of which
/// the first character is the letter. Fails when a piece is empty.
pub fn parse_absent(text: &str) -> (result: Result<Vec<Letter>, ParseError>)
    ensures
        match result {
            Ok(letters) => {
                &&& absent_well_formed(text@)
                &&& letters@ == absent_letters(text@)
                &&& positions_increase(letters@)
            },
            Err(e) => !absent_well_formed(text@) && e == ParseError::InvalidAbsentFormat,
        },
{
    let pieces = split_text(text, ',');
    let ghost texts = split_on(text@, ',');
    let mut letters: Vec<Letter> = Vec::new();
    let mut k: usize = 0;
    while k < pieces.len()
        invariant
            k <= pieces.len(),
            views(pieces@) == texts,
            texts == split_on(text@, ','),
            forall|j: int| 0 <= j < k ==> (#[trigger] texts[j]).len() > 0,
            letters@ == Seq::new(k as nat, |j: int| first_letter_of(texts, j)),
        decreases pieces.len() - k,
    {
        let piece = pieces[k].as_str();
        assert(piece@ == texts[k as int]);
        if piece.unicode_len() == 0 {
            return Err(ParseError::InvalidAbsentFormat);
        }
        letters.push(Letter { letter: piece.get_char(0), position: k });
        k += 1;
    }
    Ok(letters)
}

/// What three raw feedback texts mean together, once each is normalised;
/// `None` where the absent-letter text is not well formed.
pub open spec fn feedback_of(
    absent_raw: Seq<char>,
    correct_raw: Seq<char>,
    misplaced_raw: Seq<char>,
) -> Option<ConstraintSet> {
    if absent_well_formed(normalized(absent_raw)) {
        Some(
            ConstraintSet {
                absent: absent_letters(normalized(absent_raw)),
                correct: positional_letters(normalized(correct_raw)),
                misplaced: positional_letters(normalized(misplaced_raw)),
            },
        )
    } else {
        None
    }
}

/// Normalises the three raw feedback texts and reads them. The absent
/// letters are read first; where they are malformed nothing else is done.
pub fn parse_feedback(
    absent_raw: &str,
    correct_raw: &str,
    misplaced_raw: &str,
) -> (result: Result<Constraints, ParseError>)
    ensures
        match result {
            Ok(constraints) => {
                &&& feedback_of(absent_raw@, correct_raw@, misplaced_raw@) == Some(constraints@)
                &&& constraints@.well_formed()
            },
            Err(e) => feedback_of(absent_raw@, correct_raw@, misplaced_raw@) is None && e
                == ParseError::InvalidAbsentFormat,
        },
{
    let absent_text = normalize(absent_raw);
    let absent = match parse_absent(absent_text.as_str()) {
        Ok(letters) => letters,
        Err(e) => {
            return Err(e);
        },
    };
    let correct_text = normalize(correct_raw);
    let correct = parse_positional(correct_text.as_str());
    let misplaced_text = normalize(misplaced_raw);
    let misplaced = parse_positional(misplaced_text.as_str());
    Ok(Constraints { absent, correct, misplaced })
}

} // verus!
