//! Plain-text helpers: normalising raw input, and splitting and joining
//! text on a separator character.

use vstd::prelude::*;

verus! {

/// The lowercase form of a text, as `str::to_lowercase` computes it.
pub uninterp spec fn lowercase_of(text: Seq<char>) -> Seq<char>;

/// `str::to_lowercase` returns the lowercase equivalent of the slice as a
/// new `String`. The mapping is fixed by the Unicode tables that the
/// standard library carries and depends on nothing but the text, so its
/// result is given the name `lowercase_of`. Nothing else is claimed of it.
pub assume_specification[ str::to_lowercase ](s: &str) -> (lowered: String)
    ensures
        lowered@ == lowercase_of(s@),
;

/// `String::push` appends one character to the end of the string.
pub assume_specification[ String::push ](s: &mut String, ch: char)
    ensures
        final(s)@ == old(s)@.push(ch),
;

/// The four characters that are dropped from every raw feedback string:
/// newline, tab, carriage return and backslash.
pub open spec fn is_escape(c: char) -> bool {
    c == '\n' || c == '\t' || c == '\r' || c == '\\'
}

/// A text without its escape characters, the others in their order.
pub open spec fn strip_escapes(text: Seq<char>) -> Seq<char> {
    text.filter(|c: char| !is_escape(c))
}

/// The characters of a string, in order.
pub fn chars_of(s: &str) -> (chars: Vec<char>)
    ensures
        chars@ == s@,
{
    let mut chars: Vec<char> = Vec::new();
    for c in it: s.chars()
        invariant
            chars@ == s@.take(it.index() as int),
            it.seq() == s@,
    {
        chars.push(c);
    }
    chars
}

/// Drops every newline, tab, carriage return and backslash from `input`
/// and keeps all other characters in their order.
pub fn remove_escape_sequences(input: &str) -> (out: String)
    ensures
        out@ == strip_escapes(input@),
{
    let mut out = String::new();
    for c in it: input.chars()
        invariant
            it.seq() == input@,
            out@ == strip_escapes(input@.take(it.index() as int)),
    {
        proof {
            let seen = input@.take(it.index() as int);
            assert(input@.take(it.index() + 1) == seen.push(c));
            seen.lemma_filter_push(c, |c: char| !is_escape(c));
        }
        if !(c == '\n' || c == '\t' || c == '\r' || c == '\\') {
            out.push(c);
        }
    }
    proof {
        assert(input@.take(input@.len() as int) == input@);
    }
    out
}

/// The form in which a raw feedback string is parsed: without escape
/// characters, then lowercased.
pub open spec fn normalized(raw: Seq<char>) -> Seq<char> {
    lowercase_of(strip_escapes(raw))
}

/// Strips the escape characters from `raw` and lowercases what is left.
pub fn normalize(raw: &str) -> (out: String)
    ensures
        out@ == normalized(raw@),
{
    let stripped = remove_escape_sequences(raw);
    stripped.as_str().to_lowercase()
}

/// The texts that a list of strings holds, in order.
pub open spec fn views(words: Seq<String>) -> Seq<Seq<char>> {
    words.map_values(|w: String| w@)
}

/// The pieces of `text` that lie between the occurrences of `sep`. A text
/// with `k` separators has `k + 1` pieces, some of which may be empty; the
/// empty text has the single piece `""`.
pub open spec fn split_on(text: Seq<char>, sep: char) -> Seq<Seq<char>>
    decreases text.len(),
{
    if text.len() == 0 {
        seq![Seq::<char>::empty()]
    } else {
        let before = split_on(text.drop_last(), sep);
        if text.last() == sep {
            before.push(Seq::<char>::empty())
        } else {
            before.drop_last().push(before.last().push(text.last()))
        }
    }
}

/// The pieces in order with one `sep` between each two neighbours.
pub open spec fn join_with(pieces: Seq<Seq<char>>, sep: char) -> Seq<char>
    decreases pieces.len(),
{
    if pieces.len() == 0 {
        Seq::<char>::empty()
    } else if pieces.len() == 1 {
        pieces[0]
    } else {
        join_with(pieces.drop_last(), sep).push(sep) + pieces.last()
    }
}

/// A text always splits into at least one piece, and no piece holds the
/// separator.
pub proof fn lemma_split_on_pieces(text: Seq<char>, sep: char)
    ensures
        split_on(text, sep).len() >= 1,
        forall|k: int|
            0 <= k < split_on(text, sep).len() ==> !(#[trigger] split_on(text, sep)[k]).contains(
                sep,
            ),
    decreases text.len(),
{
    if text.len() > 0 {
        lemma_split_on_pieces(text.drop_last(), sep);
        let before = split_on(text.drop_last(), sep);
        let pieces = split_on(text, sep);
        assert forall|k: int| 0 <= k < pieces.len() implies !(#[trigger] pieces[k]).contains(
            sep,
        ) by {
            if k < pieces.len() - 1 {
                assert(pieces[k] == before[k]);
            } else if text.last() != sep {
                let piece = before.last();
                assert(!piece.contains(sep));
                if piece.push(text.last()).contains(sep) {
                    let j = choose|j: int|
                        0 <= j < piece.len() + 1 && piece.push(text.last())[j] == sep;
                    assert(piece[j] == sep);
                }
            }
        }
    }
}

/// Joining the pieces of a text with the separator it was split on gives
/// the text back.
pub proof fn lemma_join_split(text: Seq<char>, sep: char)
    ensures
        join_with(split_on(text, sep), sep) == text,
    decreases text.len(),
{
    if text.len() > 0 {
        let shorter = text.drop_last();
        let before = split_on(shorter, sep);
        lemma_join_split(shorter, sep);
        lemma_split_on_pieces(shorter, sep);
        if text.last() == sep {
            let pieces = before.push(Seq::<char>::empty());
            assert(pieces.drop_last() == before);
            assert(join_with(pieces, sep) == shorter.push(sep) + Seq::<char>::empty());
            assert(shorter.push(sep) + Seq::<char>::empty() == text);
        } else {
            let grown = before.last().push(text.last());
            let pieces = before.drop_last().push(grown);
            assert(pieces.drop_last() == before.drop_last());
            if before.len() == 1 {
                assert(join_with(pieces, sep) == grown);
                assert(grown == text);
            } else {
                let head = join_with(before.drop_last(), sep).push(sep);
                assert(join_with(pieces, sep) == head + grown);
                assert(head + grown == (head + before.last()).push(text.last()));
                assert(shorter.push(text.last()) == text);
            }
        }
    }
}

/// Splits `text` on every occurrence of `sep`.
pub fn split_text(text: &str, sep: char) -> (pieces: Vec<String>)
    ensures
        views(pieces@) == split_on(text@, sep),
{
    let mut pieces: Vec<String> = Vec::new();
    let mut current = String::new();
    for c in it: text.chars()
        invariant
            it.seq() == text@,
            views(pieces@).push(current@) == split_on(text@.take(it.index() as int), sep),
    {
        proof {
            let seen = text@.take(it.index() as int);
            let next = text@.take(it.index() + 1);
            assert(next.drop_last() == seen);
            assert(next.last() == c);
            assert(views(pieces@).push(current@).drop_last() == views(pieces@));
        }
        if c == sep {
            proof {
                assert(views(pieces@.push(current)) == views(pieces@).push(current@));
            }
            pieces.push(current);
            current = String::new();
        } else {
            current.push(c);
        }
    }
    proof {
        assert(text@.take(text@.len() as int) == text@);
        assert(views(pieces@.push(current)) == views(pieces@).push(current@));
    }
    pieces.push(current);
    pieces
}

/// Joins the words with one `sep` between each two neighbours.
pub fn join_words(words: &[String], sep: char) -> (out: String)
    ensures
        out@ == join_with(views(words@), sep),
{
    let mut out = String::new();
    let mut i: usize = 0;
    while i < words.len()
        invariant
            i <= words.len(),
            out@ == join_with(views(words@).take(i as int), sep),
        decreases words.len() - i,
    {
        proof {
            let done = views(words@).take(i as int);
            let next = views(words@).take(i + 1);
            assert(next.drop_last() == done);
            assert(next.last() == words@[i as int]@);
        }
        if i > 0 {
            out.push(sep);
        }
        out.append(words[i].as_str());
        i += 1;
    }
    proof {
        assert(views(words@).take(words@.len() as int) == views(words@));
    }
    out
}

} // verus!
