//! Cutting sample text into word pieces of the kind a byte-level tokenizer produces.
use crate::text::{chars_of, contents, string_of};
use vstd::prelude::*;

verus! {

/// The most characters that one piece holds.
pub const MAX_PIECE_CHARS: usize = 6;

/// The number of characters in the first word of a text: up to the next space, where the space
/// that the text itself starts with belongs to the word.
pub open spec fn first_word_len(text: Seq<char>) -> nat
    recommends
        text.len() > 0,
{
    1 + until_space(text.skip(1))
}

/// The number of characters before the first space, or all of them if there is none.
pub open spec fn until_space(text: Seq<char>) -> nat
    decreases text.len(),
{
    if text.len() == 0 || text[0] == ' ' {
        0
    } else {
        1 + until_space(text.skip(1))
    }
}

/// A word in chunks of six characters, of which the last may be shorter.
pub open spec fn chunks(word: Seq<char>) -> Seq<Seq<char>>
    decreases word.len(),
{
    if word.len() == 0 {
        seq![]
    } else if word.len() <= MAX_PIECE_CHARS {
        seq![word]
    } else {
        seq![word.take(MAX_PIECE_CHARS as int)] + chunks(word.skip(MAX_PIECE_CHARS as int))
    }
}

/// The pieces of a text: the chunks of its words, in order.
pub open spec fn pieces_of(text: Seq<char>) -> Seq<Seq<char>>
    decreases text.len(),
{
    if text.len() == 0 {
        seq![]
    } else {
        let n = first_word_len(text) as int;
        proof {
            until_space_stops(text.skip(1));
        }
        chunks(text.take(n)) + pieces_of(text.skip(n))
    }
}

proof fn lemma_until_space(text: Seq<char>, n: int)
    requires
        0 <= n <= text.len(),
        forall|i: int| 0 <= i < n ==> text[i] != ' ',
        n < text.len() ==> text[n] == ' ',
    ensures
        until_space(text) == n,
    decreases n,
{
    if n > 0 {
        lemma_until_space(text.skip(1), n - 1);
    }
}

/// The count of characters before the first space is that: none of them is a space, and a space
/// or the end follows.
pub proof fn until_space_stops(text: Seq<char>)
    ensures
        until_space(text) <= text.len(),
        forall|i: int| 0 <= i < until_space(text) ==> text[i] != ' ',
        until_space(text) < text.len() ==> text[until_space(text) as int] == ' ',
    decreases text.len(),
{
    if text.len() == 0 || text[0] == ' ' {
    } else {
        until_space_stops(text.skip(1));
        assert forall|i: int| 0 <= i < until_space(text) implies text[i] != ' ' by {
            if i > 0 {
                assert(text.skip(1)[i - 1] == text[i]);
            }
        }
    }
}

proof fn lemma_flatten_one(s: Seq<char>)
    ensures
        seq![s].flatten() == s,
{
    assert(seq![s].drop_first() =~= Seq::<Seq<char>>::empty());
    assert(Seq::<Seq<char>>::empty().flatten() =~= seq![]);
    assert(seq![s].flatten() =~= s);
}

proof fn lemma_flatten_concat(a: Seq<Seq<char>>, b: Seq<Seq<char>>)
    ensures
        (a + b).flatten() == a.flatten() + b.flatten(),
    decreases a.len(),
{
    if a.len() == 0 {
        assert(a + b =~= b);
        assert(a.flatten() + b.flatten() =~= b.flatten());
    } else {
        assert((a + b).drop_first() =~= a.drop_first() + b);
        lemma_flatten_concat(a.drop_first(), b);
        assert((a + b).flatten() =~= a.flatten() + b.flatten());
    }
}

proof fn lemma_chunks(word: Seq<char>)
    ensures
        chunks(word).flatten() == word,
        forall|i: int|
            0 <= i < chunks(word).len() ==> 1 <= (#[trigger] chunks(word)[i]).len()
                <= MAX_PIECE_CHARS,
    decreases word.len(),
{
    if word.len() == 0 {
        assert(word =~= seq![]);
    } else if word.len() <= MAX_PIECE_CHARS {
        lemma_flatten_one(word);
    } else {
        let head = word.take(MAX_PIECE_CHARS as int);
        let tail = word.skip(MAX_PIECE_CHARS as int);
        lemma_chunks(tail);
        lemma_flatten_one(head);
        lemma_flatten_concat(seq![head], chunks(tail));
        assert(head + tail =~= word);
    }
}

/// Cutting a text into pieces loses nothing: the pieces, one after the other, are the text.
pub proof fn pieces_concatenate_to_text(text: Seq<char>)
    ensures
        pieces_of(text).flatten() == text,
    decreases text.len(),
{
    if text.len() == 0 {
        assert(text =~= seq![]);
    } else {
        let n = first_word_len(text) as int;
        until_space_stops(text.skip(1));
        lemma_chunks(text.take(n));
        pieces_concatenate_to_text(text.skip(n));
        lemma_flatten_concat(chunks(text.take(n)), pieces_of(text.skip(n)));
        assert(text.take(n) + text.skip(n) =~= text);
    }
}

/// Every piece holds one to six characters.
pub proof fn pieces_are_short(text: Seq<char>, i: int)
    requires
        0 <= i < pieces_of(text).len(),
    ensures
        1 <= pieces_of(text)[i].len() <= MAX_PIECE_CHARS,
    decreases text.len(),
{
    let n = first_word_len(text) as int;
    until_space_stops(text.skip(1));
    lemma_chunks(text.take(n));
    let head = chunks(text.take(n));
    if i >= head.len() {
        pieces_are_short(text.skip(n), i - head.len());
    }
}

proof fn lemma_chunks_are_few(word: Seq<char>)
    ensures
        chunks(word).len() <= word.len(),
        word.len() > 0 ==> chunks(word).len() > 0,
    decreases word.len(),
{
    if word.len() > MAX_PIECE_CHARS {
        lemma_chunks_are_few(word.skip(MAX_PIECE_CHARS as int));
    }
}

/// A text has no more pieces than characters, and it has one if it has a character.
pub proof fn pieces_are_few(text: Seq<char>)
    ensures
        pieces_of(text).len() <= text.len(),
        text.len() > 0 ==> pieces_of(text).len() > 0,
    decreases text.len(),
{
    if text.len() > 0 {
        let n = first_word_len(text) as int;
        until_space_stops(text.skip(1));
        lemma_chunks_are_few(text.take(n));
        pieces_are_few(text.skip(n));
    }
}

proof fn lemma_chunks_of_word(word: Seq<char>, i: int, j: int)
    requires
        forall|k: int| 0 < k < word.len() ==> word[k] != ' ',
        0 <= i < chunks(word).len(),
        0 <= j < chunks(word)[i].len(),
        chunks(word)[i][j] == ' ',
    ensures
        j == 0,
    decreases word.len(),
{
    if word.len() > MAX_PIECE_CHARS && i > 0 {
        lemma_chunks_of_word(word.skip(MAX_PIECE_CHARS as int), i - 1, j);
    }
}

/// A space starts a new piece: inside a piece it stands at the front and nowhere else.
pub proof fn space_starts_a_piece(text: Seq<char>, i: int, j: int)
    requires
        0 <= i < pieces_of(text).len(),
        0 <= j < pieces_of(text)[i].len(),
        pieces_of(text)[i][j] == ' ',
    ensures
        j == 0,
    decreases text.len(),
{
    let n = first_word_len(text) as int;
    until_space_stops(text.skip(1));
    let word = text.take(n);
    let head = chunks(word);
    if i >= head.len() {
        space_starts_a_piece(text.skip(n), i - head.len(), j);
    } else {
        assert forall|k: int| 0 < k < word.len() implies word[k] != ' ' by {
            assert(text.skip(1)[k - 1] == text[k]);
        }
        lemma_chunks_of_word(word, i, j);
    }
}

/// The first piece of a text starts with its first character.
proof fn lemma_first_piece_starts(text: Seq<char>)
    requires
        text.len() > 0,
    ensures
        pieces_of(text).len() > 0,
        pieces_of(text)[0].len() > 0,
        pieces_of(text)[0][0] == text[0],
{
    let n = first_word_len(text) as int;
    until_space_stops(text.skip(1));
    lemma_chunks_are_few(text.take(n));
}

proof fn lemma_chunks_are_full(word: Seq<char>, i: int)
    requires
        0 <= i < chunks(word).len() - 1,
    ensures
        chunks(word)[i].len() == 6,
    decreases word.len(),
{
    if word.len() > MAX_PIECE_CHARS && i > 0 {
        lemma_chunks_are_full(word.skip(MAX_PIECE_CHARS as int), i - 1);
    }
}

/// A piece ends only for a reason: it holds six characters, or a space follows, or the text ends.
pub proof fn pieces_are_not_cut_short(text: Seq<char>, i: int)
    requires
        0 <= i < pieces_of(text).len() - 1,
    ensures
        pieces_of(text)[i].len() == 6 || (pieces_of(text)[i + 1].len() > 0 && pieces_of(text)[i
            + 1][0] == ' '),
    decreases text.len(),
{
    let n = first_word_len(text) as int;
    until_space_stops(text.skip(1));
    let word = text.take(n);
    let rest = text.skip(n);
    let head = chunks(word);
    if i < head.len() - 1 {
        lemma_chunks_are_full(word, i);
    } else if i == head.len() - 1 {
        if rest.len() == 0 {
            assert(pieces_of(rest).len() == 0);
        }
        assert(rest[0] == text.skip(1)[n - 1]);
        lemma_first_piece_starts(rest);
    } else {
        pieces_are_not_cut_short(rest, i - head.len());
    }
}

/// The pieces of a text are short: none holds more than six characters, and none is empty.
pub proof fn pieces_hold_one_to_six_characters(text: Seq<char>, i: int)
    requires
        0 <= i < pieces_of(text).len(),
    ensures
        1 <= pieces_of(text)[i].len() <= 6,
{
    pieces_are_short(text, i);
}

/// Cuts a sample into word pieces: a space starts a new piece, and words are cut into chunks of
/// at most six characters.
pub fn piece_strings(sample: &str) -> (pieces: Vec<String>)
    ensures
        contents(pieces@) == pieces_of(sample@),
{
    let chars = chars_of(sample);
    let mut pieces: Vec<String> = Vec::new();
    let mut at: usize = 0;
    assert(chars@.skip(0) =~= chars@);
    while at < chars.len()
        invariant
            at <= chars@.len(),
            pieces_of(chars@) == contents(pieces@) + pieces_of(chars@.skip(at as int)),
        decreases chars@.len() - at,
    {
        let ghost rest = chars@.skip(at as int);
        let mut end: usize = at + 1;
        while end < chars.len() && chars[end] != ' '
            invariant
                at < end <= chars@.len(),
                forall|i: int| at < i < end ==> chars@[i] != ' ',
            decreases chars@.len() - end,
        {
            end = end + 1;
        }
        proof {
            lemma_until_space(rest.skip(1), end - at - 1);
            assert(rest.take(end - at) =~= chars@.subrange(at as int, end as int));
            assert(rest.skip(end - at) =~= chars@.skip(end as int));
        }
        let ghost done = contents(pieces@);
        let ghost word = chars@.subrange(at as int, end as int);
        let mut from: usize = at;
        assert(chars@.subrange(from as int, end as int) =~= word);
        assert(contents(pieces@) + chunks(word) =~= done + chunks(word));
        while from < end
            invariant
                at <= from <= end <= chars@.len(),
                contents(pieces@) + chunks(chars@.subrange(from as int, end as int)) == done
                    + chunks(word),
            decreases end - from,
        {
            let to: usize = if end - from <= MAX_PIECE_CHARS {
                end
            } else {
                from + MAX_PIECE_CHARS
            };
            let ghost before = contents(pieces@);
            let piece = string_of(&chars, from, to);
            pieces.push(piece);
            proof {
                let part = chars@.subrange(from as int, end as int);
                assert(contents(pieces@) =~= before.push(piece@));
                assert(part.take(to - from) =~= chars@.subrange(from as int, to as int));
                assert(part.skip(to - from) =~= chars@.subrange(to as int, end as int));
                assert(contents(pieces@) + chunks(chars@.subrange(to as int, end as int))
                    =~= before + chunks(part));
            }
            from = to;
        }
        assert(contents(pieces@) =~= done + chunks(word));
        assert(done + (chunks(word) + pieces_of(chars@.skip(end as int))) =~= contents(pieces@)
            + pieces_of(chars@.skip(end as int)));
        at = end;
    }
    assert(contents(pieces@) + pieces_of(chars@.skip(at as int)) =~= contents(pieces@));
    pieces
}

} // verus!
