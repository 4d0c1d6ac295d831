//! A synthetic byte-level tokenizer and a token stream for it, made from sample text.
use crate::byte_level::{
    byte_to_char, from_byte_level, is_alphabet, spelled_bytes, spelling, spelling_round_trip,
    to_byte_level,
};
use crate::error::{Result, TokenizerError};
use crate::memo::{
    entries_bytes, memo_agrees_with_stream, memo_text, same_bytes, valid_stream_is_emitted_whole,
    MemoDecoder,
};
use crate::pieces::{piece_strings, pieces_are_few, pieces_concatenate_to_text, pieces_of};
use crate::streaming::{joined_bytes_of_one, stream_result, stream_text};
use crate::text::{contents, encode_concat};
use crate::tokenizer::{
    decodes_bytewise, is_context_independent, joined_bytes, rendering, Detokenizer, Tokenizer,
};
use crate::utf8::{from_utf8_lossy, lossy, lossy_of_encoded, lossy_of_nothing, valid_prefix_len};
use vstd::prelude::*;
use vstd::utf8::*;

verus! {

/// The token that ends a text. It is special and has the ID 0.
pub const END_OF_TEXT: &'static str = "<|endoftext|>";

/// How many tokens the stream of a fixture holds.
pub const STREAM_TOKENS: usize = 2048;

/// How many tokens the prompt of a fixture holds, if the sample has as many.
pub const PROMPT_TOKENS: usize = 64;

/// The bytes of a token of the given vocabulary. The special token has none where special tokens
/// are skipped, and neither has an ID outside the vocabulary.
pub open spec fn vocab_bytes(vocab: Seq<Seq<char>>, skip_special_tokens: bool) -> spec_fn(
    u32,
) -> Option<Seq<u8>> {
    |id: u32|
        if (id as int) < vocab.len() && !(skip_special_tokens && id == 0) {
            Some(spelled_bytes(vocab[id as int]))
        } else {
            Some(seq![])
        }
}

/// The first place of a token in a vocabulary.
pub open spec fn first_place(vocab: Seq<Seq<char>>, token: Seq<char>) -> Option<u32>
    decreases vocab.len(),
{
    if vocab.len() == 0 {
        None
    } else {
        match first_place(vocab.drop_last(), token) {
            Some(id) => Some(id),
            None => if vocab.last() == token {
                Some((vocab.len() - 1) as u32)
            } else {
                None
            },
        }
    }
}

/// A token that has been found keeps its place when the vocabulary goes on.
proof fn lemma_first_place_stays(vocab: Seq<Seq<char>>, token: Seq<char>, n: int)
    requires
        0 <= n <= vocab.len(),
        first_place(vocab.take(n), token) is Some,
    ensures
        first_place(vocab, token) == first_place(vocab.take(n), token),
    decreases vocab.len() - n,
{
    if n == vocab.len() {
        assert(vocab.take(n) =~= vocab);
    } else {
        assert(vocab.take(n + 1).drop_last() =~= vocab.take(n));
        lemma_first_place_stays(vocab, token, n + 1);
    }
}

/// A token has a place exactly if it is in the vocabulary, and the place is the first that holds
/// it.
pub proof fn first_place_finds(vocab: Seq<Seq<char>>, token: Seq<char>)
    requires
        vocab.len() <= u32::MAX,
    ensures
        first_place(vocab, token) is Some <==> vocab.contains(token),
        first_place(vocab, token) matches Some(id) ==> {
            &&& id < vocab.len()
            &&& vocab[id as int] == token
            &&& forall|i: int| 0 <= i < id ==> vocab[i] != token
        },
    decreases vocab.len(),
{
    if vocab.len() > 0 {
        let rest = vocab.drop_last();
        first_place_finds(rest, token);
        if let Some(id) = first_place(rest, token) {
            assert forall|i: int| 0 <= i < id implies vocab[i] != token by {
                assert(rest[i] == vocab[i]);
            }
            assert(vocab[id as int] == token);
        } else {
            assert forall|i: int| 0 <= i < rest.len() implies vocab[i] != token by {
                assert(rest[i] == vocab[i]);
                assert(!rest.contains(token));
            }
            if vocab.contains(token) {
                let i = choose|i: int| 0 <= i < vocab.len() && vocab[i] == token;
                assert(i == vocab.len() - 1);
            }
        }
    }
}

/// A tokenizer that knows a byte-level vocabulary and no merge rules: it decodes, and cannot
/// encode.
pub struct VocabTokenizer {
    entries: Vec<String>,
    bytes: Vec<Vec<u8>>,
}

impl VocabTokenizer {
    /// The entries of the vocabulary, in the byte-level alphabet, by ID.
    pub closed spec fn vocab(&self) -> Seq<Seq<char>> {
        contents(self.entries@)
    }

    /// The bytes of each entry are kept beside it.
    #[verifier::type_invariant]
    spec fn has_all_bytes(&self) -> bool {
        &&& self.bytes@.len() == self.entries@.len()
        &&& forall|i: int|
            0 <= i < self.bytes@.len() ==> (#[trigger] self.bytes@[i])@ == spelled_bytes(
                self.entries@[i]@,
            )
    }

    /// Creates a tokenizer for a vocabulary. The entry with the ID 0 is special.
    pub fn new(entries: Vec<String>) -> (r: Self)
        requires
            entries@.len() <= u32::MAX,
        ensures
            r.vocab() == contents(entries@),
    {
        let alphabet = byte_to_char();
        let mut bytes: Vec<Vec<u8>> = Vec::new();
        let mut i: usize = 0;
        while i < entries.len()
            invariant
                i <= entries@.len(),
                bytes@.len() == i,
                is_alphabet(&alphabet),
                forall|j: int|
                    0 <= j < i ==> (#[trigger] bytes@[j])@ == spelled_bytes(entries@[j]@),
            decreases entries@.len() - i,
        {
            bytes.push(from_byte_level(entries[i].as_str(), &alphabet));
            i = i + 1;
        }
        VocabTokenizer { entries, bytes }
    }
}

impl Detokenizer for VocabTokenizer {
    open spec fn text(&self, token_ids: Seq<u32>, skip_special_tokens: bool) -> Option<Seq<char>> {
        Some(lossy(joined_bytes(token_ids, vocab_bytes(self.vocab(), skip_special_tokens))->0))
    }

    fn decode(&self, token_ids: &[u32], skip_special_tokens: bool) -> (r: Result<String>) {
        proof {
            use_type_invariant(self);
        }
        let ghost lookup = vocab_bytes(self.vocab(), skip_special_tokens);
        let mut bytes: Vec<u8> = Vec::new();
        let mut i: usize = 0;
        while i < token_ids.len()
            invariant
                i <= token_ids@.len(),
                self.has_all_bytes(),
                lookup == vocab_bytes(self.vocab(), skip_special_tokens),
                joined_bytes(token_ids@.take(i as int), lookup) == Some(bytes@),
            decreases token_ids@.len() - i,
        {
            let id: u32 = token_ids[i];
            assert(token_ids@.take(i + 1).drop_last() =~= token_ids@.take(i as int));
            let ghost before = bytes@;
            if (id as usize) < self.entries.len() && !(skip_special_tokens && id == 0) {
                let mut more: Vec<u8> = self.bytes[id as usize].clone();
                assert(more@ =~= self.bytes@[id as int]@);
                bytes.append(&mut more);
            } else {
                assert(before + seq![] =~= bytes@);
            }
            i = i + 1;
        }
        assert(token_ids@.take(i as int) =~= token_ids@);
        Ok(from_utf8_lossy(bytes.as_slice()))
    }
}

impl Tokenizer for VocabTokenizer {
    open spec fn tokens(&self, text: Seq<char>, add_special_tokens: bool) -> Option<Seq<u32>> {
        None
    }

    open spec fn id_of(&self, token: Seq<char>) -> Option<u32> {
        first_place(self.vocab(), token)
    }

    fn encode(&self, text: &str, add_special_tokens: bool) -> (r: Result<Vec<u32>>) {
        Err(TokenizerError { message: "the vocabulary has no merge rules".to_owned() })
    }

    fn token_to_id(&self, token: &str) -> (r: Option<u32>) {
        let wanted = token.to_owned();
        let mut i: usize = 0;
        while i < self.entries.len()
            invariant
                i <= self.entries@.len(),
                wanted@ == token@,
                first_place(self.vocab().take(i as int), token@) is None,
            decreases self.entries@.len() - i,
        {
            assert(self.vocab().take(i + 1).drop_last() =~= self.vocab().take(i as int));
            if self.entries[i] == wanted {
                proof {
                    lemma_first_place_stays(self.vocab(), token@, i + 1);
                }
                return Some(i as u32);
            }
            i = i + 1;
        }
        assert(self.vocab().take(i as int) =~= self.vocab());
        None
    }

    fn id_to_token(&self, id: u32) -> (r: Option<String>)
        ensures
            r is Some <==> id < self.vocab().len(),
            r matches Some(token) ==> token@ == self.vocab()[id as int],
    {
        if (id as usize) < self.entries.len() {
            Some(self.entries[id as usize].clone())
        } else {
            None
        }
    }

    fn vocab_size(&self) -> (r: usize)
        ensures
            r == self.vocab().len(),
    {
        self.entries.len()
    }

    fn is_special_id(&self, token_id: u32) -> (r: bool)
        ensures
            r == (token_id == 0),
    {
        token_id == 0
    }

    fn decode_is_context_independent(&self) -> (r: bool)
        ensures
            r,
    {
        proof {
            vocab_decodes_bytewise(self, true);
            vocab_decodes_bytewise(self, false);
        }
        true
    }
}

/// Every token of a vocabulary has bytes.
proof fn lemma_vocab_is_total(vocab: Seq<Seq<char>>, skip: bool, token_ids: Seq<u32>)
    ensures
        joined_bytes(token_ids, vocab_bytes(vocab, skip)) is Some,
    decreases token_ids.len(),
{
    if token_ids.len() > 0 {
        lemma_vocab_is_total(vocab, skip, token_ids.drop_last());
    }
}

/// A vocabulary tokenizer decodes every token to its own bytes, wherever it stands.
pub proof fn vocab_decodes_bytewise(tokenizer: &VocabTokenizer, skip_special_tokens: bool)
    ensures
        decodes_bytewise(
            rendering(tokenizer, skip_special_tokens),
            vocab_bytes(tokenizer.vocab(), skip_special_tokens),
        ),
        is_context_independent(rendering(tokenizer, skip_special_tokens)),
{
    let render = rendering(tokenizer, skip_special_tokens);
    let lookup = vocab_bytes(tokenizer.vocab(), skip_special_tokens);
    assert forall|token_ids: Seq<u32>| #[trigger]
        render(token_ids) == (match joined_bytes(token_ids, lookup) {
            Some(bytes) => Some(lossy(bytes)),
            None => None,
        }) by {
        lemma_vocab_is_total(tokenizer.vocab(), skip_special_tokens, token_ids);
    }
    assert(decodes_bytewise(render, lookup));
}

/// Skipping special tokens is leaving out the ID 0: what is left decodes as without skipping,
/// whatever the vocabulary.
pub proof fn special_tokens_are_skipped(tokenizer: &VocabTokenizer, token_ids: Seq<u32>)
    ensures
        tokenizer.text(token_ids, true) == tokenizer.text(
            token_ids.filter(|id: u32| id != 0),
            false,
        ),
{
    lemma_skipped_bytes(tokenizer.vocab(), token_ids);
}

proof fn lemma_skipped_bytes(vocab: Seq<Seq<char>>, token_ids: Seq<u32>)
    ensures
        joined_bytes(token_ids, vocab_bytes(vocab, true)) == joined_bytes(
            token_ids.filter(|id: u32| id != 0),
            vocab_bytes(vocab, false),
        ),
    decreases token_ids.len(),
{
    let kept = |id: u32| id != 0;
    reveal(Seq::filter);
    lemma_vocab_is_total(vocab, true, token_ids);
    if token_ids.len() > 0 {
        let rest = token_ids.drop_last();
        let id = token_ids.last();
        lemma_skipped_bytes(vocab, rest);
        lemma_vocab_is_total(vocab, true, rest);
        let head = joined_bytes(rest, vocab_bytes(vocab, true))->0;
        if kept(id) {
            assert(token_ids.filter(kept) == rest.filter(kept).push(id));
            assert(token_ids.filter(kept).drop_last() =~= rest.filter(kept));
        } else {
            assert(head + Seq::<u8>::empty() =~= head);
        }
    }
}

/// The text of tokens that are not skipped is that of the bytes which their entries spell, one
/// after the other. An ID outside the vocabulary adds nothing.
pub proof fn tokens_show_what_they_spell(tokenizer: &VocabTokenizer, token_ids: Seq<u32>)
    ensures
        tokenizer.text(token_ids, false) == Some(
            lossy(
                token_ids.map_values(
                    |id: u32|
                        if (id as int) < tokenizer.vocab().len() {
                            spelled_bytes(tokenizer.vocab()[id as int])
                        } else {
                            Seq::<u8>::empty()
                        },
                ).flatten(),
            ),
        ),
{
    lemma_spelled_tokens(tokenizer.vocab(), token_ids);
}

proof fn lemma_spelled_tokens(vocab: Seq<Seq<char>>, token_ids: Seq<u32>)
    ensures
        joined_bytes(token_ids, vocab_bytes(vocab, false)) == Some(
            token_ids.map_values(
                |id: u32|
                    if (id as int) < vocab.len() {
                        spelled_bytes(vocab[id as int])
                    } else {
                        Seq::<u8>::empty()
                    },
            ).flatten(),
        ),
    decreases token_ids.len(),
{
    let spelled = |id: u32|
        if (id as int) < vocab.len() {
            spelled_bytes(vocab[id as int])
        } else {
            Seq::<u8>::empty()
        };
    let all = token_ids.map_values(spelled);
    if token_ids.len() == 0 {
        assert(all.flatten() =~= Seq::<u8>::empty());
    } else {
        let rest = token_ids.drop_last();
        lemma_spelled_tokens(vocab, rest);
        assert(all =~= rest.map_values(spelled).push(spelled(token_ids.last())));
        rest.map_values(spelled).lemma_flatten_push(spelled(token_ids.last()));
    }
}

/// A token alone shows its entry, and nothing if it is special and skipped or if its ID lies
/// outside the vocabulary.
pub proof fn one_token_shows_its_entry(tokenizer: &VocabTokenizer, id: u32)
    ensures
        id < tokenizer.vocab().len() ==> tokenizer.text(seq![id], false) == Some(
            lossy(spelled_bytes(tokenizer.vocab()[id as int])),
        ),
        id != 0 ==> tokenizer.text(seq![id], true) == tokenizer.text(seq![id], false),
        tokenizer.text(seq![0u32], true) == Some(Seq::<char>::empty()),
        id >= tokenizer.vocab().len() ==> tokenizer.text(seq![id], false) == Some(
            Seq::<char>::empty(),
        ),
{
    joined_bytes_of_one(id, vocab_bytes(tokenizer.vocab(), false));
    joined_bytes_of_one(id, vocab_bytes(tokenizer.vocab(), true));
    joined_bytes_of_one(0, vocab_bytes(tokenizer.vocab(), true));
    lossy_of_nothing();
}

/// A token has an ID exactly if it is in the vocabulary, and then the ID is that of the first
/// entry equal to it, be it the special one.
pub proof fn tokens_are_found_by_their_entry(tokenizer: &VocabTokenizer, token: Seq<char>)
    requires
        tokenizer.vocab().len() <= u32::MAX,
    ensures
        tokenizer.id_of(token) is Some <==> tokenizer.vocab().contains(token),
        tokenizer.id_of(token) matches Some(id) ==> {
            &&& id < tokenizer.vocab().len()
            &&& tokenizer.vocab()[id as int] == token
            &&& forall|i: int| 0 <= i < id ==> tokenizer.vocab()[i] != token
        },
{
    first_place_finds(tokenizer.vocab(), token);
}

/// Every entry is found under an ID that stands for it, and under its own one if no entry before
/// it is equal.
pub proof fn entries_are_found_again(tokenizer: &VocabTokenizer, id: u32)
    requires
        tokenizer.vocab().len() <= u32::MAX,
        id < tokenizer.vocab().len(),
    ensures
        tokenizer.id_of(tokenizer.vocab()[id as int]) is Some,
        tokenizer.vocab()[tokenizer.id_of(tokenizer.vocab()[id as int])->0 as int]
            == tokenizer.vocab()[id as int],
        (forall|i: int| 0 <= i < id ==> tokenizer.vocab()[i] != tokenizer.vocab()[id as int])
            ==> tokenizer.id_of(tokenizer.vocab()[id as int]) == Some(id),
{
    let token = tokenizer.vocab()[id as int];
    tokens_are_found_by_their_entry(tokenizer, token);
    assert(tokenizer.vocab().contains(token));
}

/// A vocabulary alone encodes no text.
pub proof fn vocabulary_encodes_nothing(
    tokenizer: &VocabTokenizer,
    text: Seq<char>,
    add_special_tokens: bool,
)
    ensures
        tokenizer.tokens(text, add_special_tokens) is None,
{
}

/// The different pieces of a list, each where it occurs first.
pub open spec fn first_occurrences(pieces: Seq<Seq<char>>) -> Seq<Seq<char>>
    decreases pieces.len(),
{
    if pieces.len() == 0 {
        seq![]
    } else {
        let before = first_occurrences(pieces.drop_last());
        if before.contains(pieces.last()) {
            before
        } else {
            before.push(pieces.last())
        }
    }
}

/// Whether `vocab` holds the end-of-text token and then each different piece once, in the order
/// of their first occurrence, and `order` gives for each piece its ID.
pub open spec fn is_numbering(
    pieces: Seq<Seq<char>>,
    vocab: Seq<Seq<char>>,
    order: Seq<u32>,
) -> bool {
    &&& vocab == seq![END_OF_TEXT@] + first_occurrences(pieces)
    &&& order.len() == pieces.len()
    &&& forall|i: int|
        0 <= i < pieces.len() ==> 1 <= (#[trigger] order[i]) < vocab.len() && vocab[order[i] as int]
            == pieces[i]
}

proof fn lemma_first_occurrences(pieces: Seq<Seq<char>>)
    ensures
        first_occurrences(pieces).no_duplicates(),
        first_occurrences(pieces).len() <= pieces.len(),
        forall|i: int|
            0 <= i < pieces.len() ==> first_occurrences(pieces).contains(#[trigger] pieces[i]),
    decreases pieces.len(),
{
    if pieces.len() > 0 {
        let rest = pieces.drop_last();
        let before = first_occurrences(rest);
        let now = first_occurrences(pieces);
        lemma_first_occurrences(rest);
        assert forall|i: int| 0 <= i < pieces.len() implies now.contains(#[trigger] pieces[i]) by {
            if i < rest.len() {
                assert(before.contains(rest[i]));
                let j = choose|j: int| 0 <= j < before.len() && before[j] == rest[i];
                assert(now[j] == pieces[i]);
            } else if !before.contains(pieces.last()) {
                assert(now[before.len() as int] == pieces[i]);
            }
        }
    }
}

proof fn lemma_occurrences_grow(pieces: Seq<Seq<char>>, n: int)
    requires
        0 <= n <= pieces.len(),
    ensures
        first_occurrences(pieces.take(n)).len() <= first_occurrences(pieces).len(),
    decreases pieces.len() - n,
{
    if n == pieces.len() {
        assert(pieces.take(n) =~= pieces);
    } else {
        assert(pieces.take(n + 1).drop_last() =~= pieces.take(n));
        lemma_occurrences_grow(pieces, n + 1);
    }
}

/// An ID stands for one piece and a piece has one ID.
pub proof fn ids_are_stable(
    pieces: Seq<Seq<char>>,
    vocab: Seq<Seq<char>>,
    order: Seq<u32>,
    i: int,
    j: int,
)
    requires
        is_numbering(pieces, vocab, order),
        0 <= i < pieces.len(),
        0 <= j < pieces.len(),
    ensures
        order[i] == order[j] <==> pieces[i] == pieces[j],
{
    lemma_first_occurrences(pieces);
    let distinct = first_occurrences(pieces);
    assert(distinct[order[i] - 1] == vocab[order[i] as int]);
    assert(distinct[order[j] - 1] == vocab[order[j] as int]);
}

/// The pieces that occur in a list, each once, and no others.
pub proof fn occurrences_are_the_pieces(pieces: Seq<Seq<char>>)
    ensures
        first_occurrences(pieces).no_duplicates(),
        first_occurrences(pieces).to_set() == pieces.to_set(),
{
    lemma_first_occurrences(pieces);
    let distinct = first_occurrences(pieces);
    assert forall|piece: Seq<char>| distinct.contains(piece) implies pieces.contains(piece) by {
        let k = choose|k: int| 0 <= k < distinct.len() && distinct[k] == piece;
        let i = lemma_first_seen(pieces, k);
        assert(pieces[i] == piece);
    }
    assert forall|piece: Seq<char>| pieces.contains(piece) implies distinct.contains(piece) by {
        let i = choose|i: int| 0 <= i < pieces.len() && pieces[i] == piece;
        assert(distinct.contains(pieces[i]));
    }
    assert(distinct.to_set() =~= pieces.to_set());
}

/// Where one of the different pieces occurs first: before it occur those in front of it.
proof fn lemma_first_seen(pieces: Seq<Seq<char>>, k: int) -> (i: int)
    requires
        0 <= k < first_occurrences(pieces).len(),
    ensures
        0 <= i < pieces.len(),
        pieces[i] == first_occurrences(pieces)[k],
        first_occurrences(pieces.take(i)) == first_occurrences(pieces).take(k),
    decreases pieces.len(),
{
    let rest = pieces.drop_last();
    let before = first_occurrences(rest);
    let now = first_occurrences(pieces);
    if k < before.len() {
        let i = lemma_first_seen(rest, k);
        assert(pieces.take(i) =~= rest.take(i));
        assert(now.take(k) =~= before.take(k));
        i
    } else {
        let i = rest.len() as int;
        assert(pieces.take(i) =~= rest);
        assert(now.take(k) =~= before);
        i
    }
}

/// IDs are given from 1 on in the order in which the pieces come: each ID of the vocabulary is
/// given, each piece has the ID under which the vocabulary holds it, and before an ID is given
/// the one in front of it has been. ID 0 is the end of text.
pub proof fn ids_are_given_in_order(
    pieces: Seq<Seq<char>>,
    vocab: Seq<Seq<char>>,
    order: Seq<u32>,
)
    requires
        is_numbering(pieces, vocab, order),
    ensures
        vocab.len() > 0,
        vocab[0] == "<|endoftext|>"@,
        order.len() == pieces.len(),
        forall|i: int|
            0 <= i < order.len() ==> 1 <= (#[trigger] order[i]) < vocab.len()
                && vocab[order[i] as int] == pieces[i],
        forall|k: u32| 1 <= k < vocab.len() ==> #[trigger] order.contains(k),
        forall|i: int|
            0 <= i < order.len() && (#[trigger] order[i]) > 1 ==> order.take(i).contains(
                (order[i] - 1) as u32,
            ),
{
    let distinct = first_occurrences(pieces);
    assert forall|k: u32| 1 <= k < vocab.len() implies #[trigger] order.contains(k) by {
        let i = lemma_first_seen(pieces, k - 1);
        lemma_id_of_piece(pieces, vocab, order, i, k - 1);
        assert(order[i] == k);
    }
    assert forall|i: int| 0 <= i < order.len() && (#[trigger] order[i]) > 1 implies order.take(
        i,
    ).contains((order[i] - 1) as u32) by {
        let k = order[i] - 1;
        assert(distinct[k] == vocab[order[i] as int]);
        let first = lemma_first_seen(pieces, k);
        lemma_seen_before(pieces, i, k, first);
        let head = pieces.take(first);
        let j = lemma_first_seen(head, k - 1);
        assert(head[j] == pieces[j]);
        assert(pieces[j] == distinct[k - 1]);
        lemma_id_of_piece(pieces, vocab, order, j, k - 1);
        assert(order[j] == k);
        assert(order.take(i)[j] == k);
    }
}

/// The ID of a piece is one more than its place among the different pieces.
proof fn lemma_id_of_piece(
    pieces: Seq<Seq<char>>,
    vocab: Seq<Seq<char>>,
    order: Seq<u32>,
    i: int,
    k: int,
)
    requires
        is_numbering(pieces, vocab, order),
        0 <= i < pieces.len(),
        0 <= k < first_occurrences(pieces).len(),
        pieces[i] == first_occurrences(pieces)[k],
    ensures
        order[i] == k + 1,
{
    lemma_first_occurrences(pieces);
    assert(first_occurrences(pieces)[order[i] - 1] == vocab[order[i] as int]);
}

/// A piece does not occur before the place where it is first seen.
proof fn lemma_seen_before(pieces: Seq<Seq<char>>, i: int, k: int, first: int)
    requires
        0 <= i < pieces.len(),
        0 <= first < pieces.len(),
        0 <= k < first_occurrences(pieces).len(),
        pieces[i] == first_occurrences(pieces)[k],
        first_occurrences(pieces.take(first)) == first_occurrences(pieces).take(k),
    ensures
        first <= i,
{
    if i < first {
        let distinct = first_occurrences(pieces);
        lemma_first_occurrences(pieces);
        lemma_first_occurrences(pieces.take(first));
        assert(pieces.take(first)[i] == pieces[i]);
        assert(distinct.take(k).contains(pieces[i]));
        let j = choose|j: int| 0 <= j < k && distinct.take(k)[j] == pieces[i];
        assert(distinct[j] == distinct[k]);
    }
}

/// Gives each different piece an ID, from 1 on, and returns the vocabulary and the ID of each
/// piece in order.
pub fn assign_ids(pieces: &Vec<String>) -> (r: (Vec<String>, Vec<u32>))
    requires
        first_occurrences(contents(pieces@)).len() < u32::MAX,
    ensures
        is_numbering(contents(pieces@), contents(r.0@), r.1@),
{
    let ghost all = contents(pieces@);
    let mut vocab: Vec<String> = Vec::new();
    vocab.push(END_OF_TEXT.to_owned());
    let mut order: Vec<u32> = Vec::new();
    let mut i: usize = 0;
    assert(contents(vocab@) =~= seq![END_OF_TEXT@] + first_occurrences(all.take(0)));
    while i < pieces.len()
        invariant
            i <= pieces@.len(),
            all == contents(pieces@),
            first_occurrences(all).len() < u32::MAX,
            is_numbering(all.take(i as int), contents(vocab@), order@),
        decreases pieces@.len() - i,
    {
        let ghost known = contents(vocab@);
        let ghost distinct = first_occurrences(all.take(i as int));
        let ghost piece = pieces@[i as int]@;
        proof {
            assert(all.take(i + 1).drop_last() =~= all.take(i as int));
            lemma_first_occurrences(all.take(i as int));
            assert(all.take(i + 1).last() == piece);
            lemma_occurrences_grow(all, i + 1);
            assert(known.len() == vocab@.len());
            assert(known.len() == distinct.len() + 1);
            assert(forall|j: int| 0 <= j < distinct.len() ==> distinct[j] == known[j + 1]);
        }
        let mut k: usize = 1;
        while k < vocab.len() && !(vocab[k] == pieces[i])
            invariant
                1 <= k <= vocab@.len() == known.len(),
                known == contents(vocab@),
                i < pieces@.len(),
                piece == pieces@[i as int]@,
                forall|j: int| 1 <= j < k ==> known[j] != piece,
            decreases vocab@.len() - k,
        {
            k = k + 1;
        }
        if k == vocab.len() {
            vocab.push(pieces[i].clone());
            proof {
                assert(!distinct.contains(piece)) by {
                    assert forall|j: int| 0 <= j < distinct.len() implies distinct[j] != piece by {
                        assert(known[j + 1] == distinct[j]);
                    }
                }
                assert(contents(vocab@) =~= known.push(piece));
                assert(contents(vocab@) =~= seq![END_OF_TEXT@] + distinct.push(piece));
            }
        } else {
            proof {
                assert(distinct[k - 1] == known[k as int]);
                assert(distinct.contains(piece));
            }
        }
        let ghost before = order@;
        order.push(k as u32);
        proof {
            let now = contents(vocab@);
            assert forall|j: int| 0 <= j < i + 1 implies 1 <= (#[trigger] order@[j]) < now.len()
                && now[order@[j] as int] == all.take(i + 1)[j] by {
                if j < i {
                    assert(order@[j] == before[j]);
                    assert(all.take(i as int)[j] == all.take(i + 1)[j]);
                    assert(now[before[j] as int] == known[before[j] as int]);
                }
            }
        }
        i = i + 1;
    }
    assert(all.take(i as int) =~= all);
    (vocab, order)
}

/// Repeats a list of token IDs until there are `n`.
pub fn repeat_to(order: &Vec<u32>, n: usize) -> (stream: Vec<u32>)
    requires
        n > 0 ==> order@.len() > 0,
    ensures
        stream@.len() == n,
        repeats(stream@, order@),
        forall|i: int| 0 <= i < n ==> #[trigger] stream@[i] == order@[i % order@.len() as int],
{
    let mut stream: Vec<u32> = Vec::new();
    let mut i: usize = 0;
    while i < n
        invariant
            i <= n,
            n > 0 ==> order@.len() > 0,
            stream@.len() == i,
            repeats(stream@, order@),
        decreases n - i,
    {
        stream.push(order[i % order.len()]);
        i = i + 1;
    }
    stream
}

/// The first `n` token IDs of a list, or all of them if there are fewer.
pub fn first_ids(order: &Vec<u32>, n: usize) -> (prompt: Vec<u32>)
    ensures
        prompt@ == take_up_to(order@, n as int),
        prompt@.is_prefix_of(order@),
        prompt@.len() == n || (prompt@ == order@ && order@.len() < n),
{
    let mut prompt: Vec<u32> = order.clone();
    assert(prompt@ =~= order@);
    prompt.truncate(n);
    prompt
}

/// A tokenizer and what to stream with it.
pub struct Fixture {
    /// A tokenizer for the pieces of the sample.
    pub tokenizer: VocabTokenizer,
    /// The tokens that give left context.
    pub prompt: Vec<u32>,
    /// The tokens to stream.
    pub stream: Vec<u32>,
}

/// The pieces of a text, each spelled in the byte-level alphabet.
pub open spec fn spelled_pieces(text: Seq<char>) -> Seq<Seq<char>> {
    pieces_of(text).map_values(|piece: Seq<char>| spelling(encode_utf8(piece)))
}

/// The first `n` token IDs of a list, or all of them if there are fewer.
pub open spec fn take_up_to(order: Seq<u32>, n: int) -> Seq<u32> {
    order.take(
        if n <= order.len() {
            n
        } else {
            order.len() as int
        },
    )
}

/// Whether a stream goes through a list of token IDs again and again.
pub open spec fn repeats(stream: Seq<u32>, order: Seq<u32>) -> bool {
    forall|i: int| 0 <= i < stream.len() ==> #[trigger] stream[i] == order[i % order.len() as int]
}

/// Whether a fixture belongs to a text whose pieces have the IDs in `order`.
pub open spec fn is_fixture(fx: Fixture, text: Seq<char>, order: Seq<u32>) -> bool {
    &&& is_numbering(spelled_pieces(text), fx.tokenizer.vocab(), order)
    &&& fx.prompt@ == take_up_to(order, PROMPT_TOKENS as int)
    &&& fx.stream@.len() == STREAM_TOKENS
    &&& repeats(fx.stream@, order)
}

/// Builds a fixture from sample text: the vocabulary is that of its pieces, the prompt is its
/// beginning, and the stream repeats it.
pub fn build_fixture(sample: &str) -> (fx: Fixture)
    requires
        sample@.len() > 0,
        first_occurrences(spelled_pieces(sample@)).len() < u32::MAX,
    ensures
        exists|order: Seq<u32>| #[trigger] is_fixture(fx, sample@, order),
{
    let alphabet = byte_to_char();
    let raw = piece_strings(sample);
    proof {
        pieces_are_few(sample@);
        assert(contents(raw@).len() == raw@.len());
    }
    let mut spelled: Vec<String> = Vec::new();
    let mut i: usize = 0;
    while i < raw.len()
        invariant
            i <= raw@.len(),
            spelled@.len() == i,
            is_alphabet(&alphabet),
            forall|j: int|
                0 <= j < i ==> (#[trigger] spelled@[j])@ == spelling(encode_utf8(raw@[j]@)),
        decreases raw@.len() - i,
    {
        spelled.push(to_byte_level(raw[i].as_str(), &alphabet));
        i = i + 1;
    }
    proof {
        assert forall|j: int| 0 <= j < raw@.len() implies (#[trigger] contents(spelled@)[j])
            == spelled_pieces(sample@)[j] by {
            assert(contents(raw@)[j] == raw@[j]@);
        }
        assert(contents(spelled@) =~= spelled_pieces(sample@));
    }
    let (vocab, order) = assign_ids(&spelled);
    proof {
        lemma_first_occurrences(spelled_pieces(sample@));
        assert(contents(vocab@).len() == vocab@.len());
    }
    let stream = repeat_to(&order, STREAM_TOKENS);
    let prompt = first_ids(&order, PROMPT_TOKENS);
    let tokenizer = VocabTokenizer::new(vocab);
    let fx = Fixture { tokenizer, prompt, stream };
    assert(is_fixture(fx, sample@, order@));
    fx
}

/// Numbering the pieces of a text and decoding the numbers gives the text back.
pub proof fn numbering_decodes_to_text(
    tokenizer: &VocabTokenizer,
    text: Seq<char>,
    order: Seq<u32>,
    skip_special_tokens: bool,
)
    requires
        is_numbering(spelled_pieces(text), tokenizer.vocab(), order),
    ensures
        tokenizer.text(order, skip_special_tokens) == Some(text),
{
    let lookup = vocab_bytes(tokenizer.vocab(), skip_special_tokens);
    let pieces = pieces_of(text);
    assert forall|i: int| 0 <= i < pieces.len() implies lookup(#[trigger] order[i]) == Some(
        encode_utf8(pieces[i]),
    ) by {
        assert(spelled_pieces(text)[i] == spelling(encode_utf8(pieces[i])));
        spelling_round_trip(encode_utf8(pieces[i]));
    }
    lemma_numbered_bytes(pieces, order, lookup);
    pieces_concatenate_to_text(text);
    lossy_of_encoded(text);
}

proof fn lemma_numbered_bytes(
    pieces: Seq<Seq<char>>,
    order: Seq<u32>,
    lookup: spec_fn(u32) -> Option<Seq<u8>>,
)
    requires
        order.len() == pieces.len(),
        forall|i: int|
            0 <= i < pieces.len() ==> lookup(#[trigger] order[i]) == Some(encode_utf8(pieces[i])),
    ensures
        joined_bytes(order, lookup) == Some(encode_utf8(pieces.flatten())),
    decreases pieces.len(),
{
    if pieces.len() == 0 {
        assert(pieces.flatten() =~= seq![]);
    } else {
        let rest = pieces.drop_last();
        assert forall|i: int| 0 <= i < rest.len() implies lookup(
            #[trigger] order.drop_last()[i],
        ) == Some(encode_utf8(rest[i])) by {
            assert(order.drop_last()[i] == order[i]);
        }
        lemma_numbered_bytes(rest, order.drop_last(), lookup);
        pieces.lemma_flatten_and_flatten_alt_are_equivalent();
        rest.lemma_flatten_and_flatten_alt_are_equivalent();
        encode_concat(rest.flatten(), pieces.last());
        assert(lookup(order[order.len() - 1]) == Some(encode_utf8(pieces[pieces.len() - 1])));
    }
}

/// Whether every token of a sequence occurs in a numbering.
pub open spec fn all_numbered(token_ids: Seq<u32>, order: Seq<u32>) -> bool {
    forall|i: int| 0 <= i < token_ids.len() ==> order.contains(#[trigger] token_ids[i])
}

/// The tokens of a fixture are those of its sample.
pub proof fn fixture_tokens_are_numbered(fx: Fixture, text: Seq<char>, order: Seq<u32>)
    requires
        is_fixture(fx, text, order),
        text.len() > 0,
    ensures
        all_numbered(fx.prompt@, order),
        all_numbered(fx.stream@, order),
{
    pieces_are_few(text);
    assert forall|i: int| 0 <= i < fx.stream@.len() implies order.contains(
        #[trigger] fx.stream@[i],
    ) by {
        assert(0 <= i % order.len() as int && i % (order.len() as int) < order.len());
    }
}

/// A fixture goes through the pieces of its sample: the prompt is made of the first 64 of them,
/// or of all if they are fewer, and the stream of 2048, from the first on and again and again.
/// All of them, decoded, are the sample.
pub proof fn fixture_goes_through_its_sample(fx: Fixture, text: Seq<char>, order: Seq<u32>)
    requires
        is_fixture(fx, text, order),
    ensures
        order.len() == pieces_of(text).len(),
        fx.tokenizer.text(order, true) == Some(text),
        fx.tokenizer.text(order, false) == Some(text),
        fx.tokenizer.vocab().len() > 0,
        fx.tokenizer.vocab()[0] == "<|endoftext|>"@,
        fx.prompt@.is_prefix_of(order),
        fx.prompt@.len() == 64 || (fx.prompt@ == order && order.len() < 64),
        fx.stream@.len() == 2048,
        forall|i: int|
            0 <= i < 2048 ==> #[trigger] fx.stream@[i] == order[i % order.len() as int],
{
    numbering_decodes_to_text(&fx.tokenizer, text, order, true);
    numbering_decodes_to_text(&fx.tokenizer, text, order, false);
    ids_are_given_in_order(spelled_pieces(text), fx.tokenizer.vocab(), order);
    assert(order.take(order.len() as int) =~= order);
}

/// A piece is spelled by its UTF-8.
pub proof fn pieces_are_spelled_in_place(text: Seq<char>)
    ensures
        spelled_pieces(text).len() == pieces_of(text).len(),
        forall|i: int|
            0 <= i < pieces_of(text).len() ==> #[trigger] spelled_pieces(text)[i] == spelling(
                encode_utf8(pieces_of(text)[i]),
            ) && spelled_bytes(spelled_pieces(text)[i]) == encode_utf8(pieces_of(text)[i]),
{
    assert forall|i: int| 0 <= i < pieces_of(text).len() implies #[trigger] spelled_pieces(text)[i]
        == spelling(encode_utf8(pieces_of(text)[i])) && spelled_bytes(spelled_pieces(text)[i])
        == encode_utf8(pieces_of(text)[i]) by {
        spelling_round_trip(encode_utf8(pieces_of(text)[i]));
    }
}

/// The bytes of the pieces of a text, in any order and number, are valid UTF-8.
proof fn lemma_numbered_bytes_are_valid(
    tokenizer: &VocabTokenizer,
    text: Seq<char>,
    order: Seq<u32>,
    token_ids: Seq<u32>,
)
    requires
        is_numbering(spelled_pieces(text), tokenizer.vocab(), order),
        all_numbered(token_ids, order),
    ensures
        joined_bytes(token_ids, vocab_bytes(tokenizer.vocab(), true)) is Some,
        valid_utf8(joined_bytes(token_ids, vocab_bytes(tokenizer.vocab(), true))->0),
    decreases token_ids.len(),
{
    let lookup = vocab_bytes(tokenizer.vocab(), true);
    if token_ids.len() > 0 {
        let rest = token_ids.drop_last();
        assert forall|i: int| 0 <= i < rest.len() implies order.contains(#[trigger] rest[i]) by {
            assert(rest[i] == token_ids[i]);
        }
        lemma_numbered_bytes_are_valid(tokenizer, text, order, rest);
        assert(order.contains(token_ids[token_ids.len() - 1]));
        let j = choose|j: int| 0 <= j < order.len() && order[j] == token_ids.last();
        let bytes = encode_utf8(pieces_of(text)[j]);
        assert(spelled_pieces(text)[j] == spelling(bytes));
        spelling_round_trip(bytes);
        encode_utf8_valid_utf8(pieces_of(text)[j]);
        assert(lookup(token_ids.last()) == Some(bytes));
        valid_utf8_concat(joined_bytes(rest, lookup)->0, bytes);
    }
}

/// Whether a table holds the bytes of the first entries of a vocabulary.
pub open spec fn holds_vocab(memo: MemoDecoder, vocab: Seq<Seq<char>>) -> bool {
    forall|i: int|
        0 <= i < memo.table().len() ==> #[trigger] memo.table()[i] == (if i < vocab.len() {
            spelled_bytes(vocab[i])
        } else {
            seq![]
        })
}

/// On the tokens of a sample, streaming through an incremental decoder and table lookup give the
/// same text, and emit the same number of bytes.
pub proof fn both_ways_agree(
    tokenizer: &VocabTokenizer,
    memo: MemoDecoder,
    text: Seq<char>,
    order: Seq<u32>,
    prompt: Seq<u32>,
    stream: Seq<u32>,
)
    requires
        is_numbering(spelled_pieces(text), tokenizer.vocab(), order),
        all_numbered(prompt, order),
        all_numbered(stream, order),
        memo.covers(stream),
        holds_vocab(memo, tokenizer.vocab()),
    ensures
        stream_result(rendering(tokenizer, true), prompt, stream) == Some(
            lossy(memo.bytes_of(stream)),
        ),
        memo.bytes_of(stream) == joined_bytes(stream, vocab_bytes(tokenizer.vocab(), true))->0,
        encode_utf8(stream_result(rendering(tokenizer, true), prompt, stream)->0) == memo.bytes_of(
            stream,
        ),
        valid_prefix_len(memo.bytes_of(stream)) == memo.bytes_of(stream).len(),
{
    let render = rendering(tokenizer, true);
    let lookup = vocab_bytes(tokenizer.vocab(), true);
    vocab_decodes_bytewise(tokenizer, true);
    lemma_numbered_bytes_are_valid(tokenizer, text, order, prompt);
    lemma_numbered_bytes_are_valid(tokenizer, text, order, stream);
    assert forall|i: int| 0 <= i < stream.len() implies lookup(#[trigger] stream[i])
        == memo.token_bytes()(stream[i]) by {
        assert(order.contains(stream[i]));
        let j = choose|j: int| 0 <= j < order.len() && order[j] == stream[i];
        assert(order[j] >= 1);
        assert(memo.table()[stream[i] as int] == spelled_bytes(
            tokenizer.vocab()[stream[i] as int],
        ));
    }
    memo_agrees_with_stream(memo, render, lookup, false, prompt, stream, 0);
    same_bytes(stream, lookup, memo.token_bytes());
    valid_stream_is_emitted_whole(memo.bytes_of(stream));
}

/// The largest ID of a stream.
pub fn max_id(stream: &Vec<u32>) -> (max: u32)
    requires
        stream@.len() > 0,
    ensures
        stream@.contains(max),
        forall|i: int| 0 <= i < stream@.len() ==> #[trigger] stream@[i] <= max,
{
    let mut max: u32 = stream[0];
    let mut i: usize = 1;
    while i < stream.len()
        invariant
            1 <= i <= stream@.len(),
            stream@.contains(max),
            forall|j: int| 0 <= j < i ==> #[trigger] stream@[j] <= max,
        decreases stream@.len() - i,
    {
        if stream[i] > max {
            max = stream[i];
        }
        i = i + 1;
    }
    max
}

/// Streams a fixture in both ways and compares the texts. They are always equal: the text is
/// returned, and a difference, which would be `None`, never shows.
pub fn cross_check(fx: &Fixture) -> (r: Option<String>)
    requires
        exists|text: Seq<char>, order: Seq<u32>|
            text.len() > 0 && #[trigger] is_fixture(*fx, text, order),
    ensures
        r is Some,
        r->0@ == lossy(joined_bytes(fx.stream@, vocab_bytes(fx.tokenizer.vocab(), true))->0),
        Some(r->0@) == stream_result(rendering(&fx.tokenizer, true), fx.prompt@, fx.stream@),
        Some(r->0@) == fx.tokenizer.text(fx.stream@, true),
{
    let max: u32 = max_id(&fx.stream);
    let memo = MemoDecoder::new(&fx.tokenizer, max);
    let streamed = stream_text(&fx.tokenizer, fx.prompt.as_slice(), fx.stream.as_slice());
    let ghost vocab = fx.tokenizer.vocab();
    proof {
        let entries = choose|entries: Seq<Option<String>>|
            {
                &&& entries.len() == max + 1
                &&& forall|i: u32|
                    i <= max ==> call_ensures(
                        VocabTokenizer::id_to_token,
                        (&fx.tokenizer, i),
                        #[trigger] entries[i as int],
                    )
                &&& memo.table() == #[trigger] entries_bytes(entries)
            };
        assert forall|i: int| 0 <= i < memo.table().len() implies #[trigger] memo.table()[i] == (
        if i < vocab.len() {
            spelled_bytes(vocab[i])
        } else {
            seq![]
        }) by {
            let id = i as u32;
            assert(call_ensures(
                VocabTokenizer::id_to_token,
                (&fx.tokenizer, id),
                entries[id as int],
            ));
        }
        let (text, order) = choose|text: Seq<char>, order: Seq<u32>|
            text.len() > 0 && #[trigger] is_fixture(*fx, text, order);
        fixture_tokens_are_numbered(*fx, text, order);
        both_ways_agree(&fx.tokenizer, memo, text, order, fx.prompt@, fx.stream@);
    }
    let ideal = memo_text(&memo, fx.stream.as_slice());
    match streamed {
        Ok(text) => if text == ideal {
            Some(text)
        } else {
            None
        },
        Err(_) => None,
    }
}

} // verus!
