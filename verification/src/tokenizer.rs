use crate::error::Result;
use crate::incremental::{DecodeStream, IncrementalDecoder, StreamModel};
use crate::utf8::lossy;
use std::sync::Arc;
use vstd::prelude::*;

verus! {

/// The bytes of a token sequence, given those of each token; `None` if one of them has none.
pub open spec fn joined_bytes(
    token_ids: Seq<u32>,
    token_bytes: spec_fn(u32) -> Option<Seq<u8>>,
) -> Option<Seq<u8>>
    decreases token_ids.len(),
{
    if token_ids.len() == 0 {
        Some(seq![])
    } else {
        match (joined_bytes(token_ids.drop_last(), token_bytes), token_bytes(token_ids.last())) {
            (Some(head), Some(tail)) => Some(head + tail),
            _ => None,
        }
    }
}

/// Whether `render` decodes every token to the bytes that `token_bytes` gives it, wherever it
/// stands, and shows the bytes of the whole sequence as text.
pub open spec fn decodes_bytewise(
    render: spec_fn(Seq<u32>) -> Option<Seq<char>>,
    token_bytes: spec_fn(u32) -> Option<Seq<u8>>,
) -> bool {
    forall|token_ids: Seq<u32>| #[trigger]
        render(token_ids) == (match joined_bytes(token_ids, token_bytes) {
            Some(bytes) => Some(lossy(bytes)),
            None => None,
        })
}

/// Whether every token decodes to the same bytes regardless of the tokens around it.
pub open spec fn is_context_independent(render: spec_fn(Seq<u32>) -> Option<Seq<char>>) -> bool {
    exists|token_bytes: spec_fn(u32) -> Option<Seq<u8>>| decodes_bytewise(render, token_bytes)
}

/// How `detokenizer` renders token sequences: the text of each, or `None` where it fails.
pub open spec fn rendering<T: Detokenizer + ?Sized>(
    detokenizer: &T,
    skip_special_tokens: bool,
) -> spec_fn(Seq<u32>) -> Option<Seq<char>> {
    |token_ids: Seq<u32>| detokenizer.text(token_ids, skip_special_tokens)
}

/// The half of a tokenizer that turns tokens into text; all that a decode stream needs.
pub trait Detokenizer: Send + Sync {
    /// The text of a token sequence, or `None` if it cannot be decoded. An implementation that
    /// is verified says here what its `decode` returns; of one that leaves the default, which
    /// fixes nothing, no contract or law of this library claims anything.
    open spec fn text(&self, token_ids: Seq<u32>, skip_special_tokens: bool) -> Option<Seq<char>> {
        arbitrary()
    }

    /// Decode one token sequence into text.
    fn decode(&self, token_ids: &[u32], skip_special_tokens: bool) -> (r: Result<String>)
        ensures
            r is Ok <==> self.text(token_ids@, skip_special_tokens) is Some,
            r matches Ok(s) ==> self.text(token_ids@, skip_special_tokens) == Some(s@),
    ;
}

/// Text to token IDs and back.
pub trait Tokenizer: Detokenizer {
    /// The tokens of a text, or `None` if it cannot be encoded. An implementation that is
    /// verified says here what its `encode` returns; of one that leaves the default, which fixes
    /// nothing, no contract or law of this library claims anything.
    open spec fn tokens(&self, text: Seq<char>, add_special_tokens: bool) -> Option<Seq<u32>> {
        arbitrary()
    }

    /// The ID of a token string, or `None` if it is not in the vocabulary. An implementation
    /// that is verified says here what its `token_to_id` returns; of one that leaves the
    /// default, which fixes nothing, no contract or law of this library claims anything.
    open spec fn id_of(&self, token: Seq<char>) -> Option<u32> {
        arbitrary()
    }

    /// Encode one prompt string into token IDs.
    fn encode(&self, text: &str, add_special_tokens: bool) -> (r: Result<Vec<u32>>)
        ensures
            r is Ok <==> self.tokens(text@, add_special_tokens) is Some,
            r matches Ok(ids) ==> self.tokens(text@, add_special_tokens) == Some(ids@),
    ;

    /// Convert one token string into a token ID, returning `None` if the token is not in the
    /// tokenizer vocabulary.
    fn token_to_id(&self, token: &str) -> (r: Option<u32>)
        ensures
            r == self.id_of(token@),
    ;

    /// Convert one token ID into the tokenizer's raw token string. Tokenizers that keep no raw
    /// strings have none for any ID.
    fn id_to_token(&self, _id: u32) -> (r: Option<String>)
        default_ensures
            r is None,
    {
        None
    }

    /// Return the vocabulary size. Backends that cannot report it fall back to `usize::MAX`, an
    /// effectively unbounded value.
    fn vocab_size(&self) -> (r: usize)
        default_ensures
            r == usize::MAX,
    {
        usize::MAX
    }

    /// Return whether the given token ID is special.
    fn is_special_id(&self, _token_id: u32) -> (r: bool)
        default_ensures
            !r,
    {
        false
    }

    /// Whether `decode` is context-independent: every token decodes to the same bytes regardless
    /// of the surrounding tokens.
    ///
    /// This holds for byte-level tokenizers but not for context-dependent decoders, where a
    /// token's rendering depends on its position: a leading-space token decodes differently in
    /// isolation than mid-sequence. The incremental decoder only reuses a decoded suffix as the
    /// prefix seed when this is `true`; otherwise it decodes from the full prompt. Defaults to
    /// `false`, the safe choice.
    fn decode_is_context_independent(&self) -> (r: bool)
        ensures
            r ==> is_context_independent(rendering(self, true)),
            r ==> is_context_independent(rendering(self, false)),
        default_ensures
            !r,
    {
        false
    }

    /// Create a stateful incremental decoder primed with the given prompt tokens.
    ///
    /// The prompt tokens provide left context for the first generated token; the decoder does
    /// not re-emit prompt text. Whether it may slide its left context along is what
    /// `decode_is_context_independent` answers.
    fn create_decode_stream(
        &self,
        prompt_token_ids: &[u32],
        skip_special_tokens: bool,
        min_bytes_to_buffer: usize,
    ) -> (r: Box<dyn IncrementalDecoder + '_>)
        ensures
            exists|sliding: bool|
                {
                    &&& call_ensures(Self::decode_is_context_independent, (self,), sliding)
                    &&& sliding ==> is_context_independent(rendering(self, skip_special_tokens))
                    &&& r.model() == #[trigger] StreamModel::created(
                        rendering(self, skip_special_tokens),
                        sliding,
                        prompt_token_ids@,
                        min_bytes_to_buffer as nat,
                    )
                },
    {
        let sliding: bool = self.decode_is_context_independent();
        return Box::new(
            DecodeStream::new(
                self,
                sliding,
                prompt_token_ids,
                skip_special_tokens,
                min_bytes_to_buffer,
            ),
        );
    }
}

/// A tokenizer that is shared between threads and known only by what it can do.
pub type DynTokenizer = Arc<dyn Tokenizer>;

} // verus!
