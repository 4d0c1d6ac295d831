use crate::error::Result;
use crate::text::{
    chars_holding, chars_of, count_holding, fresh, fresh_chars, held_characters_are_the_fewest,
    string_of,
};
use crate::tokenizer::{rendering, Detokenizer};
use crate::utf8::{settles, REPLACEMENT};
use vstd::prelude::*;
use vstd::utf8::*;

verus! {

/// The state of an incremental decoder.
#[verifier::ext_equal]
pub struct StreamModel {
    /// The text of a token sequence, or `None` where it cannot be decoded.
    pub render: spec_fn(Seq<u32>) -> Option<Seq<char>>,
    /// Whether text that is certain needs no left context any more.
    pub sliding: bool,
    /// How many bytes of text are held back until the end.
    pub min_bytes: nat,
    /// The tokens that give left context: their text has been accounted for.
    pub context: Seq<u32>,
    /// The generated tokens whose text is not certain yet.
    pub pending: Seq<u32>,
    /// The generated text that has been handed out.
    pub sent: Seq<char>,
    /// The generated text that has not been handed out.
    pub unsent: Seq<char>,
}

/// Whether a rendering starts with a character that is surely there, so that the bytes under it
/// start with a character too.
pub open spec fn starts_clean(text: Option<Seq<char>>) -> bool {
    text is Some && text->0.len() > 0 && text->0[0] != REPLACEMENT
}

/// The shortest suffix of the prompt, among those that start at `k` or before, whose rendering
/// starts clean; the whole prompt if there is none.
pub open spec fn clean_suffix(
    render: spec_fn(Seq<u32>) -> Option<Seq<char>>,
    prompt: Seq<u32>,
    k: int,
) -> Seq<u32>
    decreases k,
{
    if k <= 0 {
        prompt
    } else if starts_clean(render(prompt.skip(k))) {
        prompt.skip(k)
    } else {
        clean_suffix(render, prompt, k - 1)
    }
}

/// What can be asked of an incremental decoder.
pub enum StreamStep {
    /// Take one more generated token.
    Push(u32),
    /// Hand out the text that has become ready.
    Chunk,
    /// End the stream.
    Flush,
}

impl StreamModel {
    /// A decoder before the first generated token. The prompt is its left context; where that
    /// makes no difference, a suffix of the prompt is enough, provided that the whole prompt can
    /// be decoded.
    pub open spec fn created(
        render: spec_fn(Seq<u32>) -> Option<Seq<char>>,
        sliding: bool,
        prompt: Seq<u32>,
        min_bytes: nat,
    ) -> StreamModel {
        StreamModel {
            render,
            sliding,
            min_bytes,
            context: if sliding && render(prompt) is Some {
                clean_suffix(render, prompt, prompt.len() as int)
            } else {
                prompt
            },
            pending: seq![],
            sent: seq![],
            unsent: seq![],
        }
    }

    /// All generated text so far that is certain.
    pub open spec fn full(self) -> Seq<char> {
        self.sent + self.unsent
    }

    /// The decoder after the text of all pending tokens has been accounted for: `new_text` is
    /// the rendering of the context and the pending tokens, `old_text` that of the context. Where
    /// the context slides, it is given up once the text cannot end inside a character.
    pub open spec fn accounted(self, old_text: Seq<char>, new_text: Seq<char>) -> StreamModel {
        StreamModel {
            context: if self.sliding && settles(new_text) {
                seq![]
            } else {
                self.context + self.pending
            },
            pending: seq![],
            unsent: self.unsent + fresh(old_text, new_text),
            ..self
        }
    }

    /// The decoder after one more generated token, or `None` if that cannot be decoded. Text
    /// that may end inside a character waits for the next token.
    pub open spec fn pushed(self, token_id: u32) -> Option<StreamModel> {
        let next = StreamModel { pending: self.pending.push(token_id), ..self };
        match ((self.render)(self.context), (self.render)(self.context + next.pending)) {
            (Some(old_text), Some(new_text)) => Some(
                if settles(new_text) {
                    next.accounted(old_text, new_text)
                } else {
                    next
                },
            ),
            _ => None,
        }
    }

    /// The decoder after the given generated tokens, in order, or `None` if one of them cannot
    /// be decoded.
    pub open spec fn pushed_all(self, token_ids: Seq<u32>) -> Option<StreamModel>
        decreases token_ids.len(),
    {
        if token_ids.len() == 0 {
            Some(self)
        } else {
            match self.pushed_all(token_ids.drop_last()) {
                Some(m) => m.pushed(token_ids.last()),
                None => None,
            }
        }
    }

    /// The text that can be handed out now: all but what is held back.
    pub open spec fn chunk(self) -> Seq<char> {
        self.unsent.take(self.unsent.len() - chars_holding(self.unsent, self.min_bytes))
    }

    /// The decoder after its chunk has been handed out.
    pub open spec fn chunked(self) -> StreamModel {
        let n = self.unsent.len() - chars_holding(self.unsent, self.min_bytes);
        StreamModel {
            sent: self.sent + self.unsent.take(n),
            unsent: self.unsent.skip(n),
            ..self
        }
    }

    /// The decoder after the end of the generated tokens: all text has been handed out, also
    /// what is incomplete. `None` if it cannot be decoded.
    pub open spec fn flushed(self) -> Option<StreamModel> {
        match ((self.render)(self.context), (self.render)(self.context + self.pending)) {
            (Some(old_text), Some(new_text)) => {
                let m = self.accounted(old_text, new_text);
                Some(StreamModel { sent: m.full(), unsent: seq![], ..m })
            },
            _ => None,
        }
    }
}

impl StreamModel {
    /// The decoder after one step; a step that fails leaves it as it was.
    pub open spec fn stepped(self, step: StreamStep) -> StreamModel {
        match step {
            StreamStep::Push(token_id) => match self.pushed(token_id) {
                Some(m) => m,
                None => self,
            },
            StreamStep::Chunk => self.chunked(),
            StreamStep::Flush => match self.flushed() {
                Some(m) => m,
                None => self,
            },
        }
    }

    /// The decoder after the given steps, in order.
    pub open spec fn after(self, steps: Seq<StreamStep>) -> StreamModel
        decreases steps.len(),
    {
        if steps.len() == 0 {
            self
        } else {
            self.after(steps.drop_last()).stepped(steps.last())
        }
    }
}

/// Whether two decoders answer every next step alike: they take the same tokens, hand out the
/// same chunk and end with the same text.
pub open spec fn answer_alike(a: StreamModel, b: StreamModel) -> bool {
    &&& forall|token_id: u32|
        (#[trigger] a.pushed(token_id)) is Some <==> b.pushed(token_id) is Some
    &&& a.chunk() == b.chunk()
    &&& a.flushed() is Some <==> b.flushed() is Some
    &&& a.flushed() is Some ==> a.flushed()->0.sent == b.flushed()->0.sent
    &&& a.sent == b.sent
    &&& a.unsent == b.unsent
}

/// A decoder starts with the settings it is created with, with no token and with no text. Unless
/// its context slides, and on a prompt that cannot be decoded, the context is all of the prompt.
pub proof fn creation_keeps_its_arguments(
    render: spec_fn(Seq<u32>) -> Option<Seq<char>>,
    sliding: bool,
    prompt: Seq<u32>,
    min_bytes: nat,
)
    ensures
        ({
            let m = StreamModel::created(render, sliding, prompt, min_bytes);
            &&& m.render == render
            &&& m.sliding == sliding
            &&& m.min_bytes == min_bytes
            &&& m.pending == Seq::<u32>::empty()
            &&& m.sent == Seq::<char>::empty()
            &&& m.unsent == Seq::<char>::empty()
            &&& !sliding || render(prompt) is None ==> m.context == prompt
        }),
{
}

proof fn lemma_clean_suffix_is_shortest(
    render: spec_fn(Seq<u32>) -> Option<Seq<char>>,
    prompt: Seq<u32>,
    k: int,
)
    requires
        0 <= k <= prompt.len(),
    ensures
        ({
            let suffix = clean_suffix(render, prompt, k);
            let from = prompt.len() - suffix.len();
            &&& 0 <= from <= k
            &&& suffix == prompt.skip(from)
            &&& from > 0 ==> starts_clean(render(suffix))
            &&& forall|j: int| from < j <= k ==> !starts_clean(render(#[trigger] prompt.skip(j)))
        }),
    decreases k,
{
    if k <= 0 {
        assert(prompt.skip(0) =~= prompt);
    } else if !starts_clean(render(prompt.skip(k))) {
        lemma_clean_suffix_is_shortest(render, prompt, k - 1);
    }
}

/// A context that slides starts as the shortest suffix of the prompt whose text begins with a
/// character other than the replacement character, or as all of the prompt.
pub proof fn sliding_context_starts_at_a_character(
    render: spec_fn(Seq<u32>) -> Option<Seq<char>>,
    prompt: Seq<u32>,
    min_bytes: nat,
)
    requires
        render(prompt) is Some,
    ensures
        ({
            let context = StreamModel::created(render, true, prompt, min_bytes).context;
            let from = prompt.len() - context.len();
            &&& from >= 0
            &&& context == prompt.skip(from)
            &&& from > 0 ==> render(context) is Some && render(context)->0.len() > 0 && render(
                context,
            )->0[0] != '\u{FFFD}'
            &&& forall|j: int|
                from < j <= prompt.len() && render(#[trigger] prompt.skip(j)) is Some && render(
                    prompt.skip(j),
                )->0.len() > 0 ==> render(prompt.skip(j))->0[0] == '\u{FFFD}'
        }),
{
    lemma_clean_suffix_is_shortest(render, prompt, prompt.len() as int);
}

/// A token is taken exactly if both the context and the context with all tokens that wait can be
/// decoded. If the text then does not end in a replacement character, nothing waits any more and
/// what is new has been added; else the token waits and no text is added.
pub proof fn settled_text_does_not_wait(m: StreamModel, token_id: u32)
    ensures
        ({
            let window = m.context + m.pending.push(token_id);
            let old_text = (m.render)(m.context);
            let new_text = (m.render)(window);
            let next = m.pushed(token_id);
            &&& next is Some <==> old_text is Some && new_text is Some
            &&& next is Some ==> {
                &&& next->0.render == m.render
                &&& next->0.sliding == m.sliding
                &&& next->0.min_bytes == m.min_bytes
                &&& next->0.sent == m.sent
            }
            &&& next is Some && (new_text->0.len() == 0 || new_text->0.last() != '\u{FFFD}') ==> {
                &&& next->0.pending.len() == 0
                &&& next->0.context == (if m.sliding {
                    seq![]
                } else {
                    window
                })
                &&& next->0.unsent == m.unsent + fresh(old_text->0, new_text->0)
            }
            &&& next is Some && new_text->0.len() > 0 && new_text->0.last() == '\u{FFFD}' ==> {
                &&& next->0.pending == m.pending.push(token_id)
                &&& next->0.context == m.context
                &&& next->0.unsent == m.unsent
            }
        }),
{
}

/// A chunk is taken from the front of the text that is ready. What stays behind takes at least
/// the asked number of bytes if anything is handed out, and would take fewer without its first
/// character; nothing else changes.
pub proof fn chunk_leaves_the_buffer_full(m: StreamModel)
    ensures
        m.chunk() + m.chunked().unsent == m.unsent,
        m.chunked().sent == m.sent + m.chunk(),
        m.chunk().len() > 0 ==> encode_utf8(m.chunked().unsent).len() >= m.min_bytes,
        m.chunked().unsent.len() > 0 ==> encode_utf8(m.chunked().unsent.skip(1)).len()
            < m.min_bytes,
        m.chunked().render == m.render,
        m.chunked().sliding == m.sliding,
        m.chunked().min_bytes == m.min_bytes,
        m.chunked().context == m.context,
        m.chunked().pending == m.pending,
{
    held_characters_are_the_fewest(m.unsent, m.min_bytes);
    let n = m.unsent.len() - chars_holding(m.unsent, m.min_bytes);
    assert(m.unsent.take(n) + m.unsent.skip(n) =~= m.unsent);
    if n < m.unsent.len() {
        assert(m.unsent.skip(n).skip(1) =~= m.unsent.skip(n + 1));
    }
}

/// The end comes exactly if both the context and the context with all tokens that wait can be
/// decoded. Then nothing waits and nothing is held back: all text that was ready and all that
/// the waiting tokens add, complete or not, has been handed out.
pub proof fn flush_hands_out_everything(m: StreamModel)
    ensures
        ({
            let old_text = (m.render)(m.context);
            let new_text = (m.render)(m.context + m.pending);
            let end = m.flushed();
            &&& end is Some <==> old_text is Some && new_text is Some
            &&& end is Some ==> {
                &&& end->0.sent == m.sent + m.unsent + fresh(old_text->0, new_text->0)
                &&& end->0.unsent.len() == 0
                &&& end->0.pending.len() == 0
                &&& end->0.render == m.render
                &&& end->0.sliding == m.sliding
                &&& end->0.min_bytes == m.min_bytes
            }
            &&& end is Some ==> end->0.context == (if m.sliding && (new_text->0.len() == 0
                || new_text->0.last() != '\u{FFFD}') {
                seq![]
            } else {
                m.context + m.pending
            })
        }),
{
    if let (Some(old_text), Some(new_text)) = (
        (m.render)(m.context),
        (m.render)(m.context + m.pending),
    ) {
        let more = fresh(old_text, new_text);
        assert(m.sent + (m.unsent + more) =~= m.sent + m.unsent + more);
    }
}

/// Steps are taken one after the other, and one that fails changes nothing.
pub proof fn steps_follow_one_another(m: StreamModel, steps: Seq<StreamStep>, token_id: u32)
    ensures
        m.after(Seq::empty()) == m,
        m.after(steps.push(StreamStep::Push(token_id))) == (match m.after(steps).pushed(token_id) {
            Some(next) => next,
            None => m.after(steps),
        }),
        m.after(steps.push(StreamStep::Chunk)) == m.after(steps).chunked(),
        m.after(steps.push(StreamStep::Flush)) == (match m.after(steps).flushed() {
            Some(next) => next,
            None => m.after(steps),
        }),
{
    assert(steps.push(StreamStep::Push(token_id)).drop_last() =~= steps);
    assert(steps.push(StreamStep::Chunk).drop_last() =~= steps);
    assert(steps.push(StreamStep::Flush).drop_last() =~= steps);
}

/// Pushing tokens one after the other: none fails, or the whole does.
pub proof fn tokens_follow_one_another(m: StreamModel, token_ids: Seq<u32>, token_id: u32)
    ensures
        m.pushed_all(Seq::empty()) == Some(m),
        m.pushed_all(token_ids.push(token_id)) == (match m.pushed_all(token_ids) {
            Some(next) => next.pushed(token_id),
            None => None,
        }),
{
    assert(token_ids.push(token_id).drop_last() =~= token_ids);
}

/// Text from tokens, one token at a time.
pub trait IncrementalDecoder {
    /// The state of the decoder. An implementation that is verified says here what it stands
    /// for; of one that leaves the default, which fixes nothing, no contract or law of this
    /// library claims anything.
    open spec fn model(&self) -> StreamModel {
        arbitrary()
    }

    /// Take one more generated token. On an error the decoder stays as it was.
    fn push_token(&mut self, token_id: u32) -> (r: Result<()>)
        ensures
            match old(self).model().pushed(token_id) {
                Some(m) => r is Ok && final(self).model() == m,
                None => r is Err && final(self).model() == old(self).model(),
            },
    ;

    /// Hand out the text that has become ready, or `None` if there is none.
    fn next_chunk(&mut self) -> (r: Option<String>)
        ensures
            r is Some <==> old(self).model().chunk().len() > 0,
            r matches Some(s) ==> s@ == old(self).model().chunk(),
            final(self).model() == old(self).model().chunked(),
    ;

    /// End the stream: hand out the text that is left, if any, and the full generated text. On
    /// an error the decoder stays as it was.
    fn flush(&mut self) -> (r: Result<(Option<String>, String)>)
        ensures
            match old(self).model().flushed() {
                Some(m) => {
                    let last = m.sent.skip(old(self).model().sent.len() as int);
                    &&& final(self).model() == m
                    &&& r is Ok
                    &&& r->Ok_0.0 is Some <==> last.len() > 0
                    &&& r->Ok_0.0 matches Some(s) ==> s@ == last
                    &&& r->Ok_0.1@ == m.sent
                },
                None => r is Err && final(self).model() == old(self).model(),
            },
    ;
}

/// The incremental decoder for any detokenizer: each token is decoded together with its left
/// context, once without the new tokens and once with them.
pub struct DecodeStream<'a, T: Detokenizer + ?Sized> {
    detokenizer: &'a T,
    skip_special_tokens: bool,
    sliding: bool,
    min_bytes_to_buffer: usize,
    context: Vec<u32>,
    pending: Vec<u32>,
    sent: Vec<char>,
    unsent: Vec<char>,
}

/// Puts two lists of token IDs one after the other.
fn joined(a: &Vec<u32>, b: &Vec<u32>) -> (r: Vec<u32>)
    ensures
        r@ == a@ + b@,
{
    let mut r: Vec<u32> = a.clone();
    let mut tail: Vec<u32> = b.clone();
    assert(r@ =~= a@);
    assert(tail@ =~= b@);
    r.append(&mut tail);
    r
}

impl<'a, T: Detokenizer + ?Sized> DecodeStream<'a, T> {
    /// Creates a decoder that is primed with a prompt. With `sliding`, text that is certain is
    /// decoded without its left context from then on: right where decoding is
    /// context-independent.
    pub fn new(
        detokenizer: &'a T,
        sliding: bool,
        prompt_token_ids: &[u32],
        skip_special_tokens: bool,
        min_bytes_to_buffer: usize,
    ) -> (r: Self)
        ensures
            r.model() == StreamModel::created(
                rendering(detokenizer, skip_special_tokens),
                sliding,
                prompt_token_ids@,
                min_bytes_to_buffer as nat,
            ),
    {
        let ghost render = rendering(detokenizer, skip_special_tokens);
        let ghost prompt = prompt_token_ids@;
        let mut context: Vec<u32> = vstd::slice::slice_to_vec(prompt_token_ids);
        if sliding && detokenizer.decode(prompt_token_ids, skip_special_tokens).is_ok() {
            let mut k: usize = prompt_token_ids.len();
            while k > 0
                invariant_except_break
                    context@ == prompt,
                invariant
                    k <= prompt.len(),
                    prompt == prompt_token_ids@,
                    render == rendering(detokenizer, skip_special_tokens),
                    clean_suffix(render, prompt, prompt.len() as int) == clean_suffix(
                        render,
                        prompt,
                        k as int,
                    ),
                ensures
                    context@ == clean_suffix(render, prompt, prompt.len() as int),
                decreases k,
            {
                let suffix = vstd::slice::slice_subrange(
                    prompt_token_ids,
                    k,
                    prompt_token_ids.len(),
                );
                assert(suffix@ =~= prompt.skip(k as int));
                if let Ok(text) = detokenizer.decode(suffix, skip_special_tokens) {
                    let chars = chars_of(text.as_str());
                    if chars.len() > 0 && chars[0] != REPLACEMENT {
                        context = vstd::slice::slice_to_vec(suffix);
                        break;
                    }
                }
                k = k - 1;
            }
        }
        DecodeStream {
            detokenizer,
            skip_special_tokens,
            sliding,
            min_bytes_to_buffer,
            context,
            pending: Vec::new(),
            sent: Vec::new(),
            unsent: Vec::new(),
        }
    }

    /// Accounts for the text of all pending tokens.
    fn account(&mut self, old_text: &Vec<char>, new_text: &Vec<char>)
        ensures
            final(self).model() == old(self).model().accounted(old_text@, new_text@),
    {
        let mut more = fresh_chars(old_text, new_text);
        self.unsent.append(&mut more);
        let n: usize = new_text.len();
        if self.sliding && (n == 0 || new_text[n - 1] != REPLACEMENT) {
            self.context.clear();
            self.pending.clear();
        } else {
            self.context.append(&mut self.pending);
        }
    }
}

impl<'a, T: Detokenizer + ?Sized> IncrementalDecoder for DecodeStream<'a, T> {
    closed spec fn model(&self) -> StreamModel {
        StreamModel {
            render: rendering(self.detokenizer, self.skip_special_tokens),
            sliding: self.sliding,
            min_bytes: self.min_bytes_to_buffer as nat,
            context: self.context@,
            pending: self.pending@,
            sent: self.sent@,
            unsent: self.unsent@,
        }
    }

    fn push_token(&mut self, token_id: u32) -> (r: Result<()>) {
        let mut pending: Vec<u32> = self.pending.clone();
        assert(pending@ =~= self.pending@);
        pending.push(token_id);
        let window = joined(&self.context, &pending);
        let old_text = match self.detokenizer.decode(
            self.context.as_slice(),
            self.skip_special_tokens,
        ) {
            Ok(text) => text,
            Err(e) => {
                return Err(e);
            },
        };
        let new_text = match self.detokenizer.decode(window.as_slice(), self.skip_special_tokens) {
            Ok(text) => text,
            Err(e) => {
                return Err(e);
            },
        };
        self.pending = pending;
        let old_chars = chars_of(old_text.as_str());
        let new_chars = chars_of(new_text.as_str());
        let n: usize = new_chars.len();
        if n == 0 || new_chars[n - 1] != REPLACEMENT {
            self.account(&old_chars, &new_chars);
        }
        Ok(())
    }

    fn next_chunk(&mut self) -> (r: Option<String>) {
        let held: usize = count_holding(&self.unsent, self.min_bytes_to_buffer);
        let n: usize = self.unsent.len() - held;
        let rest = self.unsent.split_off(n);
        let chunk = string_of(&self.unsent, 0, n);
        assert(chunk@ =~= old(self).model().chunk());
        self.sent.append(&mut self.unsent);
        self.unsent = rest;
        assert(self.unsent@ =~= old(self).unsent@.skip(n as int));
        assert(self.model() =~= old(self).model().chunked());
        if n == 0 {
            None
        } else {
            Some(chunk)
        }
    }

    fn flush(&mut self) -> (r: Result<(Option<String>, String)>) {
        let window = joined(&self.context, &self.pending);
        let old_text = match self.detokenizer.decode(
            self.context.as_slice(),
            self.skip_special_tokens,
        ) {
            Ok(text) => text,
            Err(e) => {
                return Err(e);
            },
        };
        let new_text = match self.detokenizer.decode(window.as_slice(), self.skip_special_tokens) {
            Ok(text) => text,
            Err(e) => {
                return Err(e);
            },
        };
        let from: usize = self.sent.len();
        self.account(&chars_of(old_text.as_str()), &chars_of(new_text.as_str()));
        self.sent.append(&mut self.unsent);
        let to: usize = self.sent.len();
        let full = string_of(&self.sent, 0, to);
        let last = string_of(&self.sent, from, to);
        assert(full@ =~= self.sent@);
        assert(last@ =~= self.sent@.skip(from as int));
        assert(self.model() =~= old(self).model().flushed()->0);
        if from == to {
            Ok((None, full))
        } else {
            Ok((Some(last), full))
        }
    }
}

} // verus!
