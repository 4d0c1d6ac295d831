//! Whole streams: what the pieces of an incremental decoder add up to.
use crate::error::Result;
use crate::incremental::{
    answer_alike, chunk_leaves_the_buffer_full, clean_suffix, starts_clean, IncrementalDecoder,
    StreamModel, StreamStep,
};
use crate::text::{
    chars_holding, chars_holding_bound, common_prefix_is, fresh, fresh_after_shared,
    fresh_begins_at_the_first_difference, fresh_of_extension, fresh_then_more,
    held_characters_are_the_fewest,
};
use crate::tokenizer::{
    decodes_bytewise, is_context_independent, joined_bytes, rendering, Detokenizer, Tokenizer,
};
use crate::utf8::{
    ends_whole, lossy, lossy_grows, lossy_splits_at_boundary, lossy_splits_when_settled,
    lossy_splits_when_whole, settles,
};
use vstd::prelude::*;
use vstd::utf8::*;

verus! {

/// The text of the generated tokens in the light of a prompt: what decoding the prompt and the
/// generated tokens together shows and decoding the prompt alone does not.
pub open spec fn generated_text(
    render: spec_fn(Seq<u32>) -> Option<Seq<char>>,
    prompt: Seq<u32>,
    generated: Seq<u32>,
) -> Seq<char> {
    fresh(render(prompt)->0, render(prompt + generated)->0)
}

/// All text that a stream hands out for the given tokens, its end included, or `None` if it
/// fails.
pub open spec fn streamed_text(
    render: spec_fn(Seq<u32>) -> Option<Seq<char>>,
    sliding: bool,
    prompt: Seq<u32>,
    generated: Seq<u32>,
    min_bytes: nat,
) -> Option<Seq<char>> {
    match StreamModel::created(render, sliding, prompt, min_bytes).pushed_all(generated) {
        Some(m) => match m.flushed() {
            Some(end) => Some(end.sent),
            None => None,
        },
        None => None,
    }
}

/// The bytes of two token sequences, one after the other.
pub proof fn joined_bytes_concat(
    a: Seq<u32>,
    b: Seq<u32>,
    token_bytes: spec_fn(u32) -> Option<Seq<u8>>,
)
    ensures
        joined_bytes(a + b, token_bytes) == (match (
            joined_bytes(a, token_bytes),
            joined_bytes(b, token_bytes),
        ) {
            (Some(x), Some(y)) => Some(x + y),
            _ => None,
        }),
    decreases b.len(),
{
    if b.len() == 0 {
        assert(a + b =~= a);
        if let Some(x) = joined_bytes(a, token_bytes) {
            assert(x + seq![] =~= x);
        }
    } else {
        assert((a + b).drop_last() =~= a + b.drop_last());
        joined_bytes_concat(a, b.drop_last(), token_bytes);
        if let (Some(x), Some(y), Some(z)) = (
            joined_bytes(a, token_bytes),
            joined_bytes(b.drop_last(), token_bytes),
            token_bytes(b.last()),
        ) {
            assert((x + y) + z =~= x + (y + z));
        }
    }
}

/// What ties a running stream to the bytes behind it: `done` are the bytes whose text has been
/// accounted for, prompt included, and `gone` is the part of their text that the context no
/// longer shows.
spec fn in_step(
    m: StreamModel,
    token_bytes: spec_fn(u32) -> Option<Seq<u8>>,
    prompt_text: Seq<char>,
    done: Seq<u8>,
    gone: Seq<char>,
) -> bool {
    &&& joined_bytes(m.context, token_bytes) is Some
    &&& forall|more: Seq<u8>|
        lossy(#[trigger] (done + more)) == gone + lossy(
            joined_bytes(m.context, token_bytes)->0 + more,
        )
    &&& m.full() == fresh(prompt_text, lossy(done))
    &&& prompt_text.len() <= lossy(done).len()
    &&& lossy(done) == prompt_text || settles(lossy(done))
}

/// The suffix of a prompt that primes a stream shows the end of the prompt's text, and goes on
/// to do so when tokens follow.
proof fn lemma_clean_suffix(
    render: spec_fn(Seq<u32>) -> Option<Seq<char>>,
    token_bytes: spec_fn(u32) -> Option<Seq<u8>>,
    prompt: Seq<u32>,
    k: int,
) -> (gone: Seq<char>)
    requires
        decodes_bytewise(render, token_bytes),
        joined_bytes(prompt, token_bytes) is Some,
        0 <= k <= prompt.len(),
    ensures
        joined_bytes(clean_suffix(render, prompt, k), token_bytes) is Some,
        forall|more: Seq<u8>|
            lossy(#[trigger] (joined_bytes(prompt, token_bytes)->0 + more)) == gone + lossy(
                joined_bytes(clean_suffix(render, prompt, k), token_bytes)->0 + more,
            ),
    decreases k,
{
    if k <= 0 {
        assert forall|more: Seq<u8>|
            lossy(#[trigger] (joined_bytes(prompt, token_bytes)->0 + more)) == seq![] + lossy(
                joined_bytes(prompt, token_bytes)->0 + more,
            ) by {
            let text = lossy(joined_bytes(prompt, token_bytes)->0 + more);
            assert(seq![] + text =~= text);
        }
        seq![]
    } else if starts_clean(render(prompt.skip(k))) {
        let head = prompt.take(k);
        let tail = prompt.skip(k);
        joined_bytes_concat(head, tail, token_bytes);
        assert(head + tail =~= prompt);
        let x = joined_bytes(head, token_bytes)->0;
        let y = joined_bytes(tail, token_bytes)->0;
        assert(y.len() > 0 && valid_first_scalar(y));
        assert forall|more: Seq<u8>|
            lossy(#[trigger] (joined_bytes(prompt, token_bytes)->0 + more)) == lossy(x) + lossy(
                y + more,
            ) by {
            assert((y + more)[0] == y[0]);
            lossy_splits_at_boundary(x, y + more);
            assert(x + (y + more) =~= joined_bytes(prompt, token_bytes)->0 + more);
        }
        lossy(x)
    } else {
        lemma_clean_suffix(render, token_bytes, prompt, k - 1)
    }
}

/// Accounting for pending tokens adds their text.
proof fn lemma_account(
    m: StreamModel,
    token_bytes: spec_fn(u32) -> Option<Seq<u8>>,
    prompt_text: Seq<char>,
    done: Seq<u8>,
    gone: Seq<char>,
    more: Seq<u8>,
)
    requires
        in_step(m, token_bytes, prompt_text, done, gone),
    ensures
        ({
            let old_bytes = joined_bytes(m.context, token_bytes)->0;
            &&& m.full() + fresh(lossy(old_bytes), lossy(old_bytes + more)) == fresh(
                prompt_text,
                lossy(done + more),
            )
            &&& lossy(done) == gone + lossy(old_bytes)
            &&& lossy(done + more) == gone + lossy(old_bytes + more)
            &&& prompt_text.len() <= lossy(done + more).len()
        }),
{
    let old_bytes = joined_bytes(m.context, token_bytes)->0;
    let old_text = lossy(old_bytes);
    let new_text = lossy(old_bytes + more);
    assert(done + Seq::<u8>::empty() =~= done);
    assert(old_bytes + Seq::<u8>::empty() =~= old_bytes);
    assert(lossy(done + Seq::<u8>::empty()) == gone + lossy(old_bytes + Seq::<u8>::empty()));
    assert(lossy(done + more) == gone + new_text);
    lossy_grows(done, more);
    if lossy(done) == prompt_text {
        fresh_after_shared(gone, old_text, new_text);
        common_prefix_is(prompt_text, prompt_text, prompt_text.len() as int);
        assert(m.full() =~= seq![]);
        assert(m.full() + fresh(old_text, new_text) =~= fresh(old_text, new_text));
    } else {
        lossy_splits_when_settled(done, more);
        let added = lossy(more);
        assert(gone + new_text =~= (gone + old_text) + added);
        assert(new_text =~= old_text + added) by {
            assert forall|i: int| 0 <= i < new_text.len() implies #[trigger] new_text[i] == (
            old_text + added)[i] by {
                assert((gone + new_text)[gone.len() + i] == ((gone + old_text) + added)[gone.len()
                    + i]);
            }
        }
        fresh_of_extension(old_text, added);
        fresh_then_more(prompt_text, lossy(done), added);
    }
}

/// Accounting for pending tokens whose text settles leaves a stream in step.
proof fn lemma_settle(
    m: StreamModel,
    token_bytes: spec_fn(u32) -> Option<Seq<u8>>,
    prompt_text: Seq<char>,
    done: Seq<u8>,
    gone: Seq<char>,
) -> (now_gone: Seq<char>)
    requires
        in_step(m, token_bytes, prompt_text, done, gone),
        joined_bytes(m.pending, token_bytes) is Some,
        settles(
            lossy(
                joined_bytes(m.context, token_bytes)->0 + joined_bytes(m.pending, token_bytes)->0,
            ),
        ),
    ensures
        ({
            let old_bytes = joined_bytes(m.context, token_bytes)->0;
            let more = joined_bytes(m.pending, token_bytes)->0;
            in_step(
                m.accounted(lossy(old_bytes), lossy(old_bytes + more)),
                token_bytes,
                prompt_text,
                done + more,
                now_gone,
            )
        }),
{
    let old_bytes = joined_bytes(m.context, token_bytes)->0;
    let more = joined_bytes(m.pending, token_bytes)->0;
    let old_text = lossy(old_bytes);
    let new_text = lossy(old_bytes + more);
    let next = m.accounted(old_text, new_text);
    lemma_account(m, token_bytes, prompt_text, done, gone, more);
    assert(next.full() =~= m.full() + fresh(old_text, new_text));
    joined_bytes_concat(m.context, m.pending, token_bytes);
    if new_text.len() == 0 {
        assert(old_bytes.len() == 0 && more.len() == 0);
        assert(done + more =~= done);
        assert(old_bytes =~= Seq::<u8>::empty());
        assert(old_bytes + more =~= old_bytes);
        assert(joined_bytes(next.context, token_bytes)->0 =~= old_bytes);
        gone
    } else {
        assert(lossy(done + more).last() == new_text.last());
        if m.sliding {
            assert(joined_bytes(next.context, token_bytes)->0 =~= Seq::<u8>::empty());
            assert forall|y: Seq<u8>|
                lossy(#[trigger] (done + more + y)) == lossy(done + more) + lossy(
                    Seq::<u8>::empty() + y,
                ) by {
                lossy_splits_when_settled(done + more, y);
                assert(Seq::<u8>::empty() + y =~= y);
            }
            lossy(done + more)
        } else {
            assert forall|y: Seq<u8>|
                lossy(#[trigger] (done + more + y)) == gone + lossy((old_bytes + more) + y) by {
                assert(done + more + y =~= done + (more + y));
                assert((old_bytes + more) + y =~= old_bytes + (more + y));
            }
            gone
        }
    }
}

/// A stream is in step when it is created.
proof fn lemma_created(
    render: spec_fn(Seq<u32>) -> Option<Seq<char>>,
    token_bytes: spec_fn(u32) -> Option<Seq<u8>>,
    sliding: bool,
    prompt: Seq<u32>,
    min_bytes: nat,
) -> (gone: Seq<char>)
    requires
        decodes_bytewise(render, token_bytes),
        joined_bytes(prompt, token_bytes) is Some,
    ensures
        in_step(
            StreamModel::created(render, sliding, prompt, min_bytes),
            token_bytes,
            render(prompt)->0,
            joined_bytes(prompt, token_bytes)->0,
            gone,
        ),
{
    let start = StreamModel::created(render, sliding, prompt, min_bytes);
    let text = lossy(joined_bytes(prompt, token_bytes)->0);
    assert(render(prompt) == Some(text));
    common_prefix_is(text, text, text.len() as int);
    assert(start.full() =~= fresh(text, text));
    lemma_clean_suffix(
        render,
        token_bytes,
        prompt,
        if sliding {
            prompt.len() as int
        } else {
            0
        },
    )
}

/// One more token leaves a stream in step.
proof fn lemma_step(
    m: StreamModel,
    token_bytes: spec_fn(u32) -> Option<Seq<u8>>,
    prompt_text: Seq<char>,
    done: Seq<u8>,
    gone: Seq<char>,
    token_id: u32,
) -> (r: (Seq<u8>, Seq<char>))
    requires
        decodes_bytewise(m.render, token_bytes),
        in_step(m, token_bytes, prompt_text, done, gone),
        joined_bytes(m.pending.push(token_id), token_bytes) is Some,
    ensures
        ({
            let next = m.pushed(token_id);
            &&& next is Some
            &&& next->0.render == m.render
            &&& in_step(next->0, token_bytes, prompt_text, r.0, r.1)
            &&& joined_bytes(next->0.pending, token_bytes) is Some
            &&& r.0 + joined_bytes(next->0.pending, token_bytes)->0 == done + joined_bytes(
                m.pending.push(token_id),
                token_bytes,
            )->0
        }),
{
    let next = StreamModel { pending: m.pending.push(token_id), ..m };
    joined_bytes_concat(m.context, next.pending, token_bytes);
    let old_bytes = joined_bytes(m.context, token_bytes)->0;
    let more = joined_bytes(next.pending, token_bytes)->0;
    assert((m.render)(m.context) == Some(lossy(old_bytes)));
    assert((m.render)(m.context + next.pending) == Some(lossy(old_bytes + more)));
    assert(in_step(next, token_bytes, prompt_text, done, gone));
    if settles(lossy(old_bytes + more)) {
        let now_gone = lemma_settle(next, token_bytes, prompt_text, done, gone);
        assert(done + more + Seq::<u8>::empty() =~= done + more);
        (done + more, now_gone)
    } else {
        (done, gone)
    }
}

/// Runs a stream over bytewise tokens and returns what its state stands for.
proof fn lemma_run(
    render: spec_fn(Seq<u32>) -> Option<Seq<char>>,
    token_bytes: spec_fn(u32) -> Option<Seq<u8>>,
    sliding: bool,
    prompt: Seq<u32>,
    generated: Seq<u32>,
    min_bytes: nat,
) -> (r: (Seq<u8>, Seq<char>))
    requires
        decodes_bytewise(render, token_bytes),
        joined_bytes(prompt + generated, token_bytes) is Some,
    ensures
        ({
            let m = StreamModel::created(render, sliding, prompt, min_bytes).pushed_all(generated);
            &&& m is Some
            &&& m->0.render == render
            &&& in_step(m->0, token_bytes, render(prompt)->0, r.0, r.1)
            &&& joined_bytes(m->0.pending, token_bytes) is Some
            &&& r.0 + joined_bytes(m->0.pending, token_bytes)->0 == joined_bytes(
                prompt + generated,
                token_bytes,
            )->0
        }),
    decreases generated.len(),
{
    let start = StreamModel::created(render, sliding, prompt, min_bytes);
    joined_bytes_concat(prompt, generated, token_bytes);
    if generated.len() == 0 {
        let gone = lemma_created(render, token_bytes, sliding, prompt, min_bytes);
        let prompt_bytes = joined_bytes(prompt, token_bytes)->0;
        assert(prompt + generated =~= prompt);
        assert(prompt_bytes + Seq::<u8>::empty() =~= prompt_bytes);
        (prompt_bytes, gone)
    } else {
        let before = generated.drop_last();
        let id = generated.last();
        assert((prompt + generated).drop_last() =~= prompt + before);
        let (done, gone) = lemma_run(render, token_bytes, sliding, prompt, before, min_bytes);
        let m = start.pushed_all(before)->0;
        let pending = m.pending.push(id);
        assert(pending.drop_last() =~= m.pending);
        let all = joined_bytes(prompt + generated, token_bytes)->0;
        let more = joined_bytes(pending, token_bytes)->0;
        assert(done + more =~= all);
        lemma_step(m, token_bytes, render(prompt)->0, done, gone, id)
    }
}

/// Where decoding is context-independent, a stream loses nothing, repeats nothing and never
/// fails on tokens that can be decoded: its text is exactly what decoding prompt and generated
/// tokens together adds to the text of the prompt. It does not matter whether the decoder keeps
/// the full left context or slides it along.
pub proof fn stream_text_is_exact(
    render: spec_fn(Seq<u32>) -> Option<Seq<char>>,
    sliding: bool,
    prompt: Seq<u32>,
    generated: Seq<u32>,
    min_bytes: nat,
)
    requires
        is_context_independent(render),
        render(prompt + generated) is Some,
    ensures
        streamed_text(render, sliding, prompt, generated, min_bytes) == Some(
            generated_text(render, prompt, generated),
        ),
{
    let token_bytes = choose|token_bytes: spec_fn(u32) -> Option<Seq<u8>>|
        decodes_bytewise(render, token_bytes);
    assert(joined_bytes(prompt + generated, token_bytes) is Some);
    let (done, gone) = lemma_run(render, token_bytes, sliding, prompt, generated, min_bytes);
    let m = StreamModel::created(render, sliding, prompt, min_bytes).pushed_all(generated)->0;
    let more = joined_bytes(m.pending, token_bytes)->0;
    joined_bytes_concat(m.context, m.pending, token_bytes);
    lemma_account(m, token_bytes, render(prompt)->0, done, gone, more);
    let old_bytes = joined_bytes(m.context, token_bytes)->0;
    assert(render(m.context) == Some(lossy(old_bytes)));
    assert(render(m.context + m.pending) == Some(lossy(old_bytes + more)));
    let end = m.flushed()->0;
    assert(end.sent =~= m.full() + fresh(lossy(old_bytes), lossy(old_bytes + more)));
}

/// After a prompt that does not end inside a character, the text of a stream is the text of the
/// bytes of the generated tokens, all in one: no prompt text is emitted again.
pub proof fn stream_text_is_that_of_the_bytes(
    render: spec_fn(Seq<u32>) -> Option<Seq<char>>,
    token_bytes: spec_fn(u32) -> Option<Seq<u8>>,
    sliding: bool,
    prompt: Seq<u32>,
    generated: Seq<u32>,
    min_bytes: nat,
)
    requires
        decodes_bytewise(render, token_bytes),
        joined_bytes(prompt + generated, token_bytes) is Some,
        ends_whole(joined_bytes(prompt, token_bytes)->0),
    ensures
        joined_bytes(generated, token_bytes) is Some,
        streamed_text(render, sliding, prompt, generated, min_bytes) == Some(
            lossy(joined_bytes(generated, token_bytes)->0),
        ),
{
    stream_text_is_exact(render, sliding, prompt, generated, min_bytes);
    joined_bytes_concat(prompt, generated, token_bytes);
    let x = joined_bytes(prompt, token_bytes)->0;
    let y = joined_bytes(generated, token_bytes)->0;
    assert(render(prompt) == Some(lossy(x)));
    assert(render(prompt + generated) == Some(lossy(x + y)));
    lossy_splits_when_whole(x, y);
    fresh_of_extension(lossy(x), lossy(y));
}

/// Whether the renderings of a prompt and more and more generated tokens extend one another:
/// none is shorter than that of the prompt, and once tokens have been generated, text that does
/// not end in a replacement character stays when more follow.
pub open spec fn rendering_grows(
    render: spec_fn(Seq<u32>) -> Option<Seq<char>>,
    prompt: Seq<u32>,
    generated: Seq<u32>,
) -> bool {
    &&& forall|k: int|
        0 <= k <= generated.len() ==> (#[trigger] render(prompt + generated.take(k))) is Some
            && render(prompt)->0.len() <= render(prompt + generated.take(k))->0.len()
    &&& forall|k: int, l: int|
        0 < k <= l <= generated.len() && settles(render(prompt + generated.take(k))->0) ==> (
        #[trigger] render(prompt + generated.take(k)))->0.is_prefix_of(
            (#[trigger] render(prompt + generated.take(l)))->0,
        )
}

/// Accounting for text that was held since `old_text`, which is that of the prompt or stays.
proof fn lemma_account_growing(
    prompt_text: Seq<char>,
    old_text: Seq<char>,
    new_text: Seq<char>,
)
    requires
        old_text == prompt_text || (old_text.is_prefix_of(new_text) && prompt_text.len()
            <= old_text.len()),
    ensures
        fresh(prompt_text, old_text) + fresh(old_text, new_text) == fresh(prompt_text, new_text),
{
    if old_text == prompt_text {
        common_prefix_is(prompt_text, prompt_text, prompt_text.len() as int);
        assert(fresh(prompt_text, old_text) =~= seq![]);
        assert(fresh(prompt_text, old_text) + fresh(old_text, new_text) =~= fresh(
            prompt_text,
            new_text,
        ));
    } else {
        let added = new_text.skip(old_text.len() as int);
        assert(new_text =~= old_text + added);
        fresh_of_extension(old_text, added);
        fresh_then_more(prompt_text, old_text, added);
    }
}

/// Runs a stream that decodes from the full prompt and returns how many generated tokens it has
/// accounted for.
proof fn lemma_run_growing(
    render: spec_fn(Seq<u32>) -> Option<Seq<char>>,
    prompt: Seq<u32>,
    generated: Seq<u32>,
    min_bytes: nat,
    n: int,
) -> (c: int)
    requires
        rendering_grows(render, prompt, generated),
        0 <= n <= generated.len(),
    ensures
        0 <= c <= n,
        c == 0 || settles(render(prompt + generated.take(c))->0),
        settles(render(prompt + generated.take(n))->0) ==> c == n,
        ({
            let m = StreamModel::created(render, false, prompt, min_bytes).pushed_all(
                generated.take(n),
            );
            &&& m is Some
            &&& m->0.render == render
            &&& !m->0.sliding
            &&& m->0.context == prompt + generated.take(c)
            &&& m->0.pending == generated.subrange(c, n)
            &&& m->0.full() == fresh(render(prompt)->0, render(prompt + generated.take(c))->0)
        }),
    decreases n,
{
    let start = StreamModel::created(render, false, prompt, min_bytes);
    assert(prompt + generated.take(0) =~= prompt);
    let base = render(prompt)->0;
    if n == 0 {
        assert(generated.subrange(0, 0) =~= seq![]);
        common_prefix_is(base, base, base.len() as int);
        assert(start.full() =~= fresh(base, base));
        0
    } else {
        let c = lemma_run_growing(render, prompt, generated, min_bytes, n - 1);
        assert(generated.take(n).drop_last() =~= generated.take(n - 1));
        let m = start.pushed_all(generated.take(n - 1))->0;
        let id = generated[n - 1];
        let pending = m.pending.push(id);
        assert(pending =~= generated.subrange(c, n));
        assert(m.context + pending =~= prompt + generated.take(n));
        let old_text = render(prompt + generated.take(c))->0;
        let new_text = render(prompt + generated.take(n))->0;
        let next = start.pushed_all(generated.take(n))->0;
        if settles(new_text) {
            lemma_account_growing(base, old_text, new_text);
            assert(next.full() =~= m.full() + fresh(old_text, new_text));
            assert(generated.subrange(n, n) =~= seq![]);
            n
        } else {
            c
        }
    }
}

/// Where a token's rendering depends on its context, a stream decodes from the full prompt, and
/// its text is what the generated tokens add to the text of the prompt, provided that more
/// tokens only ever extend the text. A prompt that ends inside a character is no exception.
pub proof fn stream_text_from_full_prompt(
    render: spec_fn(Seq<u32>) -> Option<Seq<char>>,
    prompt: Seq<u32>,
    generated: Seq<u32>,
    min_bytes: nat,
)
    requires
        rendering_grows(render, prompt, generated),
    ensures
        streamed_text(render, false, prompt, generated, min_bytes) == Some(
            generated_text(render, prompt, generated),
        ),
        render(prompt)->0.is_prefix_of(render(prompt + generated)->0) ==> generated_text(
            render,
            prompt,
            generated,
        ) == render(prompt + generated)->0.skip(render(prompt)->0.len() as int),
{
    let n = generated.len() as int;
    let c = lemma_run_growing(render, prompt, generated, min_bytes, n);
    assert(generated.take(n) =~= generated);
    assert(prompt + generated.take(0) =~= prompt);
    let m = StreamModel::created(render, false, prompt, min_bytes).pushed_all(generated)->0;
    assert(m.context + m.pending =~= prompt + generated);
    let base = render(prompt)->0;
    let old_text = render(prompt + generated.take(c))->0;
    let new_text = render(prompt + generated.take(n))->0;
    lemma_account_growing(base, old_text, new_text);
    let end = m.flushed()->0;
    assert(end.sent =~= m.full() + fresh(old_text, new_text));
    if base.is_prefix_of(new_text) {
        let added = new_text.skip(base.len() as int);
        assert(new_text =~= base + added);
        fresh_of_extension(base, added);
    }
}

/// Whether the bytes `long` show what the bytes `short` show after `gone`, whatever follows.
spec fn shows_after(short: Seq<u8>, long: Seq<u8>, gone: Seq<char>) -> bool {
    forall|more: Seq<u8>|
        lossy(#[trigger] (long + more)) == gone + lossy(short + more)
}

/// What ties any stream to one that keeps its full left context.
spec fn alike(
    a: StreamModel,
    full: StreamModel,
    token_bytes: spec_fn(u32) -> Option<Seq<u8>>,
) -> bool {
    let short = joined_bytes(a.context, token_bytes);
    let long = joined_bytes(full.context, token_bytes);
    &&& a.render == full.render
    &&& a.min_bytes == full.min_bytes
    &&& a.sent == full.sent
    &&& a.unsent == full.unsent
    &&& !full.sliding
    &&& short is Some <==> long is Some
    &&& short is Some ==> {
        &&& joined_bytes(a.pending, token_bytes) is Some
        &&& joined_bytes(a.pending, token_bytes) == joined_bytes(full.pending, token_bytes)
        &&& exists|gone: Seq<char>| shows_after(short->0, long->0, gone)
    }
}

/// The texts of two streams that are alike differ by what one of them no longer shows.
proof fn lemma_shown(short: Seq<u8>, long: Seq<u8>, gone: Seq<char>, more: Seq<u8>)
    requires
        shows_after(short, long, gone),
    ensures
        lossy(long) == gone + lossy(short),
        lossy(long + more) == gone + lossy(short + more),
        fresh(lossy(long), lossy(long + more)) == fresh(lossy(short), lossy(short + more)),
{
    assert(long + Seq::<u8>::empty() =~= long);
    assert(short + Seq::<u8>::empty() =~= short);
    assert(lossy(long + Seq::<u8>::empty()) == gone + lossy(short + Seq::<u8>::empty()));
    fresh_after_shared(gone, lossy(short), lossy(short + more));
}

/// Streams that are alike stay so when both account for their pending tokens.
proof fn lemma_alike_accounted(
    a: StreamModel,
    full: StreamModel,
    token_bytes: spec_fn(u32) -> Option<Seq<u8>>,
)
    requires
        alike(a, full, token_bytes),
        joined_bytes(a.context, token_bytes) is Some,
    ensures
        ({
            let short = joined_bytes(a.context, token_bytes)->0;
            let long = joined_bytes(full.context, token_bytes)->0;
            let more = joined_bytes(a.pending, token_bytes)->0;
            alike(
                a.accounted(lossy(short), lossy(short + more)),
                full.accounted(lossy(long), lossy(long + more)),
                token_bytes,
            )
        }),
{
    let short = joined_bytes(a.context, token_bytes)->0;
    let long = joined_bytes(full.context, token_bytes)->0;
    let more = joined_bytes(a.pending, token_bytes)->0;
    let gone = choose|gone: Seq<char>| shows_after(short, long, gone);
    lemma_shown(short, long, gone, more);
    joined_bytes_concat(a.context, a.pending, token_bytes);
    joined_bytes_concat(full.context, full.pending, token_bytes);
    let new_text = lossy(short + more);
    let now = a.accounted(lossy(short), new_text);
    let now_full = full.accounted(lossy(long), lossy(long + more));
    let now_short = joined_bytes(now.context, token_bytes)->0;
    let now_long = joined_bytes(now_full.context, token_bytes)->0;
    assert(now_long == long + more);
    let now_gone = if a.sliding && settles(new_text) {
        assert(now_short =~= Seq::<u8>::empty());
        if new_text.len() == 0 {
            assert(short =~= now_short && more =~= now_short);
            assert(long + more =~= long);
            gone
        } else {
            assert(lossy(long + more).last() == new_text.last());
            assert forall|y: Seq<u8>|
                lossy(#[trigger] (now_long + y)) == lossy(now_long) + lossy(now_short + y) by {
                lossy_splits_when_settled(now_long, y);
                assert(now_short + y =~= y);
            }
            lossy(now_long)
        }
    } else {
        assert(now_short == short + more);
        assert forall|y: Seq<u8>|
            lossy(#[trigger] (now_long + y)) == gone + lossy(now_short + y) by {
            assert(now_long + y =~= long + (more + y));
            assert(now_short + y =~= short + (more + y));
        }
        gone
    };
    assert(shows_after(now_short, now_long, now_gone));
}

/// Streams that are alike take the same token, and stay alike.
proof fn lemma_alike_pushed(
    a: StreamModel,
    full: StreamModel,
    token_bytes: spec_fn(u32) -> Option<Seq<u8>>,
    token_id: u32,
)
    requires
        decodes_bytewise(a.render, token_bytes),
        alike(a, full, token_bytes),
    ensures
        a.pushed(token_id) is Some <==> full.pushed(token_id) is Some,
        a.pushed(token_id) is Some ==> alike(
            a.pushed(token_id)->0,
            full.pushed(token_id)->0,
            token_bytes,
        ),
{
    let render = a.render;
    let next = StreamModel { pending: a.pending.push(token_id), ..a };
    let next_full = StreamModel { pending: full.pending.push(token_id), ..full };
    assert(next.pending.drop_last() =~= a.pending);
    assert(next_full.pending.drop_last() =~= full.pending);
    joined_bytes_concat(a.context, next.pending, token_bytes);
    joined_bytes_concat(full.context, next_full.pending, token_bytes);
    assert(render(a.context) is Some <==> joined_bytes(a.context, token_bytes) is Some);
    assert(render(full.context) is Some <==> joined_bytes(full.context, token_bytes) is Some);
    assert(render(a.context + next.pending) is Some <==> joined_bytes(
        a.context + next.pending,
        token_bytes,
    ) is Some);
    assert(render(full.context + next_full.pending) is Some <==> joined_bytes(
        full.context + next_full.pending,
        token_bytes,
    ) is Some);
    if a.pushed(token_id) is Some {
        let short = joined_bytes(a.context, token_bytes)->0;
        let long = joined_bytes(full.context, token_bytes)->0;
        let more = joined_bytes(next.pending, token_bytes)->0;
        let gone = choose|gone: Seq<char>| shows_after(short, long, gone);
        lemma_shown(short, long, gone, more);
        assert(alike(next, next_full, token_bytes));
        lemma_alike_accounted(next, next_full, token_bytes);
        if lossy(short + more).len() > 0 {
            assert(lossy(long + more).last() == lossy(short + more).last());
        } else if !settles(lossy(long + more)) {
            let none = Seq::<u8>::empty();
            assert(short =~= none && more =~= none);
            assert(short + more =~= none);
            assert(fresh(lossy(short), lossy(short + more)) =~= seq![]);
            let now = a.pushed(token_id)->0;
            assert(now.unsent =~= a.unsent);
            assert(joined_bytes(now.context, token_bytes)->0 =~= none);
            assert(joined_bytes(now.pending, token_bytes)->0 =~= none);
            assert(shows_after(none, long, gone));
        }
    }
}

/// Streams that are alike end alike.
proof fn lemma_alike_flushed(
    a: StreamModel,
    full: StreamModel,
    token_bytes: spec_fn(u32) -> Option<Seq<u8>>,
)
    requires
        decodes_bytewise(a.render, token_bytes),
        alike(a, full, token_bytes),
    ensures
        a.flushed() is Some <==> full.flushed() is Some,
        a.flushed() is Some ==> alike(a.flushed()->0, full.flushed()->0, token_bytes),
{
    let render = a.render;
    joined_bytes_concat(a.context, a.pending, token_bytes);
    joined_bytes_concat(full.context, full.pending, token_bytes);
    assert(render(a.context) is Some <==> joined_bytes(a.context, token_bytes) is Some);
    assert(render(full.context) is Some <==> joined_bytes(full.context, token_bytes) is Some);
    assert(render(a.context + a.pending) is Some <==> joined_bytes(
        a.context + a.pending,
        token_bytes,
    ) is Some);
    assert(render(full.context + full.pending) is Some <==> joined_bytes(
        full.context + full.pending,
        token_bytes,
    ) is Some);
    if a.flushed() is Some {
        lemma_alike_accounted(a, full, token_bytes);
    }
}

/// Any stream is like one with full left context, after the same steps.
proof fn lemma_alike_after(
    render: spec_fn(Seq<u32>) -> Option<Seq<char>>,
    token_bytes: spec_fn(u32) -> Option<Seq<u8>>,
    sliding: bool,
    prompt: Seq<u32>,
    min_bytes: nat,
    steps: Seq<StreamStep>,
)
    requires
        decodes_bytewise(render, token_bytes),
    ensures
        StreamModel::created(render, sliding, prompt, min_bytes).after(steps).render == render,
        alike(
            StreamModel::created(render, sliding, prompt, min_bytes).after(steps),
            StreamModel::created(render, false, prompt, min_bytes).after(steps),
            token_bytes,
        ),
    decreases steps.len(),
{
    let a = StreamModel::created(render, sliding, prompt, min_bytes);
    let full = StreamModel::created(render, false, prompt, min_bytes);
    if steps.len() == 0 {
        assert(render(prompt) is Some <==> joined_bytes(prompt, token_bytes) is Some);
        if render(prompt) is Some {
            let gone = lemma_clean_suffix(
                render,
                token_bytes,
                prompt,
                if sliding {
                    prompt.len() as int
                } else {
                    0
                },
            );
            assert(shows_after(
                joined_bytes(a.context, token_bytes)->0,
                joined_bytes(prompt, token_bytes)->0,
                gone,
            ));
        }
    } else {
        lemma_alike_after(render, token_bytes, sliding, prompt, min_bytes, steps.drop_last());
        let x = a.after(steps.drop_last());
        let y = full.after(steps.drop_last());
        match steps.last() {
            StreamStep::Push(token_id) => lemma_alike_pushed(x, y, token_bytes, token_id),
            StreamStep::Chunk => {},
            StreamStep::Flush => lemma_alike_flushed(x, y, token_bytes),
        }
    }
}

/// Two streams of one tokenizer that are created alike and asked the same answer the same: they
/// take and refuse the same tokens, hand out the same chunks and end with the same text. Whether
/// their left context slides, which it does only where decoding is context-independent, never
/// shows.
pub proof fn streams_are_reproducible(
    render: spec_fn(Seq<u32>) -> Option<Seq<char>>,
    sliding: bool,
    other_sliding: bool,
    prompt: Seq<u32>,
    min_bytes: nat,
    steps: Seq<StreamStep>,
)
    requires
        sliding ==> is_context_independent(render),
        other_sliding ==> is_context_independent(render),
    ensures
        answer_alike(
            StreamModel::created(render, sliding, prompt, min_bytes).after(steps),
            StreamModel::created(render, other_sliding, prompt, min_bytes).after(steps),
        ),
{
    if sliding != other_sliding {
        let token_bytes = choose|token_bytes: spec_fn(u32) -> Option<Seq<u8>>|
            decodes_bytewise(render, token_bytes);
        let x = StreamModel::created(render, sliding, prompt, min_bytes).after(steps);
        let y = StreamModel::created(render, other_sliding, prompt, min_bytes).after(steps);
        let full = StreamModel::created(render, false, prompt, min_bytes).after(steps);
        lemma_alike_after(render, token_bytes, sliding, prompt, min_bytes, steps);
        lemma_alike_after(render, token_bytes, other_sliding, prompt, min_bytes, steps);
        lemma_alike_flushed(x, full, token_bytes);
        lemma_alike_flushed(y, full, token_bytes);
        assert forall|token_id: u32| (#[trigger] x.pushed(token_id)) is Some <==> y.pushed(
            token_id,
        ) is Some by {
            lemma_alike_pushed(x, full, token_bytes, token_id);
            lemma_alike_pushed(y, full, token_bytes, token_id);
        }
    }
}

/// Pushing tokens one after the other, as steps.
spec fn pushes(token_ids: Seq<u32>) -> Seq<StreamStep> {
    token_ids.map_values(|token_id: u32| StreamStep::Push(token_id))
}

proof fn lemma_pushes(m: StreamModel, token_ids: Seq<u32>)
    ensures
        m.pushed_all(token_ids) is Some ==> m.after(pushes(token_ids)) == m.pushed_all(
            token_ids,
        )->0,
    decreases token_ids.len(),
{
    if token_ids.len() > 0 {
        lemma_pushes(m, token_ids.drop_last());
        assert(pushes(token_ids).drop_last() =~= pushes(token_ids.drop_last()));
        assert(pushes(token_ids).last() == StreamStep::Push(token_ids.last()));
    }
}

proof fn lemma_pushed_alike(
    render: spec_fn(Seq<u32>) -> Option<Seq<char>>,
    prompt: Seq<u32>,
    generated: Seq<u32>,
    min_bytes: nat,
)
    requires
        is_context_independent(render),
    ensures
        StreamModel::created(render, true, prompt, min_bytes).pushed_all(generated) is Some
            <==> StreamModel::created(render, false, prompt, min_bytes).pushed_all(
            generated,
        ) is Some,
    decreases generated.len(),
{
    if generated.len() > 0 {
        let before = generated.drop_last();
        let a = StreamModel::created(render, true, prompt, min_bytes);
        let b = StreamModel::created(render, false, prompt, min_bytes);
        lemma_pushed_alike(render, prompt, before, min_bytes);
        lemma_pushes(a, before);
        lemma_pushes(b, before);
        streams_are_reproducible(render, true, false, prompt, min_bytes, pushes(before));
        let x = a.after(pushes(before));
        let y = b.after(pushes(before));
        assert(x.pushed(generated.last()) is Some <==> y.pushed(generated.last()) is Some);
    }
}

/// Where decoding is context-independent, a stream comes to the same text, or fails alike,
/// whether its left context slides or not.
pub proof fn sliding_does_not_show(
    render: spec_fn(Seq<u32>) -> Option<Seq<char>>,
    prompt: Seq<u32>,
    generated: Seq<u32>,
    min_bytes: nat,
)
    requires
        is_context_independent(render),
    ensures
        streamed_text(render, true, prompt, generated, min_bytes) == streamed_text(
            render,
            false,
            prompt,
            generated,
            min_bytes,
        ),
{
    lemma_pushed_alike(render, prompt, generated, min_bytes);
    lemma_pushes(StreamModel::created(render, true, prompt, min_bytes), generated);
    lemma_pushes(StreamModel::created(render, false, prompt, min_bytes), generated);
    streams_are_reproducible(render, true, false, prompt, min_bytes, pushes(generated));
}

/// Handing out a chunk moves text and loses none of it.
pub proof fn chunk_keeps_the_text(m: StreamModel)
    ensures
        m.chunked().full() == m.full(),
        m.chunked().sent == m.sent + m.chunk(),
        m.chunk() + m.chunked().unsent == m.unsent,
{
    chars_holding_bound(m.unsent, m.min_bytes);
    assert(m.chunked().full() =~= m.full());
    assert(m.chunk() + m.chunked().unsent =~= m.unsent);
}

proof fn lemma_held_bytes(text: Seq<char>, bytes: nat)
    ensures
        chars_holding(text, bytes) <= text.len(),
        chars_holding(text, bytes) < text.len() ==> encode_utf8(
            text.skip(text.len() - chars_holding(text, bytes)),
        ).len() >= bytes,
{
    held_characters_are_the_fewest(text, bytes);
}

/// While a stream runs, a chunk is handed out only if at least the asked number of bytes stays
/// in the buffer.
pub proof fn buffer_is_kept(m: StreamModel)
    requires
        m.chunk().len() > 0,
    ensures
        encode_utf8(m.chunked().unsent).len() >= m.min_bytes,
{
    lemma_held_bytes(m.unsent, m.min_bytes);
}

/// Without a buffer, a chunk is all text that is certain.
pub proof fn nothing_is_held_without_buffer(m: StreamModel)
    requires
        m.min_bytes == 0,
    ensures
        m.chunk() == m.unsent,
        m.chunked().sent == m.full(),
{
    assert(m.chunk() =~= m.unsent);
}

/// Whether two states differ at most in how much of the text has been handed out.
pub open spec fn same_stream(a: StreamModel, b: StreamModel) -> bool {
    &&& a.render == b.render
    &&& a.sliding == b.sliding
    &&& a.min_bytes == b.min_bytes
    &&& a.context == b.context
    &&& a.pending == b.pending
    &&& a.full() == b.full()
}

/// Handing out chunks along the way has no influence on the text of a stream.
pub proof fn chunks_do_not_change_the_stream(a: StreamModel, b: StreamModel, token_id: u32)
    requires
        same_stream(a, b),
    ensures
        same_stream(a.chunked(), b),
        a.pushed(token_id) is Some <==> b.pushed(token_id) is Some,
        a.pushed(token_id) is Some ==> same_stream(a.pushed(token_id)->0, b.pushed(token_id)->0),
        a.flushed() is Some <==> b.flushed() is Some,
        a.flushed() is Some ==> a.flushed()->0.sent == b.flushed()->0.sent,
{
    chunk_keeps_the_text(a);
    let pending = a.pending.push(token_id);
    if let (Some(old_text), Some(new_text)) = (
        (a.render)(a.context),
        (a.render)(a.context + pending),
    ) {
        let more = fresh(old_text, new_text);
        assert(a.sent + (a.unsent + more) =~= a.full() + more);
        assert(b.sent + (b.unsent + more) =~= b.full() + more);
    }
    if let (Some(old_text), Some(new_text)) = (
        (a.render)(a.context),
        (a.render)(a.context + a.pending),
    ) {
        let more = fresh(old_text, new_text);
        assert(a.sent + (a.unsent + more) =~= a.full() + more);
        assert(b.sent + (b.unsent + more) =~= b.full() + more);
    }
}

/// A stream that has failed does not come back.
proof fn lemma_failure_lasts(m: StreamModel, token_ids: Seq<u32>, n: int)
    requires
        0 <= n <= token_ids.len(),
        m.pushed_all(token_ids.take(n)) is None,
    ensures
        m.pushed_all(token_ids) is None,
    decreases token_ids.len() - n,
{
    if n == token_ids.len() {
        assert(token_ids.take(n) =~= token_ids);
    } else {
        assert(token_ids.take(n + 1).drop_last() =~= token_ids.take(n));
        lemma_failure_lasts(m, token_ids, n + 1);
    }
}

/// What streaming the given tokens with no buffer comes to: the text of the stream, or `None`
/// where it fails. It is that of a stream with full left context; one whose context slides comes
/// to the same.
pub open spec fn stream_result(
    render: spec_fn(Seq<u32>) -> Option<Seq<char>>,
    prompt: Seq<u32>,
    generated: Seq<u32>,
) -> Option<Seq<char>> {
    streamed_text(render, false, prompt, generated, 0)
}

/// Whether a stream owes exactly the text that the generated tokens add to that of the prompt:
/// all of it can be decoded and either decoding is context-independent or more tokens only ever
/// extend the text.
pub open spec fn text_is_owed(
    render: spec_fn(Seq<u32>) -> Option<Seq<char>>,
    prompt: Seq<u32>,
    generated: Seq<u32>,
) -> bool {
    ||| is_context_independent(render) && render(prompt + generated) is Some
    ||| rendering_grows(render, prompt, generated)
}

/// A stream gives the text that it owes.
pub proof fn owed_text_is_given(
    render: spec_fn(Seq<u32>) -> Option<Seq<char>>,
    prompt: Seq<u32>,
    generated: Seq<u32>,
)
    requires
        text_is_owed(render, prompt, generated),
    ensures
        stream_result(render, prompt, generated) == Some(
            generated_text(render, prompt, generated),
        ),
{
    if rendering_grows(render, prompt, generated) {
        stream_text_from_full_prompt(render, prompt, generated, 0);
    } else {
        stream_text_is_exact(render, false, prompt, generated, 0);
    }
}

/// The tokens that are pushed in the given steps, in order.
pub open spec fn taken(steps: Seq<StreamStep>) -> Seq<u32>
    decreases steps.len(),
{
    if steps.len() == 0 {
        seq![]
    } else {
        match steps.last() {
            StreamStep::Push(token_id) => taken(steps.drop_last()).push(token_id),
            _ => taken(steps.drop_last()),
        }
    }
}

/// The chunks that a decoder hands out in the given steps, one after the other.
pub open spec fn handed_out(m: StreamModel, steps: Seq<StreamStep>) -> Seq<char>
    decreases steps.len(),
{
    if steps.len() == 0 {
        seq![]
    } else {
        let before = handed_out(m, steps.drop_last());
        match steps.last() {
            StreamStep::Chunk => before + m.after(steps.drop_last()).chunk(),
            _ => before,
        }
    }
}

/// The tokens that are pushed in the given steps are those of the pushes among them.
pub proof fn taken_tokens_are_those_pushed(steps: Seq<StreamStep>)
    ensures
        taken(steps) == steps.filter_map(
            |step: StreamStep|
                match step {
                    StreamStep::Push(token_id) => Some(token_id),
                    _ => None,
                },
        ),
    decreases steps.len(),
{
    if steps.len() > 0 {
        taken_tokens_are_those_pushed(steps.drop_last());
        if let StreamStep::Push(token_id) = steps.last() {
            assert(taken(steps) =~= taken(steps.drop_last()) + seq![token_id]);
        }
    }
}

/// No step changes how tokens are decoded, whether the context slides or how much is held back.
pub proof fn settings_last(m: StreamModel, steps: Seq<StreamStep>)
    ensures
        m.after(steps).render == m.render,
        m.after(steps).sliding == m.sliding,
        m.after(steps).min_bytes == m.min_bytes,
    decreases steps.len(),
{
    if steps.len() > 0 {
        settings_last(m, steps.drop_last());
    }
}

/// Whatever has been asked of a stream, a chunk is handed out only if the number of bytes that
/// the stream was created with stays in the buffer, and no character is held back that those
/// bytes do not need.
pub proof fn asked_buffer_is_kept(
    render: spec_fn(Seq<u32>) -> Option<Seq<char>>,
    sliding: bool,
    prompt: Seq<u32>,
    min_bytes: nat,
    steps: Seq<StreamStep>,
)
    ensures
        ({
            let m = StreamModel::created(render, sliding, prompt, min_bytes).after(steps);
            let rest = m.chunked().unsent;
            &&& m.chunk() + rest == m.unsent
            &&& m.chunk().len() > 0 ==> encode_utf8(rest).len() >= min_bytes
            &&& rest.len() > 0 ==> encode_utf8(rest.skip(1)).len() < min_bytes
            &&& min_bytes == 0 ==> rest.len() == 0
        }),
{
    let start = StreamModel::created(render, sliding, prompt, min_bytes);
    settings_last(start, steps);
    chunk_leaves_the_buffer_full(start.after(steps));
}

/// While a stream goes on, the text that it has sent is made of its chunks.
pub proof fn chunks_add_up(m: StreamModel, steps: Seq<StreamStep>)
    requires
        forall|i: int| 0 <= i < steps.len() ==> !((#[trigger] steps[i]) is Flush),
    ensures
        m.after(steps).sent == m.sent + handed_out(m, steps),
    decreases steps.len(),
{
    if steps.len() == 0 {
        assert(m.sent + handed_out(m, steps) =~= m.sent);
    } else {
        let before = steps.drop_last();
        assert forall|i: int| 0 <= i < before.len() implies !((#[trigger] before[i]) is Flush) by {
            assert(before[i] == steps[i]);
        }
        chunks_add_up(m, before);
        assert(!(steps[steps.len() - 1] is Flush));
        let chunk = m.after(before).chunk();
        assert(m.sent + handed_out(m, before) + chunk =~= m.sent + (handed_out(m, before)
            + chunk));
        assert(m.after(steps).sent =~= m.sent + handed_out(m, steps));
    }
}

/// While a stream goes on, all that matters of its steps is which tokens were pushed.
proof fn lemma_goes_on(m: StreamModel, steps: Seq<StreamStep>)
    requires
        forall|i: int| 0 <= i < steps.len() ==> !((#[trigger] steps[i]) is Flush),
        m.pushed_all(taken(steps)) is Some,
    ensures
        same_stream(m.after(steps), m.pushed_all(taken(steps))->0),
    decreases steps.len(),
{
    if steps.len() > 0 {
        let before = steps.drop_last();
        assert forall|i: int| 0 <= i < before.len() implies !((#[trigger] before[i]) is Flush) by {
            assert(before[i] == steps[i]);
        }
        assert(!(steps[steps.len() - 1] is Flush));
        match steps.last() {
            StreamStep::Push(token_id) => {
                assert(taken(steps).drop_last() =~= taken(before));
                lemma_goes_on(m, before);
                chunks_do_not_change_the_stream(
                    m.after(before),
                    m.pushed_all(taken(before))->0,
                    token_id,
                );
            },
            _ => {
                lemma_goes_on(m, before);
                chunks_do_not_change_the_stream(m.after(before), m.pushed_all(taken(before))->0, 0);
            },
        }
    }
}

/// No token waits after one that settles the text of all bytes.
proof fn lemma_push_settles(
    m: StreamModel,
    token_bytes: spec_fn(u32) -> Option<Seq<u8>>,
    prompt_text: Seq<char>,
    done: Seq<u8>,
    gone: Seq<char>,
    token_id: u32,
)
    requires
        decodes_bytewise(m.render, token_bytes),
        in_step(m, token_bytes, prompt_text, done, gone),
        joined_bytes(m.pending.push(token_id), token_bytes) is Some,
        settles(lossy(done + joined_bytes(m.pending.push(token_id), token_bytes)->0)),
    ensures
        m.pushed(token_id) is Some,
        m.pushed(token_id)->0.pending.len() == 0,
{
    let pending = m.pending.push(token_id);
    joined_bytes_concat(m.context, pending, token_bytes);
    let more = joined_bytes(pending, token_bytes)->0;
    let short = joined_bytes(m.context, token_bytes)->0;
    assert(lossy(done + more) == gone + lossy(short + more));
    assert((m.render)(m.context) == Some(lossy(short)));
    assert((m.render)(m.context + pending) == Some(lossy(short + more)));
    if lossy(short + more).len() > 0 {
        assert(lossy(done + more).last() == lossy(short + more).last());
    }
}

/// No token waits when the text of the prompt and all tokens is settled.
proof fn lemma_nothing_waits(
    render: spec_fn(Seq<u32>) -> Option<Seq<char>>,
    token_bytes: spec_fn(u32) -> Option<Seq<u8>>,
    sliding: bool,
    prompt: Seq<u32>,
    generated: Seq<u32>,
    min_bytes: nat,
)
    requires
        decodes_bytewise(render, token_bytes),
        joined_bytes(prompt + generated, token_bytes) is Some,
        settles(lossy(joined_bytes(prompt + generated, token_bytes)->0)),
    ensures
        StreamModel::created(render, sliding, prompt, min_bytes).pushed_all(generated) matches Some(
            m,
        ) ==> m.pending.len() == 0,
{
    if generated.len() > 0 {
        let before = generated.drop_last();
        let id = generated.last();
        let all = joined_bytes(prompt + generated, token_bytes)->0;
        assert((prompt + generated).drop_last() =~= prompt + before);
        assert((prompt + generated).last() == id);
        let (done, gone) = lemma_run(render, token_bytes, sliding, prompt, before, min_bytes);
        let m = StreamModel::created(render, sliding, prompt, min_bytes).pushed_all(before)->0;
        let pending = m.pending.push(id);
        assert(pending.drop_last() =~= m.pending);
        assert(pending.last() == id);
        assert(done + joined_bytes(pending, token_bytes)->0 =~= all);
        lemma_push_settles(m, token_bytes, render(prompt)->0, done, gone, id);
    }
}

/// The text so far begins the text of all tokens so far, and is all of it once that is settled.
proof fn lemma_text_so_far(
    render: spec_fn(Seq<u32>) -> Option<Seq<char>>,
    sliding: bool,
    prompt: Seq<u32>,
    generated: Seq<u32>,
    min_bytes: nat,
)
    requires
        is_context_independent(render),
        render(prompt + generated) is Some,
    ensures
        ({
            let m = StreamModel::created(render, sliding, prompt, min_bytes).pushed_all(generated);
            let text = generated_text(render, prompt, generated);
            &&& m is Some
            &&& m->0.full().is_prefix_of(text)
            &&& settles(render(prompt + generated)->0) ==> {
                &&& m->0.pending.len() == 0
                &&& m->0.full() == text
            }
        }),
{
    let token_bytes = choose|token_bytes: spec_fn(u32) -> Option<Seq<u8>>|
        decodes_bytewise(render, token_bytes);
    assert(joined_bytes(prompt + generated, token_bytes) is Some);
    let start = StreamModel::created(render, sliding, prompt, min_bytes);
    let (done, gone) = lemma_run(render, token_bytes, sliding, prompt, generated, min_bytes);
    let m = start.pushed_all(generated)->0;
    let base = render(prompt)->0;
    let rest = joined_bytes(m.pending, token_bytes)->0;
    let all_text = render(prompt + generated)->0;
    assert(all_text == lossy(done + rest));
    if lossy(done) == base {
        common_prefix_is(base, base, base.len() as int);
        assert(m.full() =~= seq![]);
    } else {
        lossy_splits_when_settled(done, rest);
        fresh_then_more(base, lossy(done), lossy(rest));
    }
    if settles(all_text) {
        lemma_nothing_waits(render, token_bytes, sliding, prompt, generated, min_bytes);
        assert(m.pending =~= seq![]);
        assert(done + rest =~= done);
    }
}

/// Where decoding is context-independent, a stream says what it can as soon as it can: when the
/// text of the prompt and all tokens so far does not end in a replacement character, no token
/// waits, and the text so far, sent or held in the buffer, is that of all tokens so far. Without
/// a buffer, the chunks add up to it as soon as they are asked for. At any other time the text
/// so far is the beginning of that of all tokens.
pub proof fn settled_text_is_ready(
    render: spec_fn(Seq<u32>) -> Option<Seq<char>>,
    sliding: bool,
    prompt: Seq<u32>,
    min_bytes: nat,
    steps: Seq<StreamStep>,
)
    requires
        is_context_independent(render),
        forall|i: int| 0 <= i < steps.len() ==> !((#[trigger] steps[i]) is Flush),
        render(prompt + taken(steps)) is Some,
    ensures
        ({
            let start = StreamModel::created(render, sliding, prompt, min_bytes);
            let m = start.after(steps);
            let all_text = render(prompt + taken(steps))->0;
            let text = generated_text(render, prompt, taken(steps));
            &&& (m.sent + m.unsent).is_prefix_of(text)
            &&& all_text.len() == 0 || all_text.last() != '\u{FFFD}' ==> {
                &&& m.pending.len() == 0
                &&& m.sent + m.unsent == text
                &&& min_bytes == 0 ==> handed_out(start, steps.push(StreamStep::Chunk)) == text
            }
        }),
{
    let start = StreamModel::created(render, sliding, prompt, min_bytes);
    let m = start.after(steps);
    lemma_text_so_far(render, sliding, prompt, taken(steps), min_bytes);
    lemma_goes_on(start, steps);
    let pull = steps.push(StreamStep::Chunk);
    assert(pull.drop_last() =~= steps);
    chunks_add_up(start, steps);
    asked_buffer_is_kept(render, sliding, prompt, min_bytes, steps);
    assert(start.sent + handed_out(start, steps) =~= handed_out(start, steps));
    if min_bytes == 0 {
        assert(m.chunk() =~= m.unsent);
        assert(handed_out(start, pull) =~= m.sent + m.unsent);
    }
}

/// Where decoding is context-independent, the end of a stream brings all text of its tokens that
/// has not been handed out, whatever was pulled before and whatever is incomplete.
pub proof fn stream_ends_with_all_text(
    render: spec_fn(Seq<u32>) -> Option<Seq<char>>,
    sliding: bool,
    prompt: Seq<u32>,
    min_bytes: nat,
    steps: Seq<StreamStep>,
)
    requires
        is_context_independent(render),
        forall|i: int| 0 <= i < steps.len() ==> !((#[trigger] steps[i]) is Flush),
        render(prompt + taken(steps)) is Some,
    ensures
        ({
            let m = StreamModel::created(render, sliding, prompt, min_bytes).after(steps);
            &&& m.flushed() is Some
            &&& m.flushed()->0.sent == generated_text(render, prompt, taken(steps))
            &&& m.flushed()->0.unsent.len() == 0
        }),
{
    let start = StreamModel::created(render, sliding, prompt, min_bytes);
    lemma_text_so_far(render, sliding, prompt, taken(steps), min_bytes);
    lemma_goes_on(start, steps);
    stream_text_is_exact(render, sliding, prompt, taken(steps), min_bytes);
    chunks_do_not_change_the_stream(start.after(steps), start.pushed_all(taken(steps))->0, 0);
}

/// A stream that decodes from the full prompt says what it can as soon as it can, provided that
/// more tokens only ever extend the text: no rendering is shorter than that of the prompt, and
/// one that does not end in a replacement character begins every later one. When the text of the
/// prompt and all tokens so far does not end in a replacement character, no token waits, and the
/// text so far is that of all tokens so far; in the end it is so in any case.
pub proof fn settled_text_is_ready_from_full_prompt(
    render: spec_fn(Seq<u32>) -> Option<Seq<char>>,
    prompt: Seq<u32>,
    min_bytes: nat,
    steps: Seq<StreamStep>,
)
    requires
        forall|i: int| 0 <= i < steps.len() ==> !((#[trigger] steps[i]) is Flush),
        forall|k: int|
            0 <= k <= taken(steps).len() ==> (#[trigger] render(prompt + taken(steps).take(k)))
                is Some && render(prompt)->0.len() <= render(prompt + taken(steps).take(
                k,
            ))->0.len(),
        forall|k: int, l: int|
            0 < k <= l <= taken(steps).len() && (render(prompt + taken(steps).take(k))->0.len()
                == 0 || render(prompt + taken(steps).take(k))->0.last() != '\u{FFFD}') ==> (
            #[trigger] render(prompt + taken(steps).take(k)))->0.is_prefix_of(
                (#[trigger] render(prompt + taken(steps).take(l)))->0,
            ),
    ensures
        ({
            let start = StreamModel::created(render, false, prompt, min_bytes);
            let m = start.after(steps);
            let all_text = render(prompt + taken(steps))->0;
            let text = generated_text(render, prompt, taken(steps));
            &&& all_text.len() == 0 || all_text.last() != '\u{FFFD}' ==> {
                &&& m.pending.len() == 0
                &&& m.sent + m.unsent == text
                &&& min_bytes == 0 ==> handed_out(start, steps.push(StreamStep::Chunk)) == text
            }
            &&& m.flushed() is Some
            &&& m.flushed()->0.sent == text
        }),
{
    let start = StreamModel::created(render, false, prompt, min_bytes);
    let m = start.after(steps);
    let generated = taken(steps);
    let n = generated.len() as int;
    assert(rendering_grows(render, prompt, generated));
    let c = lemma_run_growing(render, prompt, generated, min_bytes, n);
    assert(generated.take(n) =~= generated);
    lemma_goes_on(start, steps);
    stream_text_from_full_prompt(render, prompt, generated, min_bytes);
    chunks_do_not_change_the_stream(m, start.pushed_all(generated)->0, 0);
    let pull = steps.push(StreamStep::Chunk);
    assert(pull.drop_last() =~= steps);
    chunks_add_up(start, steps);
    asked_buffer_is_kept(render, false, prompt, min_bytes, steps);
    assert(start.sent + handed_out(start, steps) =~= handed_out(start, steps));
    if min_bytes == 0 {
        assert(m.chunk() =~= m.unsent);
        assert(handed_out(start, pull) =~= m.sent + m.unsent);
    }
}

/// A stream whose context does not slide decodes the prompt and all tokens that it has taken.
pub proof fn full_context_is_decoded(
    render: spec_fn(Seq<u32>) -> Option<Seq<char>>,
    prompt: Seq<u32>,
    generated: Seq<u32>,
    min_bytes: nat,
)
    ensures
        StreamModel::created(render, false, prompt, min_bytes).pushed_all(generated) matches Some(m)
            ==> {
            &&& m.render == render
            &&& !m.sliding
            &&& m.context + m.pending == prompt + generated
        },
    decreases generated.len(),
{
    let start = StreamModel::created(render, false, prompt, min_bytes);
    if generated.len() == 0 {
        assert(start.context + start.pending =~= prompt + generated);
    } else {
        let before = generated.drop_last();
        let id = generated.last();
        full_context_is_decoded(render, prompt, before, min_bytes);
        if let Some(m) = start.pushed_all(before) {
            assert(m.context + m.pending.push(id) =~= (m.context + m.pending).push(id));
            assert((prompt + before).push(id) =~= prompt + generated);
            if let Some(next) = m.pushed(id) {
                assert(next.context + next.pending =~= m.context + m.pending.push(id));
            }
        }
    }
}

/// Where decoding is context-independent, a stream fails exactly on tokens that cannot be
/// decoded, and else gives the text of the generated tokens, whatever is held back on the way.
pub proof fn stream_fails_only_on_undecodable_tokens(
    render: spec_fn(Seq<u32>) -> Option<Seq<char>>,
    sliding: bool,
    prompt: Seq<u32>,
    generated: Seq<u32>,
    min_bytes: nat,
)
    requires
        is_context_independent(render),
    ensures
        streamed_text(render, sliding, prompt, generated, min_bytes) == (match render(
            prompt + generated,
        ) {
            Some(_) => Some(generated_text(render, prompt, generated)),
            None => None,
        }),
        stream_result(render, prompt, generated) == streamed_text(
            render,
            sliding,
            prompt,
            generated,
            min_bytes,
        ),
{
    if render(prompt + generated) is Some {
        stream_text_is_exact(render, sliding, prompt, generated, min_bytes);
        stream_text_is_exact(render, false, prompt, generated, 0);
    } else {
        sliding_does_not_show(render, prompt, generated, min_bytes);
        full_context_is_decoded(render, prompt, generated, min_bytes);
        full_context_is_decoded(render, prompt, generated, 0);
    }
}

/// A stream comes to what its decoder has sent after all tokens and the end, and fails where one
/// of them does.
pub proof fn stream_is_pushed_and_flushed(
    render: spec_fn(Seq<u32>) -> Option<Seq<char>>,
    sliding: bool,
    prompt: Seq<u32>,
    generated: Seq<u32>,
    min_bytes: nat,
)
    ensures
        ({
            let m = StreamModel::created(render, sliding, prompt, min_bytes).pushed_all(generated);
            let text = streamed_text(render, sliding, prompt, generated, min_bytes);
            &&& text is Some <==> m is Some && m->0.flushed() is Some
            &&& text is Some ==> text->0 == m->0.flushed()->0.sent
        }),
{
}

/// How much is held back on the way has no influence on what a stream comes to, whatever the
/// rendering.
pub proof fn buffer_does_not_change_the_text(
    render: spec_fn(Seq<u32>) -> Option<Seq<char>>,
    sliding: bool,
    prompt: Seq<u32>,
    generated: Seq<u32>,
    min_bytes: nat,
    other_min_bytes: nat,
)
    ensures
        streamed_text(render, sliding, prompt, generated, min_bytes) == streamed_text(
            render,
            sliding,
            prompt,
            generated,
            other_min_bytes,
        ),
        stream_result(render, prompt, generated) == streamed_text(
            render,
            false,
            prompt,
            generated,
            min_bytes,
        ),
{
    lemma_buffer_is_apart(render, sliding, prompt, generated, min_bytes, other_min_bytes);
    lemma_buffer_is_apart(render, false, prompt, generated, min_bytes, 0);
}

proof fn lemma_buffer_is_apart(
    render: spec_fn(Seq<u32>) -> Option<Seq<char>>,
    sliding: bool,
    prompt: Seq<u32>,
    generated: Seq<u32>,
    min_bytes: nat,
    other_min_bytes: nat,
)
    ensures
        ({
            let a = StreamModel::created(render, sliding, prompt, min_bytes).pushed_all(generated);
            let b = StreamModel::created(render, sliding, prompt, other_min_bytes).pushed_all(
                generated,
            );
            &&& a is Some <==> b is Some
            &&& a is Some ==> b->0 == (StreamModel { min_bytes: other_min_bytes, ..a->0 })
        }),
    decreases generated.len(),
{
    if generated.len() > 0 {
        lemma_buffer_is_apart(
            render,
            sliding,
            prompt,
            generated.drop_last(),
            min_bytes,
            other_min_bytes,
        );
    }
}

/// The generated text is what the text of all tokens has after the place where it first differs
/// from the text of the prompt; after a prompt whose text stays as it is, both in a row are the
/// text of all tokens.
pub proof fn generated_text_follows_the_prompt(
    render: spec_fn(Seq<u32>) -> Option<Seq<char>>,
    prompt: Seq<u32>,
    generated: Seq<u32>,
)
    ensures
        ({
            let base = render(prompt)->0;
            let all_text = render(prompt + generated)->0;
            let text = generated_text(render, prompt, generated);
            let n = all_text.len() - text.len();
            &&& 0 <= n <= base.len()
            &&& text == all_text.skip(n)
            &&& base.take(n) == all_text.take(n)
            &&& n == base.len() || n == all_text.len() || base[n] != all_text[n]
            &&& base.is_prefix_of(all_text) ==> base + text == all_text
        }),
{
    let base = render(prompt)->0;
    let all_text = render(prompt + generated)->0;
    fresh_begins_at_the_first_difference(base, all_text);
    if base.is_prefix_of(all_text) {
        let added = all_text.skip(base.len() as int);
        assert(all_text =~= base + added);
        fresh_of_extension(base, added);
    }
}

/// No tokens have no bytes, and one token has its own.
pub proof fn joined_bytes_of_one(token_id: u32, token_bytes: spec_fn(u32) -> Option<Seq<u8>>)
    ensures
        joined_bytes(Seq::empty(), token_bytes) == Some(Seq::<u8>::empty()),
        joined_bytes(seq![token_id], token_bytes) == token_bytes(token_id),
{
    assert(seq![token_id].drop_last() =~= seq![]);
    assert(joined_bytes(seq![token_id].drop_last(), token_bytes) == Some(Seq::<u8>::empty()));
    if let Some(bytes) = token_bytes(token_id) {
        assert(Seq::<u8>::empty() + bytes =~= bytes);
    }
}

/// What it is to be context-independent: some bytes for each token decide what every sequence
/// shows.
pub proof fn own_bytes_are_context_independent(
    render: spec_fn(Seq<u32>) -> Option<Seq<char>>,
    token_bytes: spec_fn(u32) -> Option<Seq<u8>>,
)
    requires
        forall|token_ids: Seq<u32>| #[trigger]
            render(token_ids) == (match joined_bytes(token_ids, token_bytes) {
                Some(bytes) => Some(lossy(bytes)),
                None => None,
            }),
    ensures
        decodes_bytewise(render, token_bytes),
        is_context_independent(render),
{
    assert(decodes_bytewise(render, token_bytes));
}

/// Where decoding is context-independent, two sequences can be decoded in a row exactly if each
/// can be decoded, and after text that does not end in a replacement character the second shows
/// what it shows alone.
pub proof fn context_independent_text_adds_up(
    render: spec_fn(Seq<u32>) -> Option<Seq<char>>,
    a: Seq<u32>,
    b: Seq<u32>,
)
    requires
        is_context_independent(render),
    ensures
        render(Seq::empty()) == Some(Seq::<char>::empty()),
        render(a + b) is Some <==> render(a) is Some && render(b) is Some,
        render(a + b) is Some && (render(a)->0.len() == 0 || render(a)->0.last() != '\u{FFFD}')
            ==> render(a + b)->0 == render(a)->0 + render(b)->0,
{
    let token_bytes = choose|token_bytes: spec_fn(u32) -> Option<Seq<u8>>|
        decodes_bytewise(render, token_bytes);
    let none = Seq::<u32>::empty();
    assert(render(none) is Some && joined_bytes(none, token_bytes) == Some(Seq::<u8>::empty()));
    joined_bytes_concat(a, b, token_bytes);
    assert(render(a) is Some <==> joined_bytes(a, token_bytes) is Some);
    assert(render(b) is Some <==> joined_bytes(b, token_bytes) is Some);
    assert(render(a + b) is Some <==> joined_bytes(a + b, token_bytes) is Some);
    if render(a + b) is Some && settles(render(a)->0) {
        lossy_splits_when_settled(
            joined_bytes(a, token_bytes)->0,
            joined_bytes(b, token_bytes)->0,
        );
    }
}

/// A rendering is that of its detokenizer, special tokens skipped or not as asked.
pub proof fn rendering_is_the_text<T: Detokenizer + ?Sized>(
    detokenizer: &T,
    token_ids: Seq<u32>,
    skip_special_tokens: bool,
)
    ensures
        rendering(detokenizer, skip_special_tokens)(token_ids) == detokenizer.text(
            token_ids,
            skip_special_tokens,
        ),
{
}

/// The text that an operation returned, or `None` for an error.
pub open spec fn text_of(r: Result<String>) -> Option<Seq<char>> {
    match r {
        Ok(text) => Some(text@),
        Err(_) => None,
    }
}

/// Streams the given tokens after a prompt, special tokens left out, and collects the text: each
/// token is pushed, and what is ready is pulled.
pub fn stream_text<T: Tokenizer + ?Sized>(tokenizer: &T, prompt: &[u32], stream: &[u32]) -> (r:
    Result<String>)
    ensures
        text_of(r) == stream_result(rendering(tokenizer, true), prompt@, stream@),
        r is Ok <==> stream_result(rendering(tokenizer, true), prompt@, stream@) is Some,
        r matches Ok(text) ==> stream_result(rendering(tokenizer, true), prompt@, stream@) == Some(
            text@,
        ),
        text_is_owed(rendering(tokenizer, true), prompt@, stream@) ==> text_of(r) == Some(
            generated_text(rendering(tokenizer, true), prompt@, stream@),
        ),
{
    let mut dec = tokenizer.create_decode_stream(prompt, true, 0);
    let ghost render = rendering(tokenizer, true);
    let ghost sliding = choose|sliding: bool|
        {
            &&& sliding ==> is_context_independent(render)
            &&& dec.model() == #[trigger] StreamModel::created(render, sliding, prompt@, 0)
        };
    let ghost start = StreamModel::created(render, sliding, prompt@, 0);
    let ghost result = stream_result(render, prompt@, stream@);
    proof {
        if sliding {
            sliding_does_not_show(render, prompt@, stream@, 0);
        }
        if text_is_owed(render, prompt@, stream@) {
            owed_text_is_given(render, prompt@, stream@);
        }
    }
    let mut text = String::new();
    let mut i: usize = 0;
    assert(stream@.take(0) =~= seq![]);
    while i < stream.len()
        invariant
            i <= stream@.len(),
            result == stream_result(rendering(tokenizer, true), prompt@, stream@),
            result == streamed_text(render, sliding, prompt@, stream@, 0),
            text_is_owed(rendering(tokenizer, true), prompt@, stream@) ==> result == Some(
                generated_text(rendering(tokenizer, true), prompt@, stream@),
            ),
            start == StreamModel::created(render, sliding, prompt@, 0),
            start.pushed_all(stream@.take(i as int)) is Some,
            same_stream(dec.model(), start.pushed_all(stream@.take(i as int))->0),
            text@ == dec.model().sent,
        decreases stream@.len() - i,
    {
        assert(stream@.take(i + 1).drop_last() =~= stream@.take(i as int));
        let ghost ideal = start.pushed_all(stream@.take(i as int))->0;
        proof {
            chunks_do_not_change_the_stream(dec.model(), ideal, stream@[i as int]);
        }
        match dec.push_token(stream[i]) {
            Ok(_) => {},
            Err(e) => {
                proof {
                    lemma_failure_lasts(start, stream@, i + 1);
                    assert(result is None);
                }
                return Err(e);
            },
        }
        proof {
            chunks_do_not_change_the_stream(
                dec.model(),
                start.pushed_all(stream@.take(i + 1))->0,
                0,
            );
            chunk_keeps_the_text(dec.model());
        }
        if let Some(chunk) = dec.next_chunk() {
            text.append(chunk.as_str());
        }
        i = i + 1;
    }
    assert(stream@.take(i as int) =~= stream@);
    proof {
        chunks_do_not_change_the_stream(dec.model(), start.pushed_all(stream@)->0, 0);
    }
    let ghost before = dec.model();
    let (last, _full) = match dec.flush() {
        Ok(end) => end,
        Err(e) => {
            return Err(e);
        },
    };
    if let Some(chunk) = last {
        text.append(chunk.as_str());
    }
    assert(dec.model().sent =~= before.sent + dec.model().sent.skip(before.sent.len() as int));
    assert(result == Some(text@));
    Ok(text)
}

/// Streams the given tokens after a prompt and returns how many bytes of text came out.
pub fn run_current<T: Tokenizer + ?Sized>(tokenizer: &T, prompt: &[u32], stream: &[u32]) -> (r:
    Result<usize>)
    ensures
        match stream_result(rendering(tokenizer, true), prompt@, stream@) {
            Some(text) => r is Ok && r->Ok_0 == encode_utf8(text).len(),
            None => r is Err,
        },
        text_is_owed(rendering(tokenizer, true), prompt@, stream@) ==> r is Ok && r->Ok_0
            == encode_utf8(generated_text(rendering(tokenizer, true), prompt@, stream@)).len(),
{
    match stream_text(tokenizer, prompt, stream) {
        Ok(text) => Ok(text.as_str().as_bytes().len()),
        Err(e) => Err(e),
    }
}

} // verus!
