# vllm_tokenizer

Tokenizers and incremental detokenization, written and proved in Verus.

- `src/tokenizer.rs` — the `Tokenizer` trait and what it means to decode context-independently.
- `src/incremental.rs` — incremental decoders: the state machine and `DecodeStream`.
- `src/streaming.rs` — whole streams, and the laws on their text.
- `src/utf8.rs`, `src/text.rs` — lossy UTF-8 and character sequences.
- `src/byte_level.rs` — the byte-level alphabet.
- `src/memo.rs` — detokenization by table lookup.
- `src/pieces.rs`, `src/fixture.rs` — a synthetic byte-level tokenizer made from sample text.
- `app/` — a profiling harness that compares the two ways to detokenize.

A tokenizer implements `Detokenizer` (`decode`) and `Tokenizer` (everything else). Their spec
functions have defaults, so an implementation that is not verified writes executable methods only.
