//! Detokenization without decoding: the bytes of every token, computed once.
use crate::byte_level::{byte_to_char, from_byte_level, spelled_bytes};
use crate::streaming::{joined_bytes_concat, stream_text_is_that_of_the_bytes, streamed_text};
use crate::tokenizer::{decodes_bytewise, joined_bytes, Tokenizer};
use crate::utf8::{
    ends_whole, from_utf8_lossy, lossy, lossy_of_valid, valid_prefix_len, valid_prefix_of_valid,
    valid_prefix_splits, valid_up_to,
};
use vstd::prelude::*;
use vstd::utf8::*;

verus! {

/// The bytes of a vocabulary entry; an ID without an entry has none.
pub open spec fn entry_bytes(entry: Option<String>) -> Seq<u8> {
    match entry {
        Some(token) => spelled_bytes(token@),
        None => seq![],
    }
}

/// The bytes of each vocabulary entry.
pub open spec fn entries_bytes(entries: Seq<Option<String>>) -> Seq<Seq<u8>> {
    entries.map_values(|entry: Option<String>| entry_bytes(entry))
}

/// Decodes a byte-level vocabulary by table lookup: per token its bytes are appended, and the
/// longest valid UTF-8 prefix is emitted.
pub struct MemoDecoder {
    id_bytes: Vec<Vec<u8>>,
    pending: Vec<u8>,
}

impl MemoDecoder {
    /// The bytes of each token, by ID.
    pub closed spec fn table(&self) -> Seq<Seq<u8>> {
        self.id_bytes@.map_values(|bytes: Vec<u8>| bytes@)
    }

    /// The bytes that have not been emitted yet.
    pub closed spec fn pending(&self) -> Seq<u8> {
        self.pending@
    }

    /// The bytes of a token, or `None` if its ID lies outside the table.
    pub open spec fn token_bytes(&self) -> spec_fn(u32) -> Option<Seq<u8>> {
        |id: u32|
            if (id as int) < self.table().len() {
                Some(self.table()[id as int])
            } else {
                None
            }
    }

    /// Whether all of the given IDs lie inside the table.
    pub open spec fn covers(&self, token_ids: Seq<u32>) -> bool {
        forall|i: int| 0 <= i < token_ids.len() ==> #[trigger] token_ids[i] < self.table().len()
    }

    /// The bytes of a token sequence.
    pub open spec fn bytes_of(&self, token_ids: Seq<u32>) -> Seq<u8> {
        joined_bytes(token_ids, self.token_bytes())->0
    }

    /// A token sequence inside the table has bytes.
    pub proof fn covered_has_bytes(&self, token_ids: Seq<u32>)
        requires
            self.covers(token_ids),
        ensures
            joined_bytes(token_ids, self.token_bytes()) is Some,
        decreases token_ids.len(),
    {
        if token_ids.len() > 0 {
            self.covered_has_bytes(token_ids.drop_last());
        }
    }

    /// Builds the decoder from the vocabulary entries of all IDs, from 0 on.
    pub fn from_entries(entries: &Vec<Option<String>>) -> (r: Self)
        ensures
            r.table() == entries_bytes(entries@),
            r.pending() == Seq::<u8>::empty(),
    {
        let alphabet = byte_to_char();
        let mut id_bytes: Vec<Vec<u8>> = Vec::new();
        let mut i: usize = 0;
        while i < entries.len()
            invariant
                i <= entries@.len(),
                id_bytes@.len() == i,
                crate::byte_level::is_alphabet(&alphabet),
                forall|j: int| 0 <= j < i ==> (#[trigger] id_bytes@[j])@ == entry_bytes(entries@[j]),
            decreases entries@.len() - i,
        {
            let bytes: Vec<u8> = match &entries[i] {
                Some(token) => from_byte_level(token.as_str(), &alphabet),
                None => Vec::new(),
            };
            id_bytes.push(bytes);
            i = i + 1;
        }
        let r = MemoDecoder { id_bytes, pending: Vec::new() };
        assert(r.table() =~= entries_bytes(entries@));
        r
    }

    /// Builds the decoder for the IDs from 0 to `max_id` of a tokenizer.
    pub fn new<T: Tokenizer>(tokenizer: &T, max_id: u32) -> (r: Self)
        ensures
            r.pending() == Seq::<u8>::empty(),
            r.table().len() == max_id + 1,
            exists|entries: Seq<Option<String>>|
                {
                    &&& entries.len() == max_id + 1
                    &&& forall|i: u32|
                        i <= max_id ==> call_ensures(
                            T::id_to_token,
                            (tokenizer, i),
                            #[trigger] entries[i as int],
                        )
                    &&& r.table() == #[trigger] entries_bytes(entries)
                },
    {
        let mut entries: Vec<Option<String>> = Vec::new();
        let mut id: u32 = 0;
        loop
            invariant_except_break
                entries@.len() == id,
            invariant
                id <= max_id,
                forall|i: u32|
                    i < entries@.len() ==> call_ensures(
                        T::id_to_token,
                        (tokenizer, i),
                        #[trigger] entries@[i as int],
                    ),
            ensures
                entries@.len() == max_id + 1,
            decreases max_id - id,
        {
            let entry = tokenizer.id_to_token(id);
            entries.push(entry);
            if id == max_id {
                break;
            }
            id = id + 1;
        }
        let r = MemoDecoder::from_entries(&entries);
        assert(r.table() =~= entries_bytes(entries@));
        r
    }

    /// Forgets the bytes that have not been emitted.
    pub fn clear(&mut self)
        ensures
            final(self).table() == old(self).table(),
            final(self).pending() == Seq::<u8>::empty(),
    {
        self.pending.clear();
    }

    /// Appends the bytes of a token to those that wait.
    fn append(&mut self, id: u32)
        requires
            id < old(self).table().len(),
        ensures
            final(self).table() == old(self).table(),
            final(self).pending() == old(self).pending() + old(self).table()[id as int],
    {
        let mut bytes: Vec<u8> = self.id_bytes[id as usize].clone();
        assert(bytes@ =~= self.table()[id as int]);
        self.pending.append(&mut bytes);
    }

    /// Takes one token and returns the number of newly emitted bytes: the longest valid UTF-8
    /// prefix of what waits. The incomplete tail is retained.
    pub fn push(&mut self, id: u32) -> (emitted: usize)
        requires
            id < old(self).table().len(),
        ensures
            final(self).table() == old(self).table(),
            ({
                let bytes = old(self).pending() + old(self).table()[id as int];
                &&& emitted == valid_prefix_len(bytes)
                &&& emitted <= bytes.len()
                &&& final(self).pending() == bytes.skip(emitted as int)
            }),
    {
        self.append(id);
        let ghost bytes = self.pending@;
        let valid: usize = valid_up_to(self.pending.as_slice());
        if valid == 0 {
            assert(bytes.skip(0) =~= bytes);
            return 0;
        }
        self.pending = self.pending.split_off(valid);
        assert(self.pending@ =~= bytes.skip(valid as int));
        valid
    }

    /// The bytes of a token sequence, one token after the other.
    pub fn stream_bytes(&self, stream: &[u32]) -> (bytes: Vec<u8>)
        requires
            self.covers(stream@),
        ensures
            bytes@ == self.bytes_of(stream@),
    {
        let mut bytes: Vec<u8> = Vec::new();
        let mut i: usize = 0;
        while i < stream.len()
            invariant
                i <= stream@.len(),
                self.covers(stream@),
                bytes@ == self.bytes_of(stream@.take(i as int)),
            decreases stream@.len() - i,
        {
            let id: u32 = stream[i];
            proof {
                self.covered_has_bytes(stream@.take(i as int));
                assert(stream@.take(i + 1).drop_last() =~= stream@.take(i as int));
                assert(stream@[i as int] < self.table().len());
            }
            let mut more: Vec<u8> = self.id_bytes[id as usize].clone();
            assert(more@ =~= self.table()[id as int]);
            bytes.append(&mut more);
            i = i + 1;
        }
        assert(stream@.take(i as int) =~= stream@);
        bytes
    }
}

/// The text of a token sequence by table lookup alone.
pub fn memo_text(memo: &MemoDecoder, stream: &[u32]) -> (text: String)
    requires
        memo.covers(stream@),
    ensures
        text@ == lossy(memo.bytes_of(stream@)),
{
    let bytes = memo.stream_bytes(stream);
    from_utf8_lossy(bytes.as_slice())
}

/// Streams the given tokens after a prompt and returns how many bytes came out. The bytes of the
/// prompt are consumed, not emitted.
pub fn run_ideal(memo: &mut MemoDecoder, prompt: &[u32], stream: &[u32]) -> (emitted: usize)
    requires
        old(memo).covers(prompt@),
        old(memo).covers(stream@),
        old(memo).bytes_of(stream@).len() <= usize::MAX,
    ensures
        final(memo).table() == old(memo).table(),
        emitted == valid_prefix_len(old(memo).bytes_of(stream@)),
        final(memo).pending() == old(memo).bytes_of(stream@).skip(emitted as int),
{
    memo.clear();
    let mut i: usize = 0;
    while i < prompt.len()
        invariant
            i <= prompt@.len(),
            memo.table() == old(memo).table(),
            old(memo).covers(prompt@),
        decreases prompt@.len() - i,
    {
        assert(prompt@[i as int] < memo.table().len());
        memo.append(prompt[i]);
        i = i + 1;
    }
    memo.clear();
    let mut emitted: usize = 0;
    let mut k: usize = 0;
    let ghost lookup = old(memo).token_bytes();
    assert(stream@.take(0) =~= seq![]);
    assert(memo.pending() =~= Seq::<u8>::empty().skip(0));
    while k < stream.len()
        invariant
            k <= stream@.len(),
            memo.table() == old(memo).table(),
            lookup == old(memo).token_bytes(),
            old(memo).covers(stream@),
            old(memo).bytes_of(stream@).len() <= usize::MAX,
            joined_bytes(stream@.take(k as int), lookup) is Some,
            emitted == valid_prefix_len(joined_bytes(stream@.take(k as int), lookup)->0),
            emitted <= joined_bytes(stream@.take(k as int), lookup)->0.len(),
            memo.pending() == joined_bytes(stream@.take(k as int), lookup)->0.skip(emitted as int),
        decreases stream@.len() - k,
    {
        let id: u32 = stream[k];
        proof {
            assert(stream@[k as int] < memo.table().len());
            assert(stream@.take(k + 1).drop_last() =~= stream@.take(k as int));
            let a = joined_bytes(stream@.take(k as int), lookup)->0;
            let b = memo.table()[id as int];
            assert(joined_bytes(stream@.take(k + 1), lookup) == Some(a + b));
            valid_prefix_splits(a, b);
            valid_prefix_splits(a.skip(emitted as int) + b, seq![]);
            old(memo).covered_has_bytes(stream@);
            joined_bytes_concat(stream@.take(k + 1), stream@.skip(k + 1), lookup);
            assert(stream@.take(k + 1) + stream@.skip(k + 1) =~= stream@);
        }
        let n: usize = memo.push(id);
        emitted = emitted + n;
        assert(memo.pending() =~= joined_bytes(stream@.take(k + 1), lookup)->0.skip(
            emitted as int,
        ));
        k = k + 1;
    }
    assert(stream@.take(k as int) =~= stream@);
    emitted
}

/// The table of a vocabulary has one row for each entry: the bytes that the entry spells, or none
/// where there is no entry.
pub proof fn entries_have_the_bytes_they_spell(entries: Seq<Option<String>>)
    ensures
        entries_bytes(entries).len() == entries.len(),
        forall|i: int|
            0 <= i < entries.len() ==> #[trigger] entries_bytes(entries)[i] == (match entries[i] {
                Some(token) => spelled_bytes(token@),
                None => Seq::<u8>::empty(),
            }),
{
}

/// A table covers exactly the sequences all of whose IDs lie inside it, and gives them the rows of
/// their tokens, one after the other.
pub proof fn covered_tokens_have_their_rows(memo: MemoDecoder, token_ids: Seq<u32>)
    ensures
        memo.covers(token_ids) <==> (forall|i: int|
            0 <= i < token_ids.len() ==> #[trigger] token_ids[i] < memo.table().len()),
        memo.covers(token_ids) ==> memo.bytes_of(token_ids) == token_ids.map_values(
            |id: u32| memo.table()[id as int],
        ).flatten(),
    decreases token_ids.len(),
{
    let rows = |id: u32| memo.table()[id as int];
    if memo.covers(token_ids) {
        memo.covered_has_bytes(token_ids);
        let all = token_ids.map_values(rows);
        if token_ids.len() == 0 {
            assert(all.flatten() =~= Seq::<u8>::empty());
        } else {
            let rest = token_ids.drop_last();
            covered_tokens_have_their_rows(memo, rest);
            assert(token_ids[token_ids.len() - 1] < memo.table().len());
            assert(all =~= rest.map_values(rows).push(rows(token_ids.last())));
            rest.map_values(rows).lemma_flatten_push(rows(token_ids.last()));
        }
    }
}

/// Table lookup and incremental decoding agree: where the table holds what a context-independent
/// decoder makes of each token, and the prompt does not end inside a character, the text of a
/// stream is the text of the looked up bytes.
pub proof fn memo_agrees_with_stream(
    memo: MemoDecoder,
    render: spec_fn(Seq<u32>) -> Option<Seq<char>>,
    token_bytes: spec_fn(u32) -> Option<Seq<u8>>,
    sliding: bool,
    prompt: Seq<u32>,
    generated: Seq<u32>,
    min_bytes: nat,
)
    requires
        decodes_bytewise(render, token_bytes),
        joined_bytes(prompt, token_bytes) is Some,
        ends_whole(joined_bytes(prompt, token_bytes)->0),
        memo.covers(generated),
        forall|i: int|
            0 <= i < generated.len() ==> token_bytes(#[trigger] generated[i])
                == memo.token_bytes()(generated[i]),
    ensures
        streamed_text(render, sliding, prompt, generated, min_bytes) == Some(
            lossy(memo.bytes_of(generated)),
        ),
{
    memo.covered_has_bytes(generated);
    same_bytes(generated, token_bytes, memo.token_bytes());
    joined_bytes_concat(prompt, generated, token_bytes);
    stream_text_is_that_of_the_bytes(render, token_bytes, sliding, prompt, generated, min_bytes);
}

/// Two lookups that agree on the tokens of a sequence give it the same bytes.
pub proof fn same_bytes(
    token_ids: Seq<u32>,
    a: spec_fn(u32) -> Option<Seq<u8>>,
    b: spec_fn(u32) -> Option<Seq<u8>>,
)
    requires
        forall|i: int| 0 <= i < token_ids.len() ==> a(#[trigger] token_ids[i]) == b(token_ids[i]),
    ensures
        joined_bytes(token_ids, a) == joined_bytes(token_ids, b),
    decreases token_ids.len(),
{
    if token_ids.len() > 0 {
        let rest = token_ids.drop_last();
        assert forall|i: int| 0 <= i < rest.len() implies a(#[trigger] rest[i]) == b(rest[i]) by {
            assert(rest[i] == token_ids[i]);
        }
        same_bytes(rest, a, b);
        assert(token_ids[token_ids.len() - 1] == token_ids.last());
    }
}

/// Valid UTF-8 is emitted whole, and its text takes exactly these bytes.
pub proof fn valid_stream_is_emitted_whole(bytes: Seq<u8>)
    requires
        valid_utf8(bytes),
    ensures
        valid_prefix_len(bytes) == bytes.len(),
        encode_utf8(lossy(bytes)) == bytes,
{
    valid_prefix_of_valid(bytes);
    lossy_of_valid(bytes);
    decode_utf8_encode_utf8(bytes);
}

} // verus!
