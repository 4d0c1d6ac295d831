use std::sync::{Arc, Mutex};
use vllm_tokenizer::fixture::VocabTokenizer;
use vllm_tokenizer::streaming::{run_current, stream_text};
use vllm_tokenizer::{
    DecodeStream, Detokenizer, DynTokenizer, IncrementalDecoder, Result, Tokenizer, TokenizerError,
};

/// One token per byte; IDs from 256 on cannot be decoded.
struct Bytes {
    independent: bool,
}

impl Detokenizer for Bytes {
    fn decode(&self, token_ids: &[u32], _skip_special_tokens: bool) -> Result<String> {
        let mut bytes = Vec::new();
        for &id in token_ids {
            if id > 255 {
                return Err(TokenizerError { message: format!("unknown token {id}") });
            }
            bytes.push(id as u8);
        }
        Ok(String::from_utf8_lossy(&bytes).into_owned())
    }
}

impl Tokenizer for Bytes {
    fn encode(&self, text: &str, _add_special_tokens: bool) -> Result<Vec<u32>> {
        Ok(text.bytes().map(|b| b as u32).collect())
    }

    fn token_to_id(&self, token: &str) -> Option<u32> {
        match token.as_bytes() {
            [b] => Some(*b as u32),
            _ => None,
        }
    }

    fn decode_is_context_independent(&self) -> bool {
        self.independent
    }
}

/// Words that start with a blank, except at the start of a sequence.
struct Words;

impl Detokenizer for Words {
    fn decode(&self, token_ids: &[u32], _skip_special_tokens: bool) -> Result<String> {
        let words = ["the", "quick", "fox"];
        let picked: Vec<&str> = token_ids.iter().map(|&id| words[id as usize % 3]).collect();
        Ok(picked.join(" "))
    }
}

impl Tokenizer for Words {
    fn encode(&self, _text: &str, _add_special_tokens: bool) -> Result<Vec<u32>> {
        Ok(vec![])
    }

    fn token_to_id(&self, _token: &str) -> Option<u32> {
        None
    }
}

fn ids(bytes: &[u8]) -> Vec<u32> {
    bytes.iter().map(|&b| b as u32).collect()
}

#[test]
fn defaults_of_a_tokenizer() {
    let t: DynTokenizer = Arc::new(Words);
    assert_eq!(t.id_to_token(0), None);
    assert_eq!(t.vocab_size(), usize::MAX);
    assert!(!t.is_special_id(0));
    assert!(!t.decode_is_context_independent());
    assert_eq!(t.token_to_id("the"), None);
    assert_eq!(t.encode("the", true).unwrap(), Vec::<u32>::new());
    assert_eq!(t.decode(&[0, 1], false).unwrap(), "the quick");
}

#[test]
fn shared_tokenizer_streams() {
    let t: DynTokenizer = Arc::new(Words);
    let mut d = t.create_decode_stream(&[0], true, 0);
    d.push_token(1).unwrap();
    assert_eq!(d.next_chunk(), Some(" quick".to_string()));
    assert_eq!(d.next_chunk(), None);
    d.push_token(2).unwrap();
    let (last, full) = d.flush().unwrap();
    assert_eq!(last, Some(" fox".to_string()));
    assert_eq!(full, " quick fox");
}

#[test]
fn context_dependent_text_needs_the_full_prompt() {
    assert_eq!(stream_text(&Words, &[0, 1], &[2, 0]).unwrap(), " fox the");
    assert_eq!(stream_text(&Words, &[], &[2, 0]).unwrap(), "fox the");
    assert_eq!(run_current(&Words, &[0, 1], &[2, 0]).unwrap(), 8);
}

#[test]
fn characters_are_held_until_they_are_complete() {
    for independent in [false, true] {
        let t = Bytes { independent };
        let mut d = t.create_decode_stream(&ids(b"ab"), true, 0);
        for b in [0xE2u32, 0x82] {
            d.push_token(b).unwrap();
            assert_eq!(d.next_chunk(), None);
        }
        d.push_token(0xAC).unwrap();
        assert_eq!(d.next_chunk(), Some("€".to_string()));
        d.push_token(b'x' as u32).unwrap();
        d.push_token(0xF0).unwrap();
        assert_eq!(d.next_chunk(), Some("x".to_string()));
        let (last, full) = d.flush().unwrap();
        assert_eq!(last, Some("\u{FFFD}".to_string()));
        assert_eq!(full, "€x\u{FFFD}");
        assert_eq!(d.flush().unwrap(), (None, "€x\u{FFFD}".to_string()));
    }
}

#[test]
fn prompt_text_is_not_emitted_again() {
    for independent in [false, true] {
        let t = Bytes { independent };
        let prompt = ids("Hello, 世界".as_bytes());
        let stream = ids("! ça va".as_bytes());
        assert_eq!(stream_text(&t, &prompt, &stream).unwrap(), "! ça va");
        assert_eq!(run_current(&t, &prompt, &stream).unwrap(), "! ça va".len());
    }
}

#[test]
fn prompt_gives_left_context_to_the_first_token() {
    for independent in [false, true] {
        let t = Bytes { independent };
        assert_eq!(stream_text(&t, &ids(b"a\xE2\x82"), &ids(b"\xACb")).unwrap(), "€b");
        assert_eq!(stream_text(&t, &ids(b"\xE2"), &ids(b"\x82\xACb")).unwrap(), "€b");
        assert_eq!(stream_text(&t, &ids(b"a\xF0\x9F"), &ids(b"\x98\x80")).unwrap(), "\u{1F600}");
        assert_eq!(stream_text(&t, &ids("a\u{FFFD}".as_bytes()), &ids(b"b")).unwrap(), "b");
    }
}

#[test]
fn sliding_and_full_context_agree_on_broken_bytes() {
    let streams: [&[u8]; 5] =
        [b"\xFF\xFEa", b"\x80\x80", b"a\xE2\x28\xA1b", b"\xF0\x90\xF0\x90\x80\x80", b""];
    let prompts: [&[u8]; 5] = [b"", b"ok", b"\xE2\x82", b"\x80", b"x\xF0\x9F\x98"];
    for p in prompts {
        for s in streams {
            let full = stream_text(&Bytes { independent: false }, &ids(p), &ids(s)).unwrap();
            let sliding = stream_text(&Bytes { independent: true }, &ids(p), &ids(s)).unwrap();
            assert_eq!(full, sliding, "{:?} {:?}", p, s);
        }
    }
}

#[test]
fn tokens_that_cannot_be_decoded_are_refused() {
    for independent in [false, true] {
        let t = Bytes { independent };
        let mut d = t.create_decode_stream(&ids(b"a"), true, 0);
        d.push_token(b'b' as u32).unwrap();
        let err = d.push_token(256).unwrap_err();
        assert_eq!(err.message, "unknown token 256");
        d.push_token(b'c' as u32).unwrap();
        assert_eq!(d.flush().unwrap(), (Some("bc".to_string()), "bc".to_string()));
        assert!(stream_text(&t, &[], &[97, 256, 98]).is_err());
        assert!(run_current(&t, &[], &[300]).is_err());
    }
}

#[test]
fn prompt_that_cannot_be_decoded_is_refused_when_it_is_needed() {
    for independent in [false, true] {
        let t = Bytes { independent };
        let mut d = t.create_decode_stream(&[256, 97, 98], true, 0);
        assert!(d.push_token(97).is_err());
        assert!(d.flush().is_err());
        assert_eq!(d.next_chunk(), None);
    }
}

/// Keeps the token sequences that it was asked to decode.
struct Recorder {
    independent: bool,
    asked: Mutex<Vec<Vec<u32>>>,
}

impl Detokenizer for Recorder {
    fn decode(&self, token_ids: &[u32], skip_special_tokens: bool) -> Result<String> {
        self.asked.lock().unwrap().push(token_ids.to_vec());
        Bytes { independent: self.independent }.decode(token_ids, skip_special_tokens)
    }
}

impl Tokenizer for Recorder {
    fn encode(&self, _text: &str, _add_special_tokens: bool) -> Result<Vec<u32>> {
        Ok(vec![])
    }

    fn token_to_id(&self, _token: &str) -> Option<u32> {
        None
    }

    fn decode_is_context_independent(&self) -> bool {
        self.independent
    }
}

#[test]
fn full_prompt_is_decoded_unless_decoding_is_context_independent() {
    let t = Recorder { independent: false, asked: Mutex::new(vec![]) };
    let prompt = ids(b"abc");
    let mut d = t.create_decode_stream(&prompt, true, 0);
    d.push_token(b'd' as u32).unwrap();
    d.push_token(b'e' as u32).unwrap();
    assert_eq!(d.next_chunk(), Some("de".to_string()));
    let asked = t.asked.lock().unwrap();
    assert_eq!(asked[..2], [ids(b"abc"), ids(b"abcd")]);
    assert!(asked.iter().all(|seq| seq.starts_with(&prompt)));
}

#[test]
fn decoded_suffix_is_the_seed_where_decoding_is_context_independent() {
    let t = Recorder { independent: true, asked: Mutex::new(vec![]) };
    let mut d = t.create_decode_stream(&ids(b"ab\xC3\xA9"), true, 0);
    t.asked.lock().unwrap().clear();
    d.push_token(b'd' as u32).unwrap();
    d.push_token(b'e' as u32).unwrap();
    assert_eq!(d.next_chunk(), Some("de".to_string()));
    let asked = t.asked.lock().unwrap();
    assert_eq!(asked[..], [ids(b"\xC3\xA9"), ids(b"\xC3\xA9d"), ids(b""), ids(b"e")]);
}

#[test]
fn streams_answer_the_same_whether_they_slide_or_not() {
    let t = Bytes { independent: true };
    let inputs: [&[u32]; 4] = [
        &[0xE2, 0x82, 0xAC, 97, 0xF0, 300, 0x9F, 98],
        &[0x82, 0xAC, 99],
        &[300, 300],
        &[0x80, 0xC3, 0xA9],
    ];
    let prompts: [&[u32]; 4] = [&[], &[97, 0xE2], &[300, 97], &[0xE2, 0x82]];
    for prompt in prompts {
        for input in inputs {
            for min_bytes in [0usize, 2] {
                let mut a = DecodeStream::new(&t, true, prompt, true, min_bytes);
                let mut b = DecodeStream::new(&t, false, prompt, true, min_bytes);
                for round in 0..2 {
                    for (i, &id) in input.iter().enumerate() {
                        assert_eq!(a.push_token(id).is_ok(), b.push_token(id).is_ok());
                        if i % 2 == round {
                            assert_eq!(a.next_chunk(), b.next_chunk());
                        }
                    }
                    assert_eq!(a.flush().ok(), b.flush().ok());
                }
            }
        }
    }
}

#[test]
fn buffer_keeps_the_asked_bytes() {
    let t = Bytes { independent: true };
    let mut d = t.create_decode_stream(&[], true, 3);
    let mut out = String::new();
    for b in "abc€de".bytes() {
        d.push_token(b as u32).unwrap();
        if let Some(chunk) = d.next_chunk() {
            assert!(!chunk.is_empty());
            out.push_str(&chunk);
        }
    }
    assert_eq!(out, "abc");
    let (last, full) = d.flush().unwrap();
    assert_eq!(last, Some("€de".to_string()));
    assert_eq!(full, "abc€de");
}

#[test]
fn chunks_add_up_to_the_full_text() {
    let t = Bytes { independent: true };
    for min_bytes in 0..6usize {
        let mut d = DecodeStream::new(&t, true, &ids(b"p"), true, min_bytes);
        let mut out = String::new();
        for (i, b) in "some wörds, 世界".bytes().enumerate() {
            d.push_token(b as u32).unwrap();
            if i % 2 == 0 {
                if let Some(chunk) = d.next_chunk() {
                    out.push_str(&chunk);
                }
            }
        }
        let (last, full) = d.flush().unwrap();
        out.push_str(&last.unwrap_or_default());
        assert_eq!(out, full);
        assert_eq!(full, "some wörds, 世界");
    }
}

#[test]
fn special_tokens_can_be_skipped() {
    let t = VocabTokenizer::new(vec!["<|endoftext|>".to_string(), "a\u{120}".to_string()]);
    let mut skipping = t.create_decode_stream(&[], true, 0);
    skipping.push_token(1).unwrap();
    skipping.push_token(0).unwrap();
    assert_eq!(skipping.flush().unwrap().1, "a ");
    let mut keeping = t.create_decode_stream(&[], false, 0);
    keeping.push_token(1).unwrap();
    keeping.push_token(0).unwrap();
    assert_eq!(keeping.flush().unwrap().1, "a <|endoftext|>");
}
