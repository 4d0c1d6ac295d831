use vllm_tokenizer::fixture::{
    assign_ids, build_fixture, cross_check, first_ids, max_id, repeat_to, VocabTokenizer,
    END_OF_TEXT, STREAM_TOKENS,
};
use vllm_tokenizer::memo::{memo_text, run_ideal, MemoDecoder};
use vllm_tokenizer::pieces::piece_strings;
use vllm_tokenizer::streaming::{run_current, stream_text};
use vllm_tokenizer::{Detokenizer, Tokenizer};

const SAMPLE: &str = "\
The quick brown fox jumps over the lazy dog. In vLLM, the Rust frontend streams \
decoded tokens back to the client one step at a time, so detokenization runs on \
the hot path for every generated token. fn main() { let mut total = 0u64; for i \
in 0..1024 { total += compute(i); } println!(\"{}\", total); } 请用中英混合总结，\
并给出一个简短的 JSON 示例：{\"ok\": true, \"count\": 42}. The service should stop \
cleanly at EOS and keep decode latency low under concurrent load.\n";

fn strings(list: &[&str]) -> Vec<String> {
    list.iter().map(|s| s.to_string()).collect()
}

#[test]
fn a_space_starts_a_piece() {
    assert_eq!(piece_strings("The quick fox"), strings(&["The", " quick", " fox"]));
    assert_eq!(piece_strings(" a  b "), strings(&[" a", " ", " b", " "]));
    assert_eq!(piece_strings(""), strings(&[]));
}

#[test]
fn long_words_are_chunked() {
    assert_eq!(piece_strings("detokenization"), strings(&["detoke", "nizati", "on"]));
    assert_eq!(piece_strings("frontend streams"), strings(&["fronte", "nd", " strea", "ms"]));
    assert_eq!(piece_strings("sixsix"), strings(&["sixsix"]));
    assert_eq!(piece_strings("请用中英混合总结"), strings(&["请用中英混合", "总结"]));
}

#[test]
fn pieces_add_up_to_the_sample() {
    let pieces = piece_strings(SAMPLE);
    assert_eq!(pieces.concat(), SAMPLE);
    for p in &pieces {
        let n = p.chars().count();
        assert!((1..=6).contains(&n));
        assert!(!p.chars().skip(1).any(|c| c == ' '));
    }
}

#[test]
fn ids_follow_the_first_occurrence() {
    let (vocab, order) = assign_ids(&strings(&["b", "a", "b", "c", "a"]));
    assert_eq!(vocab, strings(&[END_OF_TEXT, "b", "a", "c"]));
    assert_eq!(order, vec![1, 2, 1, 3, 2]);
    let (vocab, order) = assign_ids(&vec![]);
    assert_eq!(vocab, strings(&["<|endoftext|>"]));
    assert_eq!(order, Vec::<u32>::new());
}

#[test]
fn streams_repeat_and_prompts_are_cut() {
    assert_eq!(repeat_to(&vec![1, 2, 3], 8), vec![1, 2, 3, 1, 2, 3, 1, 2]);
    assert_eq!(repeat_to(&vec![1, 2, 3], 2), vec![1, 2]);
    assert_eq!(repeat_to(&vec![], 0), Vec::<u32>::new());
    assert_eq!(first_ids(&vec![1, 2, 3], 2), vec![1, 2]);
    assert_eq!(first_ids(&vec![1, 2, 3], 64), vec![1, 2, 3]);
    assert_eq!(max_id(&vec![4, 9, 2]), 9);
}

#[test]
fn vocabulary_tokenizer_looks_up() {
    let t = VocabTokenizer::new(strings(&[END_OF_TEXT, "a", "\u{120}b", "a"]));
    assert_eq!(t.vocab_size(), 4);
    assert_eq!(t.token_to_id("a"), Some(1));
    assert_eq!(t.token_to_id("\u{120}b"), Some(2));
    assert_eq!(t.token_to_id("zz"), None);
    assert_eq!(t.id_to_token(2), Some("\u{120}b".to_string()));
    assert_eq!(t.id_to_token(4), None);
    assert!(t.is_special_id(0));
    assert!(!t.is_special_id(1));
    assert!(t.decode_is_context_independent());
    assert_eq!(t.decode(&[0, 1, 2, 9], true).unwrap(), "a b");
    assert_eq!(t.decode(&[0, 1], false).unwrap(), "<|endoftext|>a");
    assert!(t.encode("a", false).is_err());
}

#[test]
fn memo_emits_whole_characters() {
    let t = VocabTokenizer::new(strings(&[END_OF_TEXT, "\u{E2}\u{124}", "\u{AC}x", "\u{FF}", "y"]));
    let mut memo = MemoDecoder::new(&t, 4);
    assert_eq!(memo.push(4), 1);
    assert_eq!(memo.push(1), 0);
    assert_eq!(memo.push(2), 4);
    assert_eq!(memo.push(3), 0);
    assert_eq!(memo.push(4), 0);
    memo.clear();
    assert_eq!(memo.push(4), 1);
    assert_eq!(memo.stream_bytes(&[1, 2, 4]), b"\xE2\x82\xACxy".to_vec());
    assert_eq!(memo_text(&memo, &[4, 1, 2]), "y€x");
    assert_eq!(run_ideal(&mut memo, &[1], &[4, 1, 2, 1]), 5);
    assert_eq!(run_ideal(&mut memo, &[4], &[2, 4]), 0);
}

#[test]
fn memo_has_nothing_for_ids_without_entry() {
    let t = VocabTokenizer::new(strings(&[END_OF_TEXT, "a"]));
    let mut memo = MemoDecoder::new(&t, 3);
    assert_eq!(memo.push(3), 0);
    assert_eq!(memo.push(1), 1);
    let mut memo = MemoDecoder::from_entries(&vec![None, Some("bc".to_string())]);
    assert_eq!(memo.push(0), 0);
    assert_eq!(memo.push(1), 2);
}

#[test]
fn fixture_of_the_sample() {
    let fx = build_fixture(SAMPLE);
    assert_eq!(fx.stream.len(), 2048);
    assert_eq!(fx.stream.len(), STREAM_TOKENS);
    assert_eq!(fx.prompt.len(), 64);
    assert_eq!(fx.prompt[..], fx.stream[..64]);
    assert_eq!(fx.stream[0], 1);
    let pieces = piece_strings(SAMPLE);
    let one_round = &fx.stream[..pieces.len()];
    assert_eq!(fx.tokenizer.decode(one_round, true).unwrap(), SAMPLE);
    assert_eq!(fx.stream[pieces.len()], 1);
}

#[test]
fn fixture_of_a_short_sample() {
    let fx = build_fixture("a b");
    assert_eq!(fx.prompt, vec![1, 2]);
    assert_eq!(fx.stream[..5], [1, 2, 1, 2, 1]);
    assert_eq!(cross_check(&fx).unwrap(), "a b".repeat(1024));
}

#[test]
fn memoized_floor_reproduces_the_decoded_text() {
    let fx = build_fixture(SAMPLE);
    let mut memo = MemoDecoder::new(&fx.tokenizer, max_id(&fx.stream));
    let current = stream_text(&fx.tokenizer, &fx.prompt, &fx.stream).unwrap();
    assert_eq!(cross_check(&fx), Some(current.clone()));
    assert!(current.starts_with(SAMPLE));
    assert_eq!(memo_text(&memo, &fx.stream), current);
    let emitted = run_current(&fx.tokenizer, &fx.prompt, &fx.stream).unwrap();
    assert_eq!(emitted, current.len());
    assert_eq!(run_ideal(&mut memo, &fx.prompt, &fx.stream), emitted);
}
