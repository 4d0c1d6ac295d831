use vllm_tokenizer::byte_level::{byte_to_char, char_to_byte, from_byte_level, to_byte_level};
use vllm_tokenizer::text::{chars_of, count_holding, fresh_chars, string_of, width_of};
use vllm_tokenizer::utf8::{from_utf8_lossy, valid_up_to};

#[test]
fn alphabet_has_the_known_values() {
    let table = byte_to_char();
    assert_eq!(table[b'!' as usize], '!');
    assert_eq!(table[b'~' as usize], '~');
    assert_eq!(table[b'a' as usize], 'a');
    assert_eq!(table[0], '\u{100}');
    assert_eq!(table[b' ' as usize], '\u{120}');
    assert_eq!(table[b'\n' as usize], '\u{10A}');
    assert_eq!(table[0x7f], '\u{121}');
    assert_eq!(table[0xa0], '\u{142}');
    assert_eq!(table[0xa1], '\u{A1}');
    assert_eq!(table[0xad], '\u{143}');
    assert_eq!(table[0xff], '\u{FF}');
}

#[test]
fn alphabet_is_injective_and_inverted() {
    let table = byte_to_char();
    for a in 0..256usize {
        assert_eq!(char_to_byte(table[a], &table), Some(a as u8));
        for b in 0..a {
            assert_ne!(table[a], table[b]);
        }
    }
    assert_eq!(char_to_byte(' ', &table), None);
    assert_eq!(char_to_byte('\u{144}', &table), None);
}

#[test]
fn spelling_of_a_string() {
    let table = byte_to_char();
    assert_eq!(to_byte_level("a b\n", &table), "a\u{120}b\u{10A}");
    assert_eq!(to_byte_level("\u{E9}", &table), "\u{C3}\u{A9}");
    assert_eq!(to_byte_level("", &table), "");
}

#[test]
fn any_table_can_spell() {
    let table = ['x'; 256];
    assert_eq!(to_byte_level("\u{E9}!", &table), "xxx");
}

#[test]
fn spelling_round_trips() {
    let table = byte_to_char();
    let text = "请用 mixed\ttext — \u{1F600}";
    let token = to_byte_level(text, &table);
    assert_eq!(from_byte_level(&token, &table), text.as_bytes().to_vec());
    assert!(token.chars().all(|c| c > ' '));
}

#[test]
fn characters_outside_the_alphabet_are_passed_over() {
    let table = byte_to_char();
    assert_eq!(from_byte_level("a b\u{4E00}c", &table), b"abc".to_vec());
}

fn same_as_std(bytes: &[u8]) {
    let expected = match std::str::from_utf8(bytes) {
        Ok(s) => s.len(),
        Err(e) => e.valid_up_to(),
    };
    assert_eq!(valid_up_to(bytes), expected, "{:?}", bytes);
    assert_eq!(from_utf8_lossy(bytes), String::from_utf8_lossy(bytes), "{:?}", bytes);
}

#[test]
fn short_byte_strings_read_as_std_reads_them() {
    same_as_std(&[]);
    for a in 0..=255u8 {
        same_as_std(&[a]);
        for b in 0..=255u8 {
            same_as_std(&[a, b]);
            same_as_std(&[a, b, b'x']);
        }
    }
}

#[test]
fn byte_strings_at_the_edges_read_as_std_reads_them() {
    let edges: [u8; 22] = [
        0x00, 0x41, 0x7f, 0x80, 0x8f, 0x90, 0x9f, 0xa0, 0xbf, 0xc0, 0xc2, 0xdf, 0xe0, 0xe1, 0xed,
        0xef, 0xf0, 0xf1, 0xf4, 0xf5, 0xf7, 0xff,
    ];
    for &a in &edges {
        for &b in &edges {
            for &c in &edges {
                same_as_std(&[a, b, c]);
                for &d in &edges {
                    same_as_std(&[a, b, c, d]);
                    same_as_std(&[a, b, c, d, 0x80]);
                }
            }
        }
    }
}

#[test]
fn valid_prefix_of_a_cut_character() {
    assert_eq!(valid_up_to(b"ab\xE2\x82"), 2);
    assert_eq!(valid_up_to(b"\xE2\x82\xACx"), 4);
    assert_eq!(valid_up_to(b"\xFFab"), 0);
    assert_eq!(from_utf8_lossy(b"ab\xE2\x82"), "ab\u{FFFD}");
    assert_eq!(from_utf8_lossy(b"a\xE2\x82b"), "a\u{FFFD}b");
}

#[test]
fn widths_are_those_of_std() {
    for c in ['\0', 'a', '\u{7F}', '\u{80}', '\u{7FF}', '\u{800}', '\u{FFFF}', '\u{10000}'] {
        assert_eq!(width_of(c), c.len_utf8());
    }
}

#[test]
fn fresh_text_starts_at_the_first_difference() {
    let fresh = |a: &str, b: &str| {
        let r = fresh_chars(&chars_of(a), &chars_of(b));
        string_of(&r, 0, r.len())
    };
    assert_eq!(fresh("ab", "abcd"), "cd");
    assert_eq!(fresh("a\u{FFFD}", "a€b"), "€b");
    assert_eq!(fresh("abc", "ab"), "");
    assert_eq!(fresh("", "x"), "x");
    assert_eq!(string_of(&chars_of("héllo"), 1, 3), "él");
}

#[test]
fn characters_that_hold_some_bytes() {
    let text = chars_of("ab€c");
    assert_eq!(count_holding(&text, 0), 0);
    assert_eq!(count_holding(&text, 1), 1);
    assert_eq!(count_holding(&text, 2), 2);
    assert_eq!(count_holding(&text, 4), 2);
    assert_eq!(count_holding(&text, 5), 3);
    assert_eq!(count_holding(&text, 100), 4);
}
