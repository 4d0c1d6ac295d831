//! Splitting and rendering of byte sequences that are meant to be UTF-8 but need not be.
//!
//! A stream of tokens may end in the middle of a character, so decoders work with two notions:
//! the longest valid prefix of some bytes, and their lossy rendering, in which every ill-formed
//! stretch shows up as one replacement character.
use vstd::prelude::*;
use vstd::utf8::*;

verus! {

/// The character that stands for bytes which do not form a character.
pub const REPLACEMENT: char = '\u{FFFD}';

/// Gives the character with the given number: `char::from_u32` succeeds exactly on the numbers
/// of Unicode scalars, and the character it returns is the one with that number.
pub assume_specification[ char::from_u32 ](i: u32) -> (r: Option<char>)
    ensures
        r == (if is_scalar(i) {
            Some(i as char)
        } else {
            None
        }),
;

/// Appends one character: `String::push` leaves what the string held and puts `c` behind it.
pub assume_specification[ String::push ](s: &mut String, c: char)
    ensures
        final(s)@ == old(s)@.push(c),
;

/// The length in bytes of the longest prefix of `bytes` that is valid UTF-8.
pub open spec fn valid_prefix_len(bytes: Seq<u8>) -> nat
    decreases bytes.len(),
{
    if valid_first_scalar(bytes) {
        (length_of_first_scalar(bytes) + valid_prefix_len(pop_first_scalar(bytes))) as nat
    } else {
        0
    }
}

/// Whether `second` may follow the leading byte `first` of a three or four byte character: the
/// pairs left out start an overlong encoding, a surrogate or a number that is too large.
pub open spec fn second_byte_fits(first: u8, second: u8) -> bool {
    if first == 0xe0 {
        0xa0 <= second <= 0xbf
    } else if first == 0xed {
        0x80 <= second <= 0x9f
    } else if first == 0xf0 {
        0x90 <= second <= 0xbf
    } else if first == 0xf4 {
        0x80 <= second <= 0x8f
    } else {
        0xe0 <= first <= 0xf4 && 0x80 <= second <= 0xbf
    }
}

/// The length of the ill-formed stretch at the start of bytes that begin with no valid
/// character: as many bytes as could still start a character, and at least one.
pub open spec fn broken_len(bytes: Seq<u8>) -> nat
    recommends
        bytes.len() > 0,
{
    if bytes.len() < 2 || !second_byte_fits(bytes[0], bytes[1]) {
        1
    } else if bytes.len() < 3 || bytes[0] < 0xf0 || !is_continuation_byte(bytes[2]) {
        2
    } else {
        3
    }
}

/// The text shown for `bytes`: each valid character as itself, and one replacement character for
/// each ill-formed stretch.
pub open spec fn lossy(bytes: Seq<u8>) -> Seq<char>
    decreases bytes.len(),
{
    if bytes.len() == 0 {
        seq![]
    } else if valid_first_scalar(bytes) {
        seq![decode_first_scalar(bytes) as char] + lossy(pop_first_scalar(bytes))
    } else {
        seq![REPLACEMENT] + lossy(bytes.skip(broken_len(bytes) as int))
    }
}

/// Whether no character of a text may be incomplete at its end.
pub open spec fn settles(text: Seq<char>) -> bool {
    text.len() == 0 || text.last() != REPLACEMENT
}

/// The width of the character at `at`, and its number, if a valid one is there.
fn first_scalar(bytes: &[u8], at: usize) -> (r: Option<(usize, u32)>)
    requires
        at <= bytes@.len(),
    ensures
        r is Some <==> valid_first_scalar(bytes@.subrange(at as int, bytes@.len() as int)),
        r matches Some((width, scalar)) ==> {
            let rest = bytes@.subrange(at as int, bytes@.len() as int);
            &&& width == length_of_first_scalar(rest)
            &&& scalar == decode_first_scalar(rest)
            &&& 0 < width <= bytes@.len() - at
            &&& is_scalar(scalar)
        },
{
    let left: usize = bytes.len() - at;
    if left == 0 {
        return None;
    }
    let b0: u8 = bytes[at];
    if b0 <= 0x7f {
        let scalar: u32 = (b0 & 0x7f) as u32;
        assert((b0 & 0x7f) as u32 <= 0x7f) by (bit_vector);
        return Some((1, scalar));
    }
    if left < 2 || b0 < 0xc0 {
        return None;
    }
    let b1: u8 = bytes[at + 1];
    if b1 < 0x80 || b1 > 0xbf {
        return None;
    }
    if b0 <= 0xdf {
        let scalar: u32 = (((b0 & 0x1f) as u32) << 6) | ((b1 & 0x3f) as u32);
        assert((((b0 & 0x1f) as u32) << 6) | ((b1 & 0x3f) as u32) <= 0x7ff) by (bit_vector);
        if scalar < 0x80 {
            return None;
        }
        return Some((2, scalar));
    }
    if left < 3 {
        return None;
    }
    let b2: u8 = bytes[at + 2];
    if b2 < 0x80 || b2 > 0xbf {
        return None;
    }
    if b0 <= 0xef {
        let scalar: u32 = (((b0 & 0x0f) as u32) << 12) | (((b1 & 0x3f) as u32) << 6) | ((b2 & 0x3f)
            as u32);
        assert((((b0 & 0x0f) as u32) << 12) | (((b1 & 0x3f) as u32) << 6) | ((b2 & 0x3f) as u32)
            <= 0xffff) by (bit_vector);
        if scalar < 0x800 || (0xd800 <= scalar && scalar <= 0xdfff) {
            return None;
        }
        return Some((3, scalar));
    }
    if left < 4 || b0 > 0xf7 {
        return None;
    }
    let b3: u8 = bytes[at + 3];
    if b3 < 0x80 || b3 > 0xbf {
        return None;
    }
    let scalar: u32 = (((b0 & 0x07) as u32) << 18) | (((b1 & 0x3f) as u32) << 12) | (((b2 & 0x3f)
        as u32) << 6) | ((b3 & 0x3f) as u32);
    if scalar < 0x10000 || scalar > 0x10ffff {
        return None;
    }
    Some((4, scalar))
}

/// How many bytes at the start of `bytes` are valid UTF-8, up to the first that is not.
pub fn valid_up_to(bytes: &[u8]) -> (n: usize)
    ensures
        n == valid_prefix_len(bytes@),
        n <= bytes@.len(),
{
    let len: usize = bytes.len();
    let mut at: usize = 0;
    assert(bytes@.subrange(0, bytes@.len() as int) =~= bytes@);
    loop
        invariant
            at <= len == bytes@.len(),
            valid_prefix_len(bytes@) == at + valid_prefix_len(
                bytes@.subrange(at as int, bytes@.len() as int),
            ),
        decreases bytes@.len() - at,
    {
        let ghost rest = bytes@.subrange(at as int, bytes@.len() as int);
        match first_scalar(bytes, at) {
            Some((width, _)) => {
                assert(pop_first_scalar(rest) =~= bytes@.subrange(
                    at + width,
                    bytes@.len() as int,
                ));
                at = at + width;
            },
            None => {
                return at;
            },
        }
    }
}

/// Renders `bytes` as text, with one replacement character for each ill-formed stretch.
pub fn from_utf8_lossy(bytes: &[u8]) -> (text: String)
    ensures
        text@ == lossy(bytes@),
{
    let mut text = String::new();
    let mut at: usize = 0;
    assert(bytes@.subrange(0, bytes@.len() as int) =~= bytes@);
    while at < bytes.len()
        invariant
            at <= bytes@.len(),
            lossy(bytes@) == text@ + lossy(bytes@.subrange(at as int, bytes@.len() as int)),
        decreases bytes@.len() - at,
    {
        let ghost rest = bytes@.subrange(at as int, bytes@.len() as int);
        let ghost before = text@;
        match first_scalar(bytes, at) {
            Some((width, scalar)) => {
                let c: char = match char::from_u32(scalar) {
                    Some(c) => c,
                    None => REPLACEMENT,
                };
                text.push(c);
                assert(pop_first_scalar(rest) =~= bytes@.subrange(
                    at + width,
                    bytes@.len() as int,
                ));
                at = at + width;
                assert(before + lossy(rest) =~= text@ + lossy(pop_first_scalar(rest)));
            },
            None => {
                let width: usize = broken_at(bytes, at);
                text.push(REPLACEMENT);
                assert(rest.skip(width as int) =~= bytes@.subrange(
                    at + width,
                    bytes@.len() as int,
                ));
                at = at + width;
                assert(before + lossy(rest) =~= text@ + lossy(rest.skip(width as int)));
            },
        }
    }
    assert(lossy(bytes@.subrange(at as int, bytes@.len() as int)) =~= seq![]);
    text
}

/// The length of the ill-formed stretch that starts at `at`.
fn broken_at(bytes: &[u8], at: usize) -> (n: usize)
    requires
        at < bytes@.len(),
    ensures
        n == broken_len(bytes@.subrange(at as int, bytes@.len() as int)),
        0 < n <= bytes@.len() - at,
{
    let left: usize = bytes.len() - at;
    if left < 2 || !fits_second(bytes[at], bytes[at + 1]) {
        1
    } else if left < 3 || bytes[at] < 0xf0 || bytes[at + 2] < 0x80 || bytes[at + 2] > 0xbf {
        2
    } else {
        3
    }
}

/// Whether `second` may follow the leading byte `first`.
fn fits_second(first: u8, second: u8) -> (r: bool)
    ensures
        r == second_byte_fits(first, second),
{
    if first == 0xe0 {
        0xa0 <= second && second <= 0xbf
    } else if first == 0xed {
        0x80 <= second && second <= 0x9f
    } else if first == 0xf0 {
        0x90 <= second && second <= 0xbf
    } else if first == 0xf4 {
        0x80 <= second && second <= 0x8f
    } else {
        0xe0 <= first && first <= 0xf4 && 0x80 <= second && second <= 0xbf
    }
}

/// A valid three or four byte character has a second byte that fits its first.
proof fn lemma_valid_second_byte(bytes: Seq<u8>)
    requires
        valid_first_scalar(bytes),
        length_of_first_scalar(bytes) >= 3,
    ensures
        second_byte_fits(bytes[0], bytes[1]),
        length_of_first_scalar(bytes) == 4 <==> bytes[0] >= 0xf0,
{
    let b0 = bytes[0];
    let b1 = bytes[1];
    let b2 = bytes[2];
    if length_of_first_scalar(bytes) == 3 {
        assert({
            let c = codepoint_width_3(b0, b1, b2);
            0xe0 <= b0 <= 0xef && 0x80 <= b1 <= 0xbf && c >= 0x800 && !(0xd800 <= c <= 0xdfff)
                ==> (b0 == 0xe0 ==> b1 >= 0xa0) && (b0 == 0xed ==> b1 <= 0x9f)
        }) by (bit_vector);
    } else {
        let b3 = bytes[3];
        assert({
            let c = codepoint_width_4(b0, b1, b2, b3);
            0xf0 <= b0 <= 0xf7 && 0x80 <= b1 <= 0xbf && 0x10000 <= c <= 0x10ffff ==> b0 <= 0xf4
                && (b0 == 0xf0 ==> b1 >= 0x90) && (b0 == 0xf4 ==> b1 <= 0x8f)
        }) by (bit_vector);
    }
}

/// A valid first character stays the first when more bytes follow.
proof fn lemma_valid_first_extends(a: Seq<u8>, b: Seq<u8>)
    requires
        valid_first_scalar(a),
    ensures
        valid_first_scalar(a + b),
        length_of_first_scalar(a + b) == length_of_first_scalar(a),
        decode_first_scalar(a + b) == decode_first_scalar(a),
        pop_first_scalar(a + b) == pop_first_scalar(a) + b,
{
    assert(pop_first_scalar(a + b) =~= pop_first_scalar(a) + b);
}

/// An ill-formed stretch that has ended, or that the next byte cannot continue, stays as it is
/// when more bytes follow.
proof fn lemma_broken_extends(a: Seq<u8>, b: Seq<u8>)
    requires
        a.len() > 0,
        !valid_first_scalar(a),
        broken_len(a) < a.len() || b.len() == 0 || !is_continuation_byte(b[0]),
    ensures
        !valid_first_scalar(a + b),
        broken_len(a + b) == broken_len(a),
{
    let ab = a + b;
    assert(forall|i: int| 0 <= i < a.len() ==> ab[i] == a[i]);
    if b.len() == 0 {
        assert(ab =~= a);
    } else {
        assert(ab[a.len() as int] == b[0]);
        if valid_first_scalar(ab) && length_of_first_scalar(ab) >= 3 {
            lemma_valid_second_byte(ab);
        }
    }
}

/// The ill-formed stretch at the start of some bytes is not longer than they are.
proof fn lemma_broken_len_bound(a: Seq<u8>)
    requires
        a.len() > 0,
    ensures
        0 < broken_len(a) <= a.len(),
{
}

/// Bytes whose text settles can be rendered on their own: what follows does not change it.
pub proof fn lossy_splits_when_settled(a: Seq<u8>, b: Seq<u8>)
    requires
        settles(lossy(a)),
    ensures
        lossy(a + b) == lossy(a) + lossy(b),
    decreases a.len(),
{
    if a.len() == 0 {
        assert(a + b =~= b);
        assert(lossy(a) + lossy(b) =~= lossy(b));
    } else if valid_first_scalar(a) {
        let rest = pop_first_scalar(a);
        lemma_valid_first_extends(a, b);
        if lossy(rest).len() > 0 {
            assert(lossy(a).last() == lossy(rest).last());
        }
        lossy_splits_when_settled(rest, b);
        assert(lossy(a + b) =~= lossy(a) + lossy(b));
    } else {
        let n = broken_len(a) as int;
        let rest = a.skip(n);
        lemma_broken_len_bound(a);
        if rest.len() == 0 {
            assert(lossy(rest) =~= seq![]);
            assert(lossy(a).last() == REPLACEMENT);
        } else {
            assert(lossy(rest).len() > 0);
            assert(lossy(a).last() == lossy(rest).last());
            lemma_broken_extends(a, b);
            assert((a + b).skip(n) =~= rest + b);
            lossy_splits_when_settled(rest, b);
            assert(lossy(a + b) =~= lossy(a) + lossy(b));
        }
    }
}

/// Whether some bytes surely do not end inside a character.
pub open spec fn ends_whole(bytes: Seq<u8>) -> bool {
    settles(lossy(bytes)) || valid_utf8(bytes)
}

/// Bytes that do not end inside a character can be rendered on their own.
pub proof fn lossy_splits_when_whole(a: Seq<u8>, b: Seq<u8>)
    requires
        ends_whole(a),
    ensures
        lossy(a + b) == lossy(a) + lossy(b),
    decreases a.len(),
{
    if settles(lossy(a)) {
        lossy_splits_when_settled(a, b);
    } else {
        lemma_valid_first_extends(a, b);
        lossy_splits_when_whole(pop_first_scalar(a), b);
        assert(lossy(a + b) =~= lossy(a) + lossy(b));
    }
}

/// Bytes can be rendered in two parts wherever the second does not start with a continuation
/// byte.
pub proof fn lossy_splits_at_boundary(a: Seq<u8>, b: Seq<u8>)
    requires
        b.len() == 0 || !is_continuation_byte(b[0]),
    ensures
        lossy(a + b) == lossy(a) + lossy(b),
    decreases a.len(),
{
    if a.len() == 0 {
        assert(a + b =~= b);
        assert(lossy(a) + lossy(b) =~= lossy(b));
    } else if valid_first_scalar(a) {
        lemma_valid_first_extends(a, b);
        lossy_splits_at_boundary(pop_first_scalar(a), b);
        assert(lossy(a + b) =~= lossy(a) + lossy(b));
    } else {
        let n = broken_len(a) as int;
        lemma_broken_len_bound(a);
        lemma_broken_extends(a, b);
        assert((a + b).skip(n) =~= a.skip(n) + b);
        lossy_splits_at_boundary(a.skip(n), b);
        assert(lossy(a + b) =~= lossy(a) + lossy(b));
    }
}

/// More bytes never make the text shorter.
pub proof fn lossy_grows(a: Seq<u8>, b: Seq<u8>)
    ensures
        lossy(a + b).len() >= lossy(a).len(),
    decreases a.len(),
{
    if a.len() == 0 {
    } else if valid_first_scalar(a) {
        lemma_valid_first_extends(a, b);
        lossy_grows(pop_first_scalar(a), b);
    } else {
        let n = broken_len(a) as int;
        lemma_broken_len_bound(a);
        if n == a.len() {
            assert(lossy(a.skip(n)) =~= seq![]);
            assert(lossy(a + b).len() >= 1);
        } else {
            lemma_broken_extends(a, b);
            assert((a + b).skip(n) =~= a.skip(n) + b);
            lossy_grows(a.skip(n), b);
        }
    }
}

/// Valid UTF-8 is rendered without loss.
pub proof fn lossy_of_valid(bytes: Seq<u8>)
    requires
        valid_utf8(bytes),
    ensures
        lossy(bytes) == decode_utf8(bytes),
    decreases bytes.len(),
{
    if bytes.len() > 0 {
        lossy_of_valid(pop_first_scalar(bytes));
    }
}

/// The text of a string's own bytes is the string.
pub proof fn lossy_of_encoded(text: Seq<char>)
    ensures
        lossy(encode_utf8(text)) == text,
{
    encode_utf8_valid_utf8(text);
    encode_utf8_decode_utf8(text);
    lossy_of_valid(encode_utf8(text));
}

/// The valid prefix is valid, and no longer prefix is.
pub proof fn valid_prefix_is_longest(bytes: Seq<u8>)
    ensures
        partial_valid_utf8(bytes, valid_prefix_len(bytes) as int),
        forall|i: int| #[trigger] partial_valid_utf8(bytes, i) ==> i <= valid_prefix_len(bytes),
    decreases bytes.len(),
{
    if valid_first_scalar(bytes) {
        let w = length_of_first_scalar(bytes);
        let rest = pop_first_scalar(bytes);
        valid_prefix_is_longest(rest);
        let n = valid_prefix_len(bytes) as int;
        assert(pop_first_scalar(bytes.subrange(0, n)) =~= rest.subrange(0, n - w));
        assert forall|i: int| #[trigger] partial_valid_utf8(bytes, i) implies i
            <= valid_prefix_len(bytes) by {
            let head = bytes.subrange(0, i);
            if i > 0 {
                lemma_valid_first_extends(head, bytes.subrange(i, bytes.len() as int));
                assert(head + bytes.subrange(i, bytes.len() as int) =~= bytes);
                assert(pop_first_scalar(head) =~= rest.subrange(0, i - w));
                assert(partial_valid_utf8(rest, i - w));
            }
        }
    } else {
        assert(valid_utf8(bytes.subrange(0, 0)));
        assert forall|i: int| #[trigger] partial_valid_utf8(bytes, i) implies i <= 0 by {
            if i > 0 {
                let head = bytes.subrange(0, i);
                lemma_valid_first_extends(head, bytes.subrange(i, bytes.len() as int));
                assert(head + bytes.subrange(i, bytes.len() as int) =~= bytes);
            }
        }
    }
}

/// Cutting off the valid prefix before more bytes arrive loses nothing: the valid prefixes add
/// up.
pub proof fn valid_prefix_splits(a: Seq<u8>, b: Seq<u8>)
    ensures
        valid_prefix_len(a) <= a.len(),
        valid_prefix_len(a + b) == valid_prefix_len(a) + valid_prefix_len(
            a.skip(valid_prefix_len(a) as int) + b,
        ),
    decreases a.len(),
{
    if valid_first_scalar(a) {
        let rest = pop_first_scalar(a);
        lemma_valid_first_extends(a, b);
        valid_prefix_splits(rest, b);
        assert(a.skip(valid_prefix_len(a) as int) =~= rest.skip(valid_prefix_len(rest) as int));
    } else {
        assert(a.skip(0) =~= a);
    }
}

/// Valid bytes are their own valid prefix.
pub proof fn valid_prefix_of_valid(bytes: Seq<u8>)
    requires
        valid_utf8(bytes),
    ensures
        valid_prefix_len(bytes) == bytes.len(),
    decreases bytes.len(),
{
    if bytes.len() > 0 {
        valid_prefix_of_valid(pop_first_scalar(bytes));
    }
}

/// The replacement character is U+FFFD, and text settles exactly if it does not end in it.
pub proof fn only_the_replacement_character_is_unsettled(text: Seq<char>)
    ensures
        settles(text) <==> (text.len() == 0 || text.last() != '\u{FFFD}'),
{
}

/// No bytes show no text.
pub proof fn lossy_of_nothing()
    ensures
        lossy(Seq::<u8>::empty()) == Seq::<char>::empty(),
{
}

/// A character that is there is shown as itself, and what follows it as it is shown alone.
pub proof fn lossy_shows_characters(c: char, rest: Seq<u8>)
    ensures
        lossy(encode_utf8(seq![c]) + rest) == seq![c] + lossy(rest),
{
    let bytes = encode_utf8(seq![c]);
    assert(encode_utf8(seq![c].drop_first()) =~= seq![]);
    assert(bytes =~= encode_scalar(c as u32));
    encode_utf8_first_scalar(seq![c]);
    char_u32_cast(c, decode_first_scalar(bytes));
    lemma_valid_first_extends(bytes, rest);
    assert(pop_first_scalar(bytes) + rest =~= rest);
    assert(bytes.len() > 0);
}

/// Whether some bytes are the beginning, or the whole, of the UTF-8 of a character.
pub open spec fn starts_a_character(bytes: Seq<u8>) -> bool {
    exists|c: char| bytes.is_prefix_of(#[trigger] encode_scalar(c as u32))
}

/// A valid character at the start of some bytes is that of one character.
proof fn lemma_valid_is_encoded(bytes: Seq<u8>) -> (c: char)
    requires
        valid_first_scalar(bytes),
    ensures
        encode_scalar(c as u32) == take_first_scalar(bytes),
{
    let x = take_first_scalar(bytes);
    assert(valid_first_scalar(x));
    assert(pop_first_scalar(x) =~= seq![]);
    assert(valid_utf8(pop_first_scalar(x)));
    assert(valid_utf8(x));
    decode_utf8_first_scalar(x);
    assert(take_first_scalar(x) =~= x);
    decode_first_scalar(x) as char
}

/// The UTF-8 of a character is a valid character.
proof fn lemma_encoded_is_valid(c: char)
    ensures
        valid_first_scalar(encode_scalar(c as u32)),
        length_of_first_scalar(encode_scalar(c as u32)) == encode_scalar(c as u32).len(),
{
    assert(encode_utf8(seq![c].drop_first()) =~= seq![]);
    assert(encode_utf8(seq![c]) =~= encode_scalar(c as u32));
    encode_utf8_first_scalar(seq![c]);
}

/// A leading byte and a second byte that fits start a character, and so do three bytes of four.
proof fn lemma_fitting_bytes_start_a_character(bytes: Seq<u8>)
    requires
        2 <= bytes.len() <= 3,
        second_byte_fits(bytes[0], bytes[1]),
        bytes.len() == 3 ==> bytes[0] >= 0xf0 && is_continuation_byte(bytes[2]),
    ensures
        starts_a_character(bytes),
{
    let b0 = bytes[0];
    let b1 = bytes[1];
    let b2: u8 = if bytes.len() == 3 {
        bytes[2]
    } else {
        0x80
    };
    if b0 < 0xf0 {
        let y = seq![b0, b1, 0x80u8];
        assert({
            let c = codepoint_width_3(b0, b1, 0x80);
            0xe0 <= b0 <= 0xef && 0x80 <= b1 <= 0xbf && (b0 == 0xe0 ==> b1 >= 0xa0) && (b0 == 0xed
                ==> b1 <= 0x9f) ==> c >= 0x800 && !(0xd800 <= c <= 0xdfff)
        }) by (bit_vector);
        assert(valid_first_scalar(y));
        let c = lemma_valid_is_encoded(y);
        assert(take_first_scalar(y) =~= y);
        assert(bytes.is_prefix_of(encode_scalar(c as u32)));
    } else {
        let y = seq![b0, b1, b2, 0x80u8];
        assert({
            let c = codepoint_width_4(b0, b1, b2, 0x80);
            0xf0 <= b0 <= 0xf4 && 0x80 <= b1 <= 0xbf && 0x80 <= b2 <= 0xbf && (b0 == 0xf0 ==> b1
                >= 0x90) && (b0 == 0xf4 ==> b1 <= 0x8f) ==> 0x10000 <= c <= 0x10ffff
        }) by (bit_vector);
        assert({
            let c = codepoint_width_4(b0, b1, b2, 0x80);
            0x10000 <= c ==> !(0xd800 <= c <= 0xdfff)
        }) by (bit_vector);
        assert(valid_first_scalar(y));
        let c = lemma_valid_is_encoded(y);
        assert(take_first_scalar(y) =~= y);
        assert(bytes.is_prefix_of(encode_scalar(c as u32)));
    }
}

/// The beginning of a character that is not there as a whole: its bytes fit.
proof fn lemma_started_bytes_fit(bytes: Seq<u8>, n: int)
    requires
        2 <= n <= bytes.len(),
        starts_a_character(bytes.take(n)),
        forall|c: char| !(#[trigger] encode_scalar(c as u32)).is_prefix_of(bytes),
    ensures
        n <= 3,
        second_byte_fits(bytes[0], bytes[1]),
        n == 3 ==> bytes[0] >= 0xf0 && is_continuation_byte(bytes[2]),
{
    let x = bytes.take(n);
    let c = choose|c: char| x.is_prefix_of(#[trigger] encode_scalar(c as u32));
    let e = encode_scalar(c as u32);
    lemma_encoded_is_valid(c);
    assert(forall|i: int| 0 <= i < n ==> x[i] == e[i]);
    if e.len() == n {
        assert(e =~= x);
        assert(e.is_prefix_of(bytes));
    }
    lemma_valid_second_byte(e);
    assert(x[0] == bytes[0] && x[1] == bytes[1]);
    if n == 3 {
        assert(x[2] == bytes[2]);
    }
}

/// Bytes that begin with no character show one replacement character for as many of them as
/// could have started one, and at least for the first; then comes what the rest shows.
pub proof fn lossy_marks_ill_formed_bytes(bytes: Seq<u8>, n: int)
    requires
        1 <= n <= bytes.len(),
        forall|c: char| !(#[trigger] encode_scalar(c as u32)).is_prefix_of(bytes),
        n == 1 || starts_a_character(bytes.take(n)),
        n == bytes.len() || !starts_a_character(bytes.take(n + 1)),
    ensures
        lossy(bytes) == seq!['\u{FFFD}'] + lossy(bytes.skip(n)),
{
    if valid_first_scalar(bytes) {
        let c = lemma_valid_is_encoded(bytes);
        assert(encode_scalar(c as u32).is_prefix_of(bytes));
    }
    if n >= 2 {
        lemma_started_bytes_fit(bytes, n);
    }
    if bytes.len() >= 2 && second_byte_fits(bytes[0], bytes[1]) {
        lemma_fitting_bytes_start_a_character(bytes.take(2));
        if bytes.len() >= 3 && bytes[0] >= 0xf0 && is_continuation_byte(bytes[2]) {
            lemma_fitting_bytes_start_a_character(bytes.take(3));
        }
    }
    assert(broken_len(bytes) == n);
}

} // verus!
