//! The byte-level alphabet: a printable character for each of the 256 bytes.
//!
//! Vocabularies of byte-level tokenizers are written in this alphabet, so that every byte
//! sequence, valid UTF-8 or not, has a spelling without blanks or control characters.
use vstd::prelude::*;
use vstd::utf8::*;

verus! {

/// Whether a byte is spelled by the character with its own number: the printable characters of
/// ASCII and Latin-1.
pub open spec fn is_nice(b: int) -> bool {
    0x21 <= b <= 0x7e || 0xa1 <= b <= 0xac || 0xae <= b <= 0xff
}

/// How many bytes below `b` are not spelled by the character with their own number.
pub open spec fn shifted_below(b: int) -> nat
    decreases b,
{
    if b <= 0 {
        0
    } else if is_nice(b - 1) {
        shifted_below(b - 1)
    } else {
        shifted_below(b - 1) + 1
    }
}

/// The character that spells a byte: the bytes that are not printable take the characters from
/// number 256 on, in order.
pub open spec fn byte_char(b: u8) -> char {
    if is_nice(b as int) {
        b as char
    } else {
        (256 + shifted_below(b as int)) as char
    }
}

/// The byte that a character spells, if it belongs to the alphabet.
pub open spec fn char_byte(c: char) -> Option<u8> {
    if exists|b: u8| byte_char(b) == c {
        Some(choose|b: u8| byte_char(b) == c)
    } else {
        None
    }
}

/// The byte-level spelling of some bytes.
pub open spec fn spelling(bytes: Seq<u8>) -> Seq<char> {
    bytes.map_values(|b: u8| byte_char(b))
}

/// The bytes that a spelling stands for; characters outside the alphabet stand for nothing.
pub open spec fn spelled_bytes(token: Seq<char>) -> Seq<u8>
    decreases token.len(),
{
    if token.len() == 0 {
        seq![]
    } else {
        match char_byte(token.last()) {
            Some(b) => spelled_bytes(token.drop_last()).push(b),
            None => spelled_bytes(token.drop_last()),
        }
    }
}

/// Whether `table` holds the spelling of each byte at the byte's own place.
pub open spec fn is_alphabet(table: &[char; 256]) -> bool {
    forall|b: u8| #[trigger] table@[b as int] == byte_char(b)
}

proof fn lemma_shifted_below_bound(b: int)
    requires
        0 <= b,
    ensures
        shifted_below(b) <= b,
    decreases b,
{
    if b > 0 {
        lemma_shifted_below_bound(b - 1);
    }
}

proof fn lemma_shifted_below_grows(a: int, b: int)
    requires
        0 <= a < b,
    ensures
        shifted_below(a) <= shifted_below(b),
        !is_nice(a) ==> shifted_below(a) < shifted_below(b),
    decreases b,
{
    if a < b - 1 {
        lemma_shifted_below_grows(a, b - 1);
    }
}

/// No two bytes are spelled alike.
pub proof fn alphabet_is_injective(a: u8, b: u8)
    requires
        byte_char(a) == byte_char(b),
    ensures
        a == b,
{
    lemma_shifted_below_bound(a as int);
    lemma_shifted_below_bound(b as int);
    if a < b {
        lemma_shifted_below_grows(a as int, b as int);
    } else if b < a {
        lemma_shifted_below_grows(b as int, a as int);
    }
}

/// The character of a byte leads back to the byte.
pub proof fn char_byte_inverts_byte_char(b: u8)
    ensures
        char_byte(byte_char(b)) == Some(b),
{
    let c = byte_char(b);
    let found = choose|x: u8| byte_char(x) == c;
    alphabet_is_injective(found, b);
}

/// Spelling some bytes and reading the spelling gives the bytes back.
pub proof fn spelling_round_trip(bytes: Seq<u8>)
    ensures
        spelled_bytes(spelling(bytes)) == bytes,
    decreases bytes.len(),
{
    if bytes.len() > 0 {
        let token = spelling(bytes);
        spelling_round_trip(bytes.drop_last());
        assert(token.drop_last() =~= spelling(bytes.drop_last()));
        char_byte_inverts_byte_char(bytes.last());
        assert(bytes =~= bytes.drop_last().push(bytes.last()));
    } else {
        assert(bytes =~= seq![]);
    }
}

/// A spelling holds no blank and no control character: each of its characters is printable or
/// has a number of 256 or more.
pub proof fn spelling_is_printable(b: u8)
    ensures
        byte_char(b) as u32 >= 256 || is_nice(byte_char(b) as int),
        byte_char(b) != ' ',
        byte_char(b) as u32 <= 511,
{
    lemma_shifted_below_bound(b as int);
}

proof fn lemma_shifted_numbers(b: int)
    requires
        0 <= b <= 256,
    ensures
        shifted_below(b) == (if b <= 0x21 {
            b
        } else if b <= 0x7f {
            0x21
        } else if b <= 0xa1 {
            b - 0x7f + 0x21
        } else if b <= 0xad {
            0x43int
        } else {
            0x44int
        }),
    decreases b,
{
    if b > 0 {
        lemma_shifted_numbers(b - 1);
    }
}

/// The number of the character that spells each byte. A byte from `!` to `~`, and one of the
/// printable upper half, is spelled by the character with its own number; the other bytes are
/// numbered on from 256.
pub proof fn alphabet_numbers(b: u8)
    ensures
        0x21 <= b <= 0x7e ==> byte_char(b) as u32 == b,
        0xa1 <= b <= 0xac ==> byte_char(b) as u32 == b,
        0xae <= b ==> byte_char(b) as u32 == b,
        b <= 0x20 ==> byte_char(b) as u32 == 256 + b,
        0x7f <= b <= 0xa0 ==> byte_char(b) as u32 == 256 + 33 + (b - 0x7f),
        b == 0xad ==> byte_char(b) as u32 == 256 + 67,
{
    lemma_shifted_numbers(b as int);
}

/// A table of the alphabet holds, for every byte, the character with the number of that byte's
/// spelling.
pub proof fn alphabet_table_numbers(table: &[char; 256], b: u8)
    requires
        is_alphabet(table),
    ensures
        0x21 <= b <= 0x7e ==> table@[b as int] as u32 == b,
        0xa1 <= b <= 0xac ==> table@[b as int] as u32 == b,
        0xae <= b ==> table@[b as int] as u32 == b,
        b <= 0x20 ==> table@[b as int] as u32 == 256 + b,
        0x7f <= b <= 0xa0 ==> table@[b as int] as u32 == 256 + 33 + (b - 0x7f),
        b == 0xad ==> table@[b as int] as u32 == 256 + 67,
{
    alphabet_numbers(b);
    assert(table@[b as int] == byte_char(b));
}

/// A spelling has one character for each byte: that of the byte.
pub proof fn spelling_goes_byte_by_byte(bytes: Seq<u8>)
    ensures
        spelling(bytes).len() == bytes.len(),
        forall|i: int|
            0 <= i < bytes.len() ==> #[trigger] spelling(bytes)[i] == byte_char(bytes[i]),
{
}

/// Printable ASCII without blanks is its own spelling, and reads back as itself.
pub proof fn printable_ascii_spells_itself(text: Seq<char>)
    requires
        forall|i: int| 0 <= i < text.len() ==> '!' <= #[trigger] text[i] <= '~',
    ensures
        spelling(encode_utf8(text)) == text,
        spelled_bytes(text) == encode_utf8(text),
{
    is_ascii_chars_encode_utf8(text);
    let bytes = encode_utf8(text);
    assert forall|i: int| 0 <= i < text.len() implies #[trigger] spelling(bytes)[i] == text[i] by {
        assert(text[i] as u8 == bytes[i]);
        alphabet_numbers(bytes[i]);
    }
    assert(spelling(bytes) =~= text);
    spelling_round_trip(bytes);
}

/// A character stands for a byte exactly if it spells it, and for none if it spells none.
pub proof fn char_byte_is_the_byte_it_spells(c: char)
    ensures
        forall|b: u8| char_byte(c) == Some(b) <==> #[trigger] byte_char(b) == c,
        char_byte(c) is None <==> forall|b: u8| #[trigger] byte_char(b) != c,
{
    assert forall|b: u8| char_byte(c) == Some(b) <==> #[trigger] byte_char(b) == c by {
        char_byte_inverts_byte_char(b);
    }
}

/// One character stands for the byte that it spells, or for nothing if it spells none.
pub proof fn spelled_bytes_of_one(c: char)
    ensures
        forall|b: u8| #[trigger] byte_char(b) == c ==> spelled_bytes(seq![c]) == seq![b],
        (forall|b: u8| #[trigger] byte_char(b) != c) ==> spelled_bytes(seq![c]) == Seq::<
            u8,
        >::empty(),
{
    char_byte_is_the_byte_it_spells(c);
    assert(seq![c].drop_last() =~= seq![]);
    assert(spelled_bytes(seq![c].drop_last()) =~= seq![]);
    assert forall|b: u8| #[trigger] byte_char(b) == c implies spelled_bytes(seq![c]) == seq![b] by {
        assert(spelled_bytes(seq![c]) =~= seq![b]);
    }
}

/// A spelling in two parts stands for the bytes of the parts, one after the other.
pub proof fn spelled_bytes_concat(a: Seq<char>, b: Seq<char>)
    ensures
        spelled_bytes(a + b) == spelled_bytes(a) + spelled_bytes(b),
    decreases b.len(),
{
    if b.len() == 0 {
        assert(a + b =~= a);
        assert(spelled_bytes(a) + spelled_bytes(b) =~= spelled_bytes(a));
    } else {
        assert((a + b).drop_last() =~= a + b.drop_last());
        spelled_bytes_concat(a, b.drop_last());
        assert(spelled_bytes(a + b) =~= spelled_bytes(a) + spelled_bytes(b));
    }
}

/// The table of the byte-level alphabet.
pub fn byte_to_char() -> (table: [char; 256])
    ensures
        is_alphabet(&table),
{
    let mut table: [char; 256] = ['\0'; 256];
    let mut next: u32 = 256;
    let mut b: usize = 0;
    while b < 256
        invariant
            b <= 256,
            next == 256 + shifted_below(b as int),
            forall|x: u8| x < b ==> #[trigger] table@[x as int] == byte_char(x),
        decreases 256 - b,
    {
        let byte: u8 = b as u8;
        let nice: bool = (0x21 <= byte && byte <= 0x7e) || (0xa1 <= byte && byte <= 0xac) || byte
            >= 0xae;
        proof {
            lemma_shifted_below_bound(b as int);
        }
        let c: char = if nice {
            byte as char
        } else {
            let number: u32 = next;
            next = next + 1;
            match char::from_u32(number) {
                Some(c) => c,
                None => '\0',
            }
        };
        assert(c == byte_char(byte));
        table[b] = c;
        b = b + 1;
    }
    table
}

/// Looks up the byte that a character spells.
pub fn char_to_byte(c: char, table: &[char; 256]) -> (r: Option<u8>)
    requires
        is_alphabet(table),
    ensures
        r == char_byte(c),
{
    let mut b: usize = 0;
    while b < 256
        invariant
            b <= 256,
            is_alphabet(table),
            forall|x: u8| x < b ==> byte_char(x) != c,
        decreases 256 - b,
    {
        assert(table@[(b as u8) as int] == byte_char(b as u8));
        if table[b] == c {
            proof {
                char_byte_inverts_byte_char(b as u8);
            }
            return Some(b as u8);
        }
        b = b + 1;
    }
    None
}

/// Spells a raw string with the characters of `table`, one for each of its UTF-8 bytes.
pub fn to_byte_level(s: &str, table: &[char; 256]) -> (r: String)
    ensures
        r@ == encode_utf8(s@).map_values(|b: u8| table@[b as int]),
        is_alphabet(table) ==> r@ == spelling(encode_utf8(s@)),
{
    let bytes = s.as_bytes();
    let mut r = String::new();
    let mut i: usize = 0;
    while i < bytes.len()
        invariant
            i <= bytes@.len(),
            r@ == bytes@.take(i as int).map_values(|b: u8| table@[b as int]),
        decreases bytes@.len() - i,
    {
        let b: u8 = bytes[i];
        r.push(table[b as usize]);
        assert(bytes@.take(i + 1) =~= bytes@.take(i as int).push(b));
        assert(r@ =~= bytes@.take(i + 1).map_values(|b: u8| table@[b as int]));
        i = i + 1;
    }
    assert(bytes@.take(i as int) =~= bytes@);
    proof {
        if is_alphabet(table) {
            assert(r@ =~= spelling(encode_utf8(s@)));
        }
    }
    r
}

/// The bytes that a vocabulary entry stands for; characters outside the alphabet are passed over.
pub fn from_byte_level(token: &str, table: &[char; 256]) -> (r: Vec<u8>)
    requires
        is_alphabet(table),
    ensures
        r@ == spelled_bytes(token@),
{
    let mut r: Vec<u8> = Vec::new();
    for c in it: token.chars()
        invariant
            is_alphabet(table),
            it.seq() == token@,
            r@ == spelled_bytes(token@.take(it.index() as int)),
    {
        let ghost i = it.index() as int;
        assert(token@.take(i + 1).drop_last() =~= token@.take(i));
        if let Some(b) = char_to_byte(c, table) {
            r.push(b);
        }
    }
    assert(token@.take(token@.len() as int) =~= token@);
    r
}

} // verus!
