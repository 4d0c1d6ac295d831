//! Strings as sequences of characters.
use vstd::prelude::*;
use vstd::utf8::*;

verus! {

/// The contents of a list of strings.
pub open spec fn contents(list: Seq<String>) -> Seq<Seq<char>> {
    list.map_values(|s: String| s@)
}

/// How many bytes a character takes in UTF-8.
pub open spec fn char_width(c: char) -> nat {
    encode_scalar(c as u32).len()
}

/// How many characters two texts have in common before the first difference.
pub open spec fn common_prefix(a: Seq<char>, b: Seq<char>) -> nat
    decreases a.len(),
{
    if a.len() == 0 || b.len() == 0 || a[0] != b[0] {
        0
    } else {
        1 + common_prefix(a.skip(1), b.skip(1))
    }
}

/// What a text shows that an earlier rendering of it did not: all from the first difference on.
pub open spec fn fresh(old_text: Seq<char>, new_text: Seq<char>) -> Seq<char> {
    new_text.skip(common_prefix(old_text, new_text) as int)
}

/// How many characters at the end of `text` hold at least `bytes` bytes, and no more characters
/// than needed; all of them if the whole text is shorter.
pub open spec fn chars_holding(text: Seq<char>, bytes: nat) -> nat
    decreases text.len(),
{
    if text.len() == 0 || bytes == 0 {
        0
    } else {
        let width = char_width(text.last());
        let left: nat = if bytes <= width {
            0
        } else {
            (bytes - width) as nat
        };
        1 + chars_holding(text.drop_last(), left)
    }
}

/// The common prefix is common, and it ends where one text ends or the two differ.
pub proof fn common_prefix_is_longest(a: Seq<char>, b: Seq<char>)
    ensures
        common_prefix(a, b) <= a.len(),
        common_prefix(a, b) <= b.len(),
        forall|i: int| 0 <= i < common_prefix(a, b) ==> a[i] == b[i],
        common_prefix(a, b) == a.len() || common_prefix(a, b) == b.len() || a[common_prefix(
            a,
            b,
        ) as int] != b[common_prefix(a, b) as int],
    decreases a.len(),
{
    if a.len() == 0 || b.len() == 0 || a[0] != b[0] {
    } else {
        common_prefix_is_longest(a.skip(1), b.skip(1));
        assert forall|i: int| 0 <= i < common_prefix(a, b) implies a[i] == b[i] by {
            if i > 0 {
                assert(a.skip(1)[i - 1] == b.skip(1)[i - 1]);
            }
        }
    }
}

/// A common prefix is known by where it ends.
pub proof fn common_prefix_is(a: Seq<char>, b: Seq<char>, n: int)
    requires
        0 <= n <= a.len(),
        n <= b.len(),
        forall|i: int| 0 <= i < n ==> a[i] == b[i],
        n == a.len() || n == b.len() || a[n] != b[n],
    ensures
        common_prefix(a, b) == n,
    decreases n,
{
    if n > 0 {
        common_prefix_is(a.skip(1), b.skip(1), n - 1);
    }
}

/// A text that only grew shows what was added to it.
pub proof fn fresh_of_extension(text: Seq<char>, more: Seq<char>)
    ensures
        fresh(text, text + more) == more,
{
    common_prefix_is(text, text + more, text.len() as int);
    assert(fresh(text, text + more) =~= more);
}

/// A shared beginning makes no difference to what is fresh.
pub proof fn fresh_after_shared(shared: Seq<char>, a: Seq<char>, b: Seq<char>)
    ensures
        fresh(shared + a, shared + b) == fresh(a, b),
{
    let n = common_prefix(a, b) as int;
    common_prefix_is_longest(a, b);
    assert forall|i: int| 0 <= i < shared.len() + n implies (shared + a)[i] == (shared + b)[i] by {
        if i >= shared.len() {
            assert(a[i - shared.len()] == b[i - shared.len()]);
        }
    }
    common_prefix_is(shared + a, shared + b, shared.len() + n);
    assert(fresh(shared + a, shared + b) =~= fresh(a, b));
}

/// Once a text is as long as the earlier one, what is added to it is fresh as a whole.
pub proof fn fresh_then_more(old_text: Seq<char>, text: Seq<char>, more: Seq<char>)
    requires
        old_text.len() <= text.len(),
    ensures
        fresh(old_text, text + more) == fresh(old_text, text) + more,
{
    let n = common_prefix(old_text, text) as int;
    common_prefix_is_longest(old_text, text);
    common_prefix_is(old_text, text + more, n);
    assert(fresh(old_text, text + more) =~= fresh(old_text, text) + more);
}

/// What is fresh is a suffix of the new text: it begins where the two texts first differ, or
/// where one of them ends.
pub proof fn fresh_begins_at_the_first_difference(old_text: Seq<char>, new_text: Seq<char>)
    ensures
        fresh(old_text, new_text).len() <= new_text.len(),
        ({
            let n = new_text.len() - fresh(old_text, new_text).len();
            &&& fresh(old_text, new_text) == new_text.skip(n)
            &&& n <= old_text.len()
            &&& old_text.take(n) == new_text.take(n)
            &&& n == old_text.len() || n == new_text.len() || old_text[n] != new_text[n]
        }),
{
    common_prefix_is_longest(old_text, new_text);
    let n = common_prefix(old_text, new_text) as int;
    assert(old_text.take(n) =~= new_text.take(n));
}

/// The list of contents has the content of each string at the string's own place.
pub proof fn contents_are_those_of_the_strings(list: Seq<String>)
    ensures
        contents(list).len() == list.len(),
        forall|i: int| 0 <= i < list.len() ==> #[trigger] contents(list)[i] == list[i]@,
{
}

/// The width of a character is the length of its UTF-8.
pub proof fn char_width_is_that_of_utf8(c: char)
    ensures
        char_width(c) == encode_utf8(seq![c]).len(),
{
    assert(encode_utf8(seq![c].drop_first()) =~= seq![]);
    assert(encode_utf8(seq![c]) =~= encode_scalar(c as u32));
}

/// The characters held at the end of a text take at least the asked number of bytes, unless all
/// of the text is held, and with one character less they would not.
pub proof fn held_characters_are_the_fewest(text: Seq<char>, bytes: nat)
    ensures
        chars_holding(text, bytes) <= text.len(),
        chars_holding(text, bytes) < text.len() ==> encode_utf8(
            text.skip(text.len() - chars_holding(text, bytes)),
        ).len() >= bytes,
        chars_holding(text, bytes) > 0 ==> encode_utf8(
            text.skip(text.len() - chars_holding(text, bytes) + 1),
        ).len() < bytes,
    decreases text.len(),
{
    if text.len() > 0 && bytes > 0 {
        let last = seq![text.last()];
        let width = char_width(text.last());
        char_width_is_that_of_utf8(text.last());
        let left: nat = if bytes <= width {
            0
        } else {
            (bytes - width) as nat
        };
        let rest = text.drop_last();
        held_characters_are_the_fewest(rest, left);
        let n = chars_holding(text, bytes);
        let k = chars_holding(rest, left);
        assert(n == k + 1);
        if n < text.len() {
            let tail = rest.skip(rest.len() - k);
            assert(text.skip(text.len() - n) =~= tail + last);
            encode_concat(tail, last);
        }
        if k > 0 {
            let tail = rest.skip(rest.len() - k + 1);
            assert(text.skip(text.len() - n + 1) =~= tail + last);
            encode_concat(tail, last);
        } else {
            assert(text.skip(text.len() - n + 1) =~= seq![]);
        }
    }
}

/// No more characters are held than the text has.
pub proof fn chars_holding_bound(text: Seq<char>, bytes: nat)
    ensures
        chars_holding(text, bytes) <= text.len(),
    decreases text.len(),
{
    if text.len() > 0 && bytes > 0 {
        let width = char_width(text.last());
        let left: nat = if bytes <= width {
            0
        } else {
            (bytes - width) as nat
        };
        chars_holding_bound(text.drop_last(), left);
    }
}

/// The UTF-8 of two texts, one after the other, is that of the two together.
pub proof fn encode_concat(a: Seq<char>, b: Seq<char>)
    ensures
        encode_utf8(a + b) == encode_utf8(a) + encode_utf8(b),
    decreases a.len(),
{
    if a.len() == 0 {
        assert(a + b =~= b);
        assert(encode_utf8(a) + encode_utf8(b) =~= encode_utf8(b));
    } else {
        assert((a + b).drop_first() =~= a.drop_first() + b);
        encode_concat(a.drop_first(), b);
        assert(encode_utf8(a + b) =~= encode_utf8(a) + encode_utf8(b));
    }
}

/// The characters of a string.
pub fn chars_of(s: &str) -> (chars: Vec<char>)
    ensures
        chars@ == s@,
{
    let mut chars: Vec<char> = Vec::new();
    for c in it: s.chars()
        invariant
            it.seq() == s@,
            chars@ == s@.take(it.index() as int),
    {
        chars.push(c);
    }
    assert(chars@ =~= s@);
    chars
}

/// Copies the characters from `from` to `to` into a string.
pub fn string_of(chars: &Vec<char>, from: usize, to: usize) -> (s: String)
    requires
        from <= to <= chars@.len(),
    ensures
        s@ == chars@.subrange(from as int, to as int),
{
    let mut s = String::new();
    let mut i: usize = from;
    while i < to
        invariant
            from <= i <= to <= chars@.len(),
            s@ == chars@.subrange(from as int, i as int),
        decreases to - i,
    {
        s.push(chars[i]);
        i = i + 1;
        assert(s@ =~= chars@.subrange(from as int, i as int));
    }
    s
}

/// How many bytes a character takes in UTF-8.
pub fn width_of(c: char) -> (n: usize)
    ensures
        n == char_width(c),
        1 <= n <= 4,
{
    let number: u32 = c as u32;
    if number <= 0x7f {
        1
    } else if number <= 0x7ff {
        2
    } else if number <= 0xffff {
        3
    } else {
        4
    }
}

/// The characters that `new_text` shows and `old_text` did not.
pub fn fresh_chars(old_text: &Vec<char>, new_text: &Vec<char>) -> (r: Vec<char>)
    ensures
        r@ == fresh(old_text@, new_text@),
{
    let mut n: usize = 0;
    while n < old_text.len() && n < new_text.len() && old_text[n] == new_text[n]
        invariant
            n <= old_text@.len(),
            n <= new_text@.len(),
            forall|i: int| 0 <= i < n ==> old_text@[i] == new_text@[i],
        decreases old_text@.len() - n,
    {
        n = n + 1;
    }
    proof {
        common_prefix_is(old_text@, new_text@, n as int);
    }
    let mut r: Vec<char> = Vec::new();
    let mut i: usize = n;
    while i < new_text.len()
        invariant
            n <= i <= new_text@.len(),
            r@ == new_text@.subrange(n as int, i as int),
        decreases new_text@.len() - i,
    {
        r.push(new_text[i]);
        i = i + 1;
        assert(r@ =~= new_text@.subrange(n as int, i as int));
    }
    assert(r@ =~= new_text@.skip(n as int));
    r
}

/// How many characters at the end of a text have to stay to hold at least `bytes` bytes.
pub fn count_holding(text: &Vec<char>, bytes: usize) -> (n: usize)
    ensures
        n == chars_holding(text@, bytes as nat),
        n <= text@.len(),
{
    let mut n: usize = 0;
    let mut left: usize = bytes;
    assert(text@.take(text@.len() as int) =~= text@);
    while n < text.len() && left > 0
        invariant
            n <= text@.len(),
            chars_holding(text@, bytes as nat) == n + chars_holding(
                text@.take(text@.len() - n),
                left as nat,
            ),
        decreases text@.len() - n,
    {
        let width: usize = width_of(text[text.len() - n - 1]);
        assert(text@.take(text@.len() - n).drop_last() =~= text@.take(text@.len() - n - 1));
        left = if left <= width {
            0
        } else {
            left - width
        };
        n = n + 1;
    }
    n
}

} // verus!
