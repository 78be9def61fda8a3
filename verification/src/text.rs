//! Text as characters and as UTF-8 bytes: how character indices and byte
//! offsets of one string relate, cutting a string at either, and writing
//! numbers and runs of a character as text.

use vstd::prelude::*;
use vstd::std_specs::iter::IteratorSpec;
use vstd::string::StringSliceAdditionalSpecFns;
use vstd::utf8::*;

verus! {

/// Number of bytes that the UTF-8 encoding of `c` takes.
pub open spec fn utf8_width(c: char) -> nat {
    let scalar = c as u32;
    if scalar < 0x80 {
        1
    } else if scalar < 0x800 {
        2
    } else if scalar < 0x1_0000 {
        3
    } else {
        4
    }
}

/// Byte offset at which the character with index `index` starts in the
/// UTF-8 encoding of `text`; for `index == text.len()`, the encoding's length.
pub open spec fn byte_offset(text: Seq<char>, index: int) -> nat {
    encode_utf8(text.take(index)).len()
}

/// Number of line feeds among the characters of `text`.
pub open spec fn newline_count(text: Seq<char>) -> nat
    decreases text.len(),
{
    if text.len() == 0 {
        0
    } else {
        newline_count(text.drop_last()) + if text.last() == '\n' {
            1nat
        } else {
            0nat
        }
    }
}

/// Index of the first `wanted` in `text` at or after `from`; the length of
/// `text` where there is none.
pub open spec fn find_from(text: Seq<char>, from: int, wanted: char) -> int
    decreases text.len() - from,
{
    if from < 0 || from >= text.len() {
        from
    } else if text[from] == wanted {
        from
    } else {
        find_from(text, from + 1, wanted)
    }
}

/// A label, if there is one, as a mathematical value.
pub open spec fn label_view(label: Option<&str>) -> Option<Seq<char>> {
    match label {
        Some(text) => Some(text@),
        None => None,
    }
}

/// The decimal digit that stands for `value`, which is less than ten.
pub open spec fn digit_char(value: nat) -> char {
    ((value + 48) as u8) as char
}

/// `value` in decimal digits, without leading zeros.
pub open spec fn decimal_text(value: nat) -> Seq<char>
    decreases value,
{
    if value < 10 {
        seq![digit_char(value)]
    } else {
        decimal_text(value / 10).push(digit_char(value % 10))
    }
}

/// `count` times the character `c`.
pub open spec fn repeated(c: char, count: nat) -> Seq<char> {
    Seq::new(count, |i: int| c)
}

/// `String::push` of the standard library: after the call the string holds
/// what it held before, and `c` behind it.
pub assume_specification[ std::string::String::push ](text: &mut std::string::String, c: char)
    ensures
        final(text)@ == old(text)@.push(c),
;

/// `utf8_width` is the length of the encoding that vstd defines.
pub proof fn lemma_utf8_width(c: char)
    ensures
        encode_scalar(c as u32).len() == utf8_width(c),
        1 <= utf8_width(c) <= 4,
{
    char_is_scalar(c);
}

/// Encoding distributes over concatenation.
pub proof fn lemma_encode_concat(a: Seq<char>, b: Seq<char>)
    ensures
        encode_utf8(a + b) == encode_utf8(a) + encode_utf8(b),
    decreases a.len(),
{
    if a.len() == 0 {
        assert(a + b =~= b);
        assert(encode_utf8(a) + encode_utf8(b) =~= encode_utf8(b));
    } else {
        lemma_encode_concat(a.drop_first(), b);
        assert((a + b).drop_first() =~= a.drop_first() + b);
        assert(encode_utf8(a + b) =~= encode_utf8(a) + encode_utf8(b));
    }
}

/// An encoding is at least as long as the text, one byte or more a character.
pub proof fn lemma_encode_len(text: Seq<char>)
    ensures
        text.len() <= encode_utf8(text).len(),
    decreases text.len(),
{
    if text.len() > 0 {
        lemma_utf8_width(text[0]);
        lemma_encode_len(text.drop_first());
    }
}

/// Byte offsets grow with character indices, strictly, and by the width of
/// the character passed.
pub proof fn lemma_byte_offset_step(text: Seq<char>, index: int)
    requires
        0 <= index < text.len(),
    ensures
        byte_offset(text, index + 1) == byte_offset(text, index) + utf8_width(text[index]),
        byte_offset(text, index + 1) <= byte_offset(text, text.len() as int),
{
    let head = text.take(index);
    let one = seq![text[index]];
    assert(text.take(index + 1) =~= head + one);
    lemma_encode_concat(head, one);
    assert(one.drop_first() =~= Seq::<char>::empty());
    assert(encode_utf8(one) =~= encode_scalar(text[index] as u32)) by {
        reveal_with_fuel(encode_utf8, 2);
    }
    lemma_utf8_width(text[index]);
    assert(text.take(text.len() as int) =~= text.take(index + 1) + text.skip(index + 1));
    lemma_encode_concat(text.take(index + 1), text.skip(index + 1));
}

/// The encoding of `text` splits, at the byte offsets of two character
/// indices, into the encodings of the three parts of `text`.
pub proof fn lemma_encode_subrange(text: Seq<char>, from: int, to: int)
    requires
        0 <= from <= to <= text.len(),
    ensures
        byte_offset(text, from) <= byte_offset(text, to) <= encode_utf8(text).len(),
        encode_utf8(text).subrange(byte_offset(text, from) as int, byte_offset(text, to) as int)
            == encode_utf8(text.subrange(from, to)),
        byte_offset(text, to) - byte_offset(text, from) == encode_utf8(
            text.subrange(from, to),
        ).len(),
{
    let a = text.take(from);
    let b = text.subrange(from, to);
    let c = text.skip(to);
    assert(text.take(to) =~= a + b);
    assert(text =~= text.take(to) + c);
    lemma_encode_concat(a, b);
    lemma_encode_concat(text.take(to), c);
    assert(encode_utf8(text).subrange(
        byte_offset(text, from) as int,
        byte_offset(text, to) as int,
    ) =~= encode_utf8(b));
}

/// The byte offset of every character index is a character boundary of the
/// encoding.
pub proof fn lemma_byte_offset_is_boundary(text: Seq<char>, index: int)
    requires
        0 <= index <= text.len(),
    ensures
        is_char_boundary(encode_utf8(text), byte_offset(text, index) as int),
    decreases index,
{
    let bytes = encode_utf8(text);
    encode_utf8_valid_utf8(text);
    if index == 0 {
        assert(text.take(0) =~= Seq::<char>::empty());
    } else {
        let tail = text.drop_first();
        encode_utf8_first_scalar(text);
        assert(pop_first_scalar(bytes) =~= encode_utf8(tail));
        lemma_byte_offset_is_boundary(tail, index - 1);
        assert(text.take(index).drop_first() =~= tail.take(index - 1));
        lemma_utf8_width(text[0]);
        lemma_encode_subrange(text, 0, index);
        assert(text.take(0) =~= Seq::<char>::empty());
        assert(byte_offset(text, index) - length_of_first_scalar(bytes) == byte_offset(
            tail,
            index - 1,
        ));
    }
}

/// The bytes between the byte offsets of two character indices are a
/// stretch of whole characters: both offsets are character boundaries, and
/// the bytes decode to the characters between the indices.
pub proof fn lemma_chars_between_offsets(text: Seq<char>, from: int, to: int)
    requires
        0 <= from <= to <= text.len(),
    ensures
        byte_offset(text, from) <= byte_offset(text, to) <= encode_utf8(text).len(),
        is_char_boundary(encode_utf8(text), byte_offset(text, from) as int),
        is_char_boundary(encode_utf8(text), byte_offset(text, to) as int),
        decode_utf8(
            encode_utf8(text).subrange(
                byte_offset(text, from) as int,
                byte_offset(text, to) as int,
            ),
        ) == text.subrange(from, to),
{
    lemma_encode_subrange(text, from, to);
    lemma_byte_offset_is_boundary(text, from);
    lemma_byte_offset_is_boundary(text, to);
    encode_utf8_decode_utf8(text.subrange(from, to));
}

/// A character boundary of a text, no later than another one, is a character
/// boundary of the text cut at the later one.
proof fn lemma_boundary_in_prefix(bytes: Seq<u8>, start: int, end: int)
    requires
        valid_utf8(bytes),
        0 <= start <= end <= bytes.len(),
        is_char_boundary(bytes, start),
        is_char_boundary(bytes, end),
    ensures
        valid_utf8(bytes.subrange(0, end)),
        is_char_boundary(bytes.subrange(0, end), start),
{
    let prefix = bytes.subrange(0, end);
    valid_utf8_split(bytes, end);
    if start == end {
        is_char_boundary_start_end_of_seq(prefix);
    } else {
        is_char_boundary_iff_not_is_continuation_byte(bytes, start);
        is_char_boundary_iff_not_is_continuation_byte(prefix, start);
    }
}

/// Reading one more character adds one to the count of line feeds if it is
/// one, and nothing if not. No count is greater than the number of
/// characters read.
pub proof fn lemma_newline_count_step(text: Seq<char>, index: int)
    requires
        0 <= index < text.len(),
    ensures
        newline_count(text.take(index + 1)) == newline_count(text.take(index)) + if text[index]
            == '\n' {
            1nat
        } else {
            0nat
        },
        newline_count(text.take(index)) <= index,
    decreases index,
{
    assert(text.take(index + 1).drop_last() =~= text.take(index));
    if index > 0 {
        lemma_newline_count_step(text, index - 1);
    } else {
        assert(text.take(0) =~= Seq::<char>::empty());
    }
}

/// `find_from` stops at or behind `from`, within `text`, on the first
/// `wanted`.
pub proof fn lemma_find_from_bounds(text: Seq<char>, from: int, wanted: char)
    requires
        0 <= from <= text.len(),
    ensures
        from <= find_from(text, from, wanted) <= text.len(),
        find_from(text, from, wanted) < text.len() ==> text[find_from(text, from, wanted)]
            == wanted,
        forall|i: int| from <= i < find_from(text, from, wanted) ==> text[i] != wanted,
    decreases text.len() - from,
{
    if from < text.len() && text[from] != wanted {
        lemma_find_from_bounds(text, from + 1, wanted);
    }
}

/// Where no `wanted` stands from `from` up to `at`, and one stands at `at` or
/// `at` is the end of `text`, `find_from` gives `at`.
pub proof fn lemma_find_from_is_first(text: Seq<char>, from: int, wanted: char, at: int)
    requires
        0 <= from <= at <= text.len(),
        forall|i: int| from <= i < at ==> text[i] != wanted,
        at < text.len() ==> text[at] == wanted,
    ensures
        find_from(text, from, wanted) == at,
{
    lemma_find_from_bounds(text, from, wanted);
}

/// Number of bytes that the UTF-8 encoding of `c` takes.
pub fn utf8_width_of(c: char) -> (width: usize)
    ensures
        width == utf8_width(c),
{
    let scalar: u32 = c as u32;
    if scalar < 0x80 {
        1
    } else if scalar < 0x800 {
        2
    } else if scalar < 0x1_0000 {
        3
    } else {
        4
    }
}

/// The first character of `text`, if it has one.
pub fn first_char(text: &str) -> (first: Option<char>)
    ensures
        first == (if text@.len() > 0 {
            Some(text@[0])
        } else {
            None
        }),
{
    let mut chars = text.chars();
    chars.next()
}

/// The character of `text` with index `n`, if it has one. Takes time linear
/// in `n`.
pub fn nth_char(text: &str, n: usize) -> (found: Option<char>)
    ensures
        found == (if n < text@.len() {
            Some(text@[n as int])
        } else {
            None
        }),
{
    let mut chars = text.chars();
    let mut passed: usize = 0;
    loop
        invariant
            passed <= n,
            passed <= text@.len(),
            chars.remaining() == text@.skip(passed as int),
        decreases n - passed,
    {
        match chars.next() {
            None => {
                return None;
            },
            Some(c) => {
                assert(text@.skip(passed as int).drop_first() =~= text@.skip(passed + 1));
                if passed == n {
                    return Some(c);
                }
                passed = passed + 1;
            },
        }
    }
}

/// Splits `text` behind its first character.
pub fn split_first<'a>(text: &'a str) -> (parts: Option<(char, &'a str)>)
    ensures
        text@.len() == 0 ==> parts is None,
        text@.len() > 0 ==> parts is Some,
        parts matches Some((first, tail)) ==> first == text@[0] && tail@ == text@.drop_first(),
{
    match first_char(text) {
        None => None,
        Some(c) => {
            let width = utf8_width_of(c);
            proof {
                lemma_byte_offset_is_boundary(text@, 1);
                lemma_byte_offset_step(text@, 0);
                assert(text@.take(0) =~= Seq::<char>::empty());
            }
            let (_, tail) = text.split_at(width);
            proof {
                lemma_encode_subrange(text@, 1, text@.len() as int);
                assert(text@.take(text@.len() as int) =~= text@);
                assert(text@.subrange(1, text@.len() as int) =~= text@.drop_first());
                encode_utf8_decode_utf8(tail@);
                encode_utf8_decode_utf8(text@.drop_first());
            }
            Some((c, tail))
        },
    }
}

/// The part of `text` between two byte offsets, where both are character
/// boundaries of it and in order; `None` where they are not.
pub fn slice_bytes<'a>(text: &'a str, start: usize, end: usize) -> (part: Option<&'a str>)
    ensures
        part is Some <==> start <= end <= text.spec_bytes().len() && is_char_boundary(
            text.spec_bytes(),
            start as int,
        ) && is_char_boundary(text.spec_bytes(), end as int),
        part is Some ==> part->0.spec_bytes() == text.spec_bytes().subrange(
            start as int,
            end as int,
        ),
{
    if start > end || end > text.as_bytes().len() {
        return None;
    }
    if !text.is_char_boundary(start) || !text.is_char_boundary(end) {
        return None;
    }
    proof {
        encode_utf8_valid_utf8(text@);
        lemma_boundary_in_prefix(text.spec_bytes(), start as int, end as int);
    }
    let (head, _) = text.split_at(end);
    let (_, part) = head.split_at(start);
    assert(part.spec_bytes() =~= text.spec_bytes().subrange(start as int, end as int));
    Some(part)
}

/// Whether two texts hold the same characters.
pub fn text_eq(a: &str, b: &str) -> (same: bool)
    ensures
        same == (a@ == b@),
{
    let mut left = a.chars();
    let mut right = b.chars();
    let ghost mut passed: int = 0;
    loop
        invariant
            0 <= passed <= a@.len(),
            passed <= b@.len(),
            left.remaining() == a@.skip(passed),
            right.remaining() == b@.skip(passed),
            a@.take(passed) == b@.take(passed),
        decreases a@.len() - passed,
    {
        let x = left.next();
        let y = right.next();
        match (x, y) {
            (None, None) => {
                proof {
                    assert(a@.take(passed) =~= a@);
                    assert(b@.take(passed) =~= b@);
                }
                return true;
            },
            (Some(c), Some(d)) => {
                if c != d {
                    return false;
                }
                proof {
                    assert(a@.skip(passed).drop_first() =~= a@.skip(passed + 1));
                    assert(b@.skip(passed).drop_first() =~= b@.skip(passed + 1));
                    assert(a@.take(passed + 1) =~= a@.take(passed).push(c));
                    assert(b@.take(passed + 1) =~= b@.take(passed).push(d));
                    passed = passed + 1;
                }
            },
            _ => {
                return false;
            },
        }
    }
}

/// `count` times the character `c`.
pub fn repeat(c: char, count: usize) -> (text: String)
    ensures
        text@ == repeated(c, count as nat),
{
    let mut text = String::new();
    let mut done: usize = 0;
    while done < count
        invariant
            done <= count,
            text@ == repeated(c, done as nat),
        decreases count - done,
    {
        text.push(c);
        done = done + 1;
        assert(text@ =~= repeated(c, done as nat));
    }
    text
}

/// `value` in decimal digits, without leading zeros.
pub fn decimal(value: usize) -> (text: String)
    ensures
        text@ == decimal_text(value as nat),
{
    // The digits from the last to the first.
    let mut digits: Vec<char> = Vec::new();
    let mut left = value;
    digits.push(((left % 10) as u8 + 48) as char);
    left = left / 10;
    assert(digits@.reverse() =~= seq![digit_char((value % 10) as nat)]);
    while left > 0
        invariant
            digits.len() > 0,
            decimal_text(value as nat) == (if left > 0 {
                decimal_text(left as nat)
            } else {
                Seq::empty()
            }) + digits@.reverse(),
        decreases left,
    {
        let ghost before = digits@;
        digits.push(((left % 10) as u8 + 48) as char);
        assert(digits@.reverse() =~= seq![digit_char((left % 10) as nat)] + before.reverse());
        left = left / 10;
    }
    let mut text = String::new();
    let mut at = digits.len();
    while at > 0
        invariant
            at <= digits.len(),
            text@ == digits@.reverse().take(digits.len() - at),
        decreases at,
    {
        at = at - 1;
        text.push(digits[at]);
        assert(text@ =~= digits@.reverse().take(digits.len() - at));
    }
    assert(text@ =~= digits@.reverse());
    text
}

} // verus!
