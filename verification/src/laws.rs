//! What holds of every scan.

use crate::error::LoxErrorView;
use crate::grammar::{
    end_token, is_digit, item_at, items_from, lemma_lexeme_end_bounds,
    lemma_position_after_bounds, lemma_run_end_bounds, lemma_skip_trivia_bounds, lexeme_end,
    number_end, position_after, run_end, scan_items, skip_trivia, yielded, ItemView,
};
use crate::scanner::ScannerIter;
use crate::text::{lemma_find_from_bounds, lemma_find_from_is_first};
use crate::token::{TokenKindView, TokenView};
use vstd::prelude::*;

verus! {

/// Whether `item` is a token of the kind that ends a scan.
pub open spec fn is_end_token(item: ItemView) -> bool {
    item matches Ok(token) && token.kind is Eof
}

/// Whether a scan of `text` that has read the first `position` characters
/// comes, behind some lexeme or at once, to blanks and comments that run to
/// the end of `text`. The step that reads them yields nothing, and the scan
/// is over before the end token.
pub open spec fn ends_in_trivia(text: Seq<char>, position: int) -> bool
    decreases text.len() - position,
    when 0 <= position
{
    if position >= text.len() {
        false
    } else {
        let at = skip_trivia(text, position);
        proof {
            lemma_position_after_bounds(text, position);
        }
        at >= text.len() || ends_in_trivia(text, lexeme_end(text, at))
    }
}

/// No lexeme is the end token.
pub proof fn lemma_lexeme_is_no_end_token(text: Seq<char>, location: Option<Seq<char>>, at: int)
    requires
        0 <= at < text.len(),
    ensures
        !is_end_token(item_at(text, location, at)),
{
}

/// A scan that does not end in blanks or comments yields the end token
/// last, at the index behind the last character of the source, and yields it
/// once.
pub proof fn lemma_scan_ends_with_end_token(text: Seq<char>, location: Option<Seq<char>>)
    requires
        !ends_in_trivia(text, 0),
    ensures
        scan_items(text, location).len() > 0,
        scan_items(text, location).last() == Ok::<_, LoxErrorView>(
            TokenView { kind: TokenKindView::Eof, start: text.len(), end: text.len() },
        ),
        forall|i: int|
            0 <= i < scan_items(text, location).len() - 1 ==> !is_end_token(
                #[trigger] scan_items(text, location)[i],
            ),
{
    lemma_items_end_with_end_token(text, location, 0);
}

/// The same of a scan from any position on.
pub proof fn lemma_items_end_with_end_token(
    text: Seq<char>,
    location: Option<Seq<char>>,
    position: int,
)
    requires
        0 <= position <= text.len(),
        !ends_in_trivia(text, position),
    ensures
        items_from(text, location, position, false).len() > 0,
        items_from(text, location, position, false).last() == Ok::<_, LoxErrorView>(
            end_token(text),
        ),
        forall|i: int|
            0 <= i < items_from(text, location, position, false).len() - 1 ==> !is_end_token(
                #[trigger] items_from(text, location, position, false)[i],
            ),
    decreases text.len() - position,
{
    let items = items_from(text, location, position, false);
    if position >= text.len() {
        assert(items_from(text, location, position, true) =~= Seq::empty());
        assert(items =~= seq![Ok(end_token(text))]);
    } else {
        let at = skip_trivia(text, position);
        lemma_position_after_bounds(text, position);
        lemma_skip_trivia_bounds(text, position);
        let next = lexeme_end(text, at);
        let rest = items_from(text, location, next, false);
        lemma_items_end_with_end_token(text, location, next);
        lemma_lexeme_is_no_end_token(text, location, at);
        assert(items =~= seq![item_at(text, location, at)] + rest);
        assert forall|i: int| 0 <= i < items.len() - 1 implies !is_end_token(
            #[trigger] items[i],
        ) by {
            if i > 0 {
                assert(items[i] == rest[i - 1]);
            }
        }
    }
}

/// A scan that ends in blanks or comments yields no end token.
pub proof fn lemma_trailing_trivia_hide_end_token(
    text: Seq<char>,
    location: Option<Seq<char>>,
    position: int,
)
    requires
        0 <= position <= text.len(),
        ends_in_trivia(text, position),
    ensures
        forall|i: int|
            0 <= i < items_from(text, location, position, false).len() ==> !is_end_token(
                #[trigger] items_from(text, location, position, false)[i],
            ),
    decreases text.len() - position,
{
    let items = items_from(text, location, position, false);
    let at = skip_trivia(text, position);
    lemma_position_after_bounds(text, position);
    lemma_skip_trivia_bounds(text, position);
    if at >= text.len() {
        assert(items =~= Seq::empty());
    } else {
        let next = lexeme_end(text, at);
        let rest = items_from(text, location, next, false);
        lemma_trailing_trivia_hide_end_token(text, location, next);
        lemma_lexeme_is_no_end_token(text, location, at);
        assert(items =~= seq![item_at(text, location, at)] + rest);
        assert forall|i: int| 0 <= i < items.len() implies !is_end_token(#[trigger] items[i]) by {
            if i > 0 {
                assert(items[i] == rest[i - 1]);
            }
        }
    }
}

/// The tokens of a scan lie in the source in the order in which they are
/// yielded: each one starts behind the end of every one before it, so
/// neither the starts nor the ends of their spans ever go back.
pub proof fn lemma_token_spans_ascend(text: Seq<char>, location: Option<Seq<char>>)
    ensures
        forall|i: int, j: int|
            0 <= i < j < scan_items(text, location).len() ==> (#[trigger] scan_items(
                text,
                location,
            )[i] matches Ok(earlier) ==> (#[trigger] scan_items(text, location)[j] matches Ok(
                later,
            ) ==> earlier.start <= earlier.end < later.start <= later.end)),
{
    lemma_items_ascend(text, location, 0, false);
    let items = scan_items(text, location);
    assert forall|i: int, j: int| 0 <= i < j < items.len() implies (#[trigger] items[i] matches Ok(
        earlier,
    ) ==> (#[trigger] items[j] matches Ok(later) ==> earlier.start <= earlier.end < later.start
        <= later.end)) by {
        if let Ok(earlier) = items[i] {
            if let Ok(later) = items[j] {
                assert(earlier.end < later.start);
            }
        }
    }
}

/// The same of a scan from any position on: its tokens lie at or behind
/// that position, within the source or right behind it, and in order.
pub proof fn lemma_items_ascend(
    text: Seq<char>,
    location: Option<Seq<char>>,
    position: int,
    terminated: bool,
)
    requires
        0 <= position <= text.len(),
    ensures
        forall|i: int|
            0 <= i < items_from(text, location, position, terminated).len() ==> (
            #[trigger] items_from(text, location, position, terminated)[i] matches Ok(token)
                ==> position <= token.start <= token.end <= text.len()),
        forall|i: int, j: int|
            0 <= i < j < items_from(text, location, position, terminated).len() ==> (
            #[trigger] items_from(text, location, position, terminated)[i] matches Ok(earlier)
                ==> (#[trigger] items_from(text, location, position, terminated)[j] matches Ok(
                later,
            ) ==> earlier.end < later.start)),
    decreases text.len() - position, if terminated { 0nat } else { 1nat },
{
    let items = items_from(text, location, position, terminated);
    match yielded(text, location, position, terminated) {
        None => {
            assert(items =~= Seq::empty());
        },
        Some(first) => {
            let next = position_after(text, position);
            let rest = items_from(text, location, next, position >= text.len());
            if position < text.len() {
                lemma_position_after_bounds(text, position);
                lemma_skip_trivia_bounds(text, position);
                lemma_lexeme_end_bounds(text, skip_trivia(text, position));
            }
            lemma_items_ascend(text, location, next, position >= text.len());
            assert(items =~= seq![first] + rest);
            if position >= text.len() {
                assert(items_from(text, location, position, true) =~= Seq::empty());
            }
            assert forall|i: int| 0 <= i < items.len() implies (#[trigger] items[i] matches Ok(
                token,
            ) ==> position <= token.start <= token.end <= text.len()) by {
                if i > 0 {
                    assert(items[i] == rest[i - 1]);
                }
            }
            assert forall|i: int, j: int| 0 <= i < j < items.len() implies (
            #[trigger] items[i] matches Ok(earlier) ==> (#[trigger] items[j] matches Ok(later)
                ==> earlier.end < later.start)) by {
                assert(items[j] == rest[j - 1]);
                if i > 0 {
                    assert(items[i] == rest[i - 1]);
                }
            }
        },
    }
}

/// Whether `item` is what a scan of `text` yields somewhere: the item of the
/// lexeme at some index, or the end token.
pub open spec fn is_item_of(text: Seq<char>, location: Option<Seq<char>>, item: ItemView) -> bool {
    ||| item == Ok::<_, LoxErrorView>(end_token(text))
    ||| exists|at: int| 0 <= at < text.len() && item == #[trigger] item_at(text, location, at)
}

/// Every item of a scan is the item of a lexeme of the source, or the end
/// token.
pub proof fn lemma_items_are_lexemes(
    text: Seq<char>,
    location: Option<Seq<char>>,
    position: int,
    terminated: bool,
)
    requires
        0 <= position <= text.len(),
    ensures
        forall|i: int|
            0 <= i < items_from(text, location, position, terminated).len() ==> is_item_of(
                text,
                location,
                #[trigger] items_from(text, location, position, terminated)[i],
            ),
    decreases text.len() - position, if terminated { 0nat } else { 1nat },
{
    let items = items_from(text, location, position, terminated);
    match yielded(text, location, position, terminated) {
        None => {
            assert(items =~= Seq::empty());
        },
        Some(first) => {
            let next = position_after(text, position);
            let rest = items_from(text, location, next, position >= text.len());
            if position < text.len() {
                lemma_position_after_bounds(text, position);
                lemma_skip_trivia_bounds(text, position);
            }
            lemma_items_are_lexemes(text, location, next, position >= text.len());
            assert(items =~= seq![first] + rest);
            assert forall|i: int| 0 <= i < items.len() implies is_item_of(
                text,
                location,
                #[trigger] items[i],
            ) by {
                if i > 0 {
                    assert(items[i] == rest[i - 1]);
                }
            }
        },
    }
}

/// Every error of a scan is about a stretch of the source: its span is in
/// order and ends within the source.
pub proof fn lemma_error_spans_in_order(text: Seq<char>, location: Option<Seq<char>>)
    ensures
        forall|i: int|
            0 <= i < scan_items(text, location).len() ==> (#[trigger] scan_items(
                text,
                location,
            )[i] matches Err(error) ==> error.span_start() <= error.span_end() < text.len()),
{
    let items = scan_items(text, location);
    lemma_items_are_lexemes(text, location, 0, false);
    assert forall|i: int| 0 <= i < items.len() implies (#[trigger] items[i] matches Err(error)
        ==> error.span_start() <= error.span_end() < text.len()) by {
        if items[i] is Err {
            let at = choose|at: int|
                0 <= at < text.len() && items[i] == #[trigger] item_at(text, location, at);
            lemma_lexeme_end_bounds(text, at);
        }
    }
}

/// A scan reports unexpected characters and unterminated strings, and
/// nothing else: the end of the source and a slice out of bounds, which the
/// cursor's own steps may meet, are no errors of a scan.
pub proof fn lemma_scan_errors_are_lexical(text: Seq<char>, location: Option<Seq<char>>)
    ensures
        forall|i: int|
            0 <= i < scan_items(text, location).len() ==> (#[trigger] scan_items(
                text,
                location,
            )[i] matches Err(error) ==> error.kind is UnexpectedCharacter
                || error.kind is UnterminatedString),
{
    let items = scan_items(text, location);
    lemma_items_are_lexemes(text, location, 0, false);
    assert forall|i: int| 0 <= i < items.len() implies (#[trigger] items[i] matches Err(error)
        ==> error.kind is UnexpectedCharacter || error.kind is UnterminatedString) by {
        if items[i] is Err {
            let at = choose|at: int|
                0 <= at < text.len() && items[i] == #[trigger] item_at(text, location, at);
        }
    }
}

/// Whether `text` is one digit or more.
pub open spec fn is_digits(text: Seq<char>) -> bool {
    text.len() > 0 && forall|i: int| 0 <= i < text.len() ==> is_digit(#[trigger] text[i])
}

/// Whether `text` is a number as it is written: digits, or digits, a dot and
/// digits.
pub open spec fn is_number_text(text: Seq<char>) -> bool {
    ||| is_digits(text)
    ||| exists|dot: int|
        0 < dot < text.len() - 1 && #[trigger] text[dot] == '.' && is_digits(text.take(dot))
            && is_digits(text.skip(dot + 1))
}

/// Whether the text that `token` carries, if it carries one, is the text of
/// `text` at its span: all of it for an identifier and for a number, which
/// is written as a number is, and what stands between the two quotes for a
/// string.
pub open spec fn carries_its_span(text: Seq<char>, token: TokenView) -> bool {
    let start = token.start as int;
    let end = token.end as int;
    match token.kind {
        TokenKindView::Identifier(word) => word == text.subrange(start, end + 1),
        TokenKindView::Number(literal) => literal == text.subrange(start, end + 1)
            && is_number_text(literal),
        TokenKindView::String(body) => start < end && text[start] == '"' && text[end] == '"'
            && body == text.subrange(start + 1, end),
        _ => true,
    }
}

/// The text that a token of a scan carries is the text of the source at its
/// span.
pub proof fn lemma_token_text_is_its_span(text: Seq<char>, location: Option<Seq<char>>)
    ensures
        forall|i: int|
            0 <= i < scan_items(text, location).len() ==> (#[trigger] scan_items(
                text,
                location,
            )[i] matches Ok(token) ==> carries_its_span(text, token)),
{
    let items = scan_items(text, location);
    lemma_items_are_lexemes(text, location, 0, false);
    assert forall|i: int| 0 <= i < items.len() implies (#[trigger] items[i] matches Ok(token)
        ==> carries_its_span(text, token)) by {
        if let Ok(token) = items[i] {
            if !(token.kind is Eof) {
                let at = choose|at: int|
                    0 <= at < text.len() && items[i] == #[trigger] item_at(text, location, at);
                lemma_lexeme_end_bounds(text, at);
                lemma_find_from_bounds(text, at + 1, '"');
                if is_digit(text[at]) {
                    lemma_number_text(text, at);
                }
            }
        }
    }
}

/// The number literal that starts with the digit at `at` is written as
/// digits, or as digits, a dot and digits.
pub proof fn lemma_number_text(text: Seq<char>, at: int)
    requires
        0 <= at < text.len(),
        is_digit(text[at]),
    ensures
        is_number_text(text.subrange(at, number_end(text, at))),
{
    let digit = |c: char| is_digit(c);
    let whole = run_end(text, at, digit);
    let end = number_end(text, at);
    let literal = text.subrange(at, end);
    lemma_run_end_bounds(text, at, digit);
    lemma_run_end_bounds(text, at + 1, digit);
    if end == whole {
        assert(is_digits(literal));
    } else {
        lemma_run_end_bounds(text, whole + 1, digit);
        lemma_run_end_bounds(text, whole + 2, digit);
        let dot = whole - at;
        assert(literal[dot] == '.');
        assert(literal.take(dot) =~= text.subrange(at, whole));
        assert(literal.skip(dot + 1) =~= text.subrange(whole + 1, end));
        assert(is_digits(literal.take(dot)));
        assert(is_digits(literal.skip(dot + 1)));
    }
}

/// A string literal comes back whole: the scan of a quote, a text without a
/// quote and a quote yields that text as one string token, which spans both
/// quotes, and then the end token.
pub proof fn lemma_string_literal_round_trip(body: Seq<char>, location: Option<Seq<char>>)
    requires
        !body.contains('"'),
    ensures
        scan_items(seq!['"'] + body + seq!['"'], location) == seq![
            Ok::<_, LoxErrorView>(
                TokenView { kind: TokenKindView::String(body), start: 0, end: body.len() + 1 },
            ),
            Ok(
                TokenView {
                    kind: TokenKindView::Eof,
                    start: body.len() + 2,
                    end: body.len() + 2,
                },
            ),
        ],
{
    let text = seq!['"'] + body + seq!['"'];
    let close = body.len() + 1;
    assert forall|i: int| 1 <= i < close implies text[i] != '"' by {
        assert(text[i] == body[i - 1]);
        assert(body.contains(body[i - 1]));
    }
    lemma_find_from_is_first(text, 1, '"', close as int);
    assert(skip_trivia(text, 0) == 0);
    assert(lexeme_end(text, 0) == close + 1);
    assert(text.subrange(1, close as int) =~= body);
    assert(items_from(text, location, text.len() as int, true) =~= Seq::empty());
    assert(items_from(text, location, text.len() as int, false) =~= seq![Ok(end_token(text))]);
    assert(scan_items(text, location) =~= seq![item_at(text, location, 0)] + items_from(
        text,
        location,
        text.len() as int,
        false,
    ));
}

/// Two cursors in the same source, with the same label, that have read
/// equally far yield the same items, however each of them was made.
pub proof fn lemma_cursors_agree(first: ScannerIter<'_, '_>, second: ScannerIter<'_, '_>)
    requires
        first.wf(),
        second.wf(),
        first.source() == second.source(),
        first.location() == second.location(),
        first.position() == second.position(),
        first.terminated() == second.terminated(),
    ensures
        first.remaining_items() == second.remaining_items(),
        yielded(first.source(), first.location(), first.position() as int, first.terminated())
            == yielded(
            second.source(),
            second.location(),
            second.position() as int,
            second.terminated(),
        ),
{
}

} // verus!
