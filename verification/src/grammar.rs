//! The lexical grammar, as functions of the source's characters: where the
//! next lexeme starts, where it ends, what it is, and what a whole scan
//! yields.

use crate::error::{LoxErrorKindView, LoxErrorView};
use crate::text::{find_from, lemma_find_from_bounds, newline_count};
use crate::token::{TokenKindView, TokenView};
use vstd::prelude::*;

verus! {

/// What one step of a scan yields, as a mathematical value.
pub type ItemView = Result<TokenView, LoxErrorView>;

/// The decimal digits.
pub open spec fn is_digit(c: char) -> bool {
    '0' <= c <= '9'
}

/// The letters from `a` to `z`, small and capital.
pub open spec fn is_letter(c: char) -> bool {
    'a' <= c <= 'z' || 'A' <= c <= 'Z'
}

/// Letters and digits: what a name goes on with.
pub open spec fn is_word_char(c: char) -> bool {
    is_letter(c) || is_digit(c)
}

/// The characters between lexemes that stand for nothing.
pub open spec fn is_blank(c: char) -> bool {
    c == ' ' || c == '\r' || c == '\t' || c == '\n'
}

/// End of the longest stretch of `text` that starts at `from` and holds
/// characters of `class` only: the index behind its last character.
pub open spec fn run_end(text: Seq<char>, from: int, class: spec_fn(char) -> bool) -> int
    decreases text.len() - from,
{
    if from < 0 || from >= text.len() {
        from
    } else if class(text[from]) {
        run_end(text, from + 1, class)
    } else {
        from
    }
}

/// Whether a line comment starts at `at`: two slashes.
pub open spec fn starts_comment(text: Seq<char>, at: int) -> bool {
    0 <= at && at + 1 < text.len() && text[at] == '/' && text[at + 1] == '/'
}

/// Index at or after `from` at which the next lexeme starts: behind all
/// blanks and line comments. The length of `text` where only those are left.
/// A line comment runs up to the next line feed, or to the end.
pub open spec fn skip_trivia(text: Seq<char>, from: int) -> int
    decreases text.len() - from,
{
    if from < 0 || from >= text.len() {
        from
    } else if is_blank(text[from]) {
        skip_trivia(text, from + 1)
    } else if starts_comment(text, from) {
        proof {
            lemma_find_from_bounds(text, from + 2, '\n');
        }
        skip_trivia(text, find_from(text, from + 2, '\n'))
    } else {
        from
    }
}

/// Whether `c` is one of `!`, `=`, `<`, `>`: the operators that a following
/// `=` lengthens.
pub open spec fn takes_equal(c: char) -> bool {
    c == '!' || c == '=' || c == '<' || c == '>'
}

/// Whether the character behind `at` is `=`.
pub open spec fn equal_follows(text: Seq<char>, at: int) -> bool {
    at + 1 < text.len() && text[at + 1] == '='
}

/// End of the number literal that starts with the digit at `at`: digits,
/// and, where a dot and a digit follow them, the dot and the digits behind it.
pub open spec fn number_end(text: Seq<char>, at: int) -> int {
    let whole = run_end(text, at, |c: char| is_digit(c));
    if whole + 1 < text.len() && text[whole] == '.' && is_digit(text[whole + 1]) {
        run_end(text, whole + 1, |c: char| is_digit(c))
    } else {
        whole
    }
}

/// End of the lexeme that starts at `at`: the index behind its last
/// character. An unterminated string runs to the end of `text`.
pub open spec fn lexeme_end(text: Seq<char>, at: int) -> int {
    let c = text[at];
    if c == '"' {
        let close = find_from(text, at + 1, '"');
        if close < text.len() {
            close + 1
        } else {
            text.len() as int
        }
    } else if is_digit(c) {
        number_end(text, at)
    } else if is_letter(c) {
        run_end(text, at + 1, |c: char| is_word_char(c))
    } else if takes_equal(c) && equal_follows(text, at) {
        at + 2
    } else {
        at + 1
    }
}

/// The kind of a word: that of the reserved word that it is, letter for
/// letter, else an identifier.
pub open spec fn word_kind(word: Seq<char>) -> TokenKindView {
    if word == "and"@ {
        TokenKindView::And
    } else if word == "class"@ {
        TokenKindView::Class
    } else if word == "else"@ {
        TokenKindView::Else
    } else if word == "false"@ {
        TokenKindView::False
    } else if word == "fun"@ {
        TokenKindView::Fun
    } else if word == "for"@ {
        TokenKindView::For
    } else if word == "if"@ {
        TokenKindView::If
    } else if word == "nil"@ {
        TokenKindView::Nil
    } else if word == "or"@ {
        TokenKindView::Or
    } else if word == "print"@ {
        TokenKindView::Print
    } else if word == "return"@ {
        TokenKindView::Return
    } else if word == "super"@ {
        TokenKindView::Super
    } else if word == "this"@ {
        TokenKindView::This
    } else if word == "true"@ {
        TokenKindView::True
    } else if word == "var"@ {
        TokenKindView::Var
    } else if word == "while"@ {
        TokenKindView::While
    } else {
        TokenKindView::Identifier(word)
    }
}

/// The kind of the punctuation mark or operator that starts with `c`, where
/// `longer` says whether `=` follows and belongs to it; `None` where `c`
/// starts neither.
pub open spec fn symbol_kind(c: char, longer: bool) -> Option<TokenKindView> {
    if c == '(' {
        Some(TokenKindView::LeftParen)
    } else if c == ')' {
        Some(TokenKindView::RightParen)
    } else if c == '{' {
        Some(TokenKindView::LeftBrace)
    } else if c == '}' {
        Some(TokenKindView::RightBrace)
    } else if c == ',' {
        Some(TokenKindView::Comma)
    } else if c == '.' {
        Some(TokenKindView::Dot)
    } else if c == '-' {
        Some(TokenKindView::Minus)
    } else if c == '+' {
        Some(TokenKindView::Plus)
    } else if c == ';' {
        Some(TokenKindView::Semicolon)
    } else if c == '*' {
        Some(TokenKindView::Star)
    } else if c == '/' {
        Some(TokenKindView::Slash)
    } else if c == '!' {
        Some(if longer { TokenKindView::BangEqual } else { TokenKindView::Bang })
    } else if c == '=' {
        Some(if longer { TokenKindView::EqualEqual } else { TokenKindView::Equal })
    } else if c == '<' {
        Some(if longer { TokenKindView::LessEqual } else { TokenKindView::Less })
    } else if c == '>' {
        Some(if longer { TokenKindView::GreaterEqual } else { TokenKindView::Greater })
    } else {
        None
    }
}

/// The kind of the lexeme that starts at `at`, or the kind of error that it
/// is.
pub open spec fn kind_at(text: Seq<char>, at: int) -> Result<TokenKindView, LoxErrorKindView> {
    let c = text[at];
    let end = lexeme_end(text, at);
    if c == '"' {
        if find_from(text, at + 1, '"') < text.len() {
            Ok(TokenKindView::String(text.subrange(at + 1, end - 1)))
        } else {
            Err(LoxErrorKindView::UnterminatedString { start: at as nat })
        }
    } else if is_digit(c) {
        Ok(TokenKindView::Number(text.subrange(at, end)))
    } else if is_letter(c) {
        Ok(word_kind(text.subrange(at, end)))
    } else {
        match symbol_kind(c, equal_follows(text, at)) {
            Some(kind) => Ok(kind),
            None => Err(LoxErrorKindView::UnexpectedCharacter { c }),
        }
    }
}

/// The error of kind `kind` that a scan of `text` raises when it has read
/// the first `read` characters: on the line that it has reached, at the last
/// character read.
pub open spec fn error_at(
    text: Seq<char>,
    location: Option<Seq<char>>,
    kind: LoxErrorKindView,
    read: int,
) -> LoxErrorView {
    LoxErrorView {
        kind,
        location,
        line: newline_count(text.take(read)),
        column: if read > 0 {
            (read - 1) as nat
        } else {
            0
        },
    }
}

/// What a scan of `text` yields for the lexeme that starts at `at`: a token
/// that spans it, or an error raised behind it.
pub open spec fn item_at(text: Seq<char>, location: Option<Seq<char>>, at: int) -> ItemView {
    let end = lexeme_end(text, at);
    match kind_at(text, at) {
        Ok(kind) => Ok(TokenView { kind, start: at as nat, end: (end - 1) as nat }),
        Err(kind) => Err(error_at(text, location, kind, end)),
    }
}

/// The token that ends every scan of `text`: it lies behind the last
/// character.
pub open spec fn end_token(text: Seq<char>) -> TokenView {
    TokenView { kind: TokenKindView::Eof, start: text.len(), end: text.len() }
}

/// What a cursor yields that has read the first `position` characters of
/// `text`, and has, or has not, yielded the end token. At the end of `text`
/// that is the end token, once. Before it, the next lexeme's item; where only
/// blanks and comments are left, nothing.
pub open spec fn yielded(
    text: Seq<char>,
    location: Option<Seq<char>>,
    position: int,
    terminated: bool,
) -> Option<ItemView> {
    if position >= text.len() {
        if terminated {
            None
        } else {
            Some(Ok(end_token(text)))
        }
    } else {
        let at = skip_trivia(text, position);
        if at >= text.len() {
            None
        } else {
            Some(item_at(text, location, at))
        }
    }
}

/// How many characters of `text` that cursor has read after the step.
pub open spec fn position_after(text: Seq<char>, position: int) -> int {
    if position >= text.len() {
        position
    } else {
        let at = skip_trivia(text, position);
        if at >= text.len() {
            text.len() as int
        } else {
            lexeme_end(text, at)
        }
    }
}

/// The items that a cursor yields, one step after the other, until a step
/// yields nothing.
pub open spec fn items_from(
    text: Seq<char>,
    location: Option<Seq<char>>,
    position: int,
    terminated: bool,
) -> Seq<ItemView>
    decreases text.len() - position, if terminated { 0nat } else { 1nat },
    when 0 <= position
{
    match yielded(text, location, position, terminated) {
        None => Seq::empty(),
        Some(item) => {
            proof {
                if position < text.len() {
                    lemma_position_after_bounds(text, position);
                }
            }
            seq![item] + items_from(
                text,
                location,
                position_after(text, position),
                position >= text.len(),
            )
        },
    }
}

/// The items that a scan of `text` yields, from its first character on.
pub open spec fn scan_items(text: Seq<char>, location: Option<Seq<char>>) -> Seq<ItemView> {
    items_from(text, location, 0, false)
}

/// `run_end` stops at or behind `from`, within `text`, on the first
/// character that is not of `class`.
pub proof fn lemma_run_end_bounds(text: Seq<char>, from: int, class: spec_fn(char) -> bool)
    requires
        0 <= from <= text.len(),
    ensures
        from <= run_end(text, from, class) <= text.len(),
        run_end(text, from, class) < text.len() ==> !class(text[run_end(text, from, class)]),
        forall|i: int| from <= i < run_end(text, from, class) ==> class(text[i]),
    decreases text.len() - from,
{
    if from < text.len() && class(text[from]) {
        lemma_run_end_bounds(text, from + 1, class);
    }
}

/// `skip_trivia` stops at or behind `from`, within `text`, and not on a
/// blank nor on the start of a comment.
pub proof fn lemma_skip_trivia_bounds(text: Seq<char>, from: int)
    requires
        0 <= from <= text.len(),
    ensures
        from <= skip_trivia(text, from) <= text.len(),
        skip_trivia(text, from) < text.len() ==> !is_blank(text[skip_trivia(text, from)])
            && !starts_comment(text, skip_trivia(text, from)),
    decreases text.len() - from,
{
    if from < text.len() {
        if is_blank(text[from]) {
            lemma_skip_trivia_bounds(text, from + 1);
        } else if starts_comment(text, from) {
            lemma_find_from_bounds(text, from + 2, '\n');
            lemma_skip_trivia_bounds(text, find_from(text, from + 2, '\n'));
        }
    }
}

/// A lexeme holds a character at least, and ends within `text`.
pub proof fn lemma_lexeme_end_bounds(text: Seq<char>, at: int)
    requires
        0 <= at < text.len(),
    ensures
        at < lexeme_end(text, at) <= text.len(),
{
    let c = text[at];
    if c == '"' {
        lemma_find_from_bounds(text, at + 1, '"');
    } else if is_digit(c) {
        let whole = run_end(text, at, |c: char| is_digit(c));
        lemma_run_end_bounds(text, at, |c: char| is_digit(c));
        lemma_run_end_bounds(text, at + 1, |c: char| is_digit(c));
        if whole + 1 < text.len() {
            lemma_run_end_bounds(text, whole + 1, |c: char| is_digit(c));
        }
    } else if is_letter(c) {
        lemma_run_end_bounds(text, at + 1, |c: char| is_word_char(c));
    }
}

/// A step from within `text` moves the cursor on, and not past the end.
pub proof fn lemma_position_after_bounds(text: Seq<char>, position: int)
    requires
        0 <= position < text.len(),
    ensures
        position < position_after(text, position) <= text.len(),
{
    lemma_skip_trivia_bounds(text, position);
    let at = skip_trivia(text, position);
    if at < text.len() {
        lemma_lexeme_end_bounds(text, at);
    }
}

} // verus!
