//! The scanner: a source to scan, and the cursor that walks it and yields
//! its tokens and errors one by one.

use crate::error::{LoxError, LoxErrorKind, LoxErrorKindView, LoxResult};
use crate::grammar::{
    error_at, is_digit, is_letter, is_word_char, item_at, items_from, lemma_lexeme_end_bounds,
    lemma_position_after_bounds, lemma_run_end_bounds, lemma_skip_trivia_bounds, lexeme_end,
    position_after, run_end, skip_trivia, symbol_kind, word_kind, yielded, ItemView,
};
use crate::report::{span_fits, spans_fit};
use crate::text::{
    byte_offset, find_from, first_char, label_view, lemma_byte_offset_step,
    lemma_chars_between_offsets, lemma_encode_len, lemma_encode_subrange,
    lemma_find_from_bounds, lemma_newline_count_step, newline_count, nth_char, slice_bytes,
    split_first, text_eq,
};
pub use crate::token::{Token, TokenKind, TokenKindView, TokenView};
use vstd::prelude::*;
use vstd::utf8::{decode_utf8, encode_utf8, encode_utf8_decode_utf8, is_char_boundary};

verus! {

/// What a step of a scan yields, as a mathematical value.
pub open spec fn item_view(item: LoxResult<Token<'_>>) -> ItemView {
    match item {
        Ok(token) => Ok(token@),
        Err(error) => Err(error@),
    }
}

/// The items of a scan as mathematical values, in their order.
pub open spec fn items_view(items: Seq<LoxResult<Token<'_>>>) -> Seq<ItemView> {
    items.map_values(|item: LoxResult<Token<'_>>| item_view(item))
}

/// Whether the span of `item`, where that is a token, is a range as it is
/// made: one that no iteration has run through.
pub open spec fn span_is_fresh(item: LoxResult<Token<'_>>) -> bool {
    item matches Ok(token) ==> !token.span@.exhausted
}

/// Whether `c` is a decimal digit.
pub fn char_is_digit(c: char) -> (yes: bool)
    ensures
        yes == is_digit(c),
{
    '0' <= c && c <= '9'
}

/// Whether `c` is a letter from `a` to `z`, small or capital.
pub fn char_is_letter(c: char) -> (yes: bool)
    ensures
        yes == is_letter(c),
{
    ('a' <= c && c <= 'z') || ('A' <= c && c <= 'Z')
}

/// The kind of the word `lexeme`: that of the reserved word that it is, else
/// an identifier.
pub fn word<'src>(lexeme: &'src str) -> (kind: TokenKind<'src>)
    ensures
        kind@ == word_kind(lexeme@),
{
    if text_eq(lexeme, "and") {
        TokenKind::And
    } else if text_eq(lexeme, "class") {
        TokenKind::Class
    } else if text_eq(lexeme, "else") {
        TokenKind::Else
    } else if text_eq(lexeme, "false") {
        TokenKind::False
    } else if text_eq(lexeme, "fun") {
        TokenKind::Fun
    } else if text_eq(lexeme, "for") {
        TokenKind::For
    } else if text_eq(lexeme, "if") {
        TokenKind::If
    } else if text_eq(lexeme, "nil") {
        TokenKind::Nil
    } else if text_eq(lexeme, "or") {
        TokenKind::Or
    } else if text_eq(lexeme, "print") {
        TokenKind::Print
    } else if text_eq(lexeme, "return") {
        TokenKind::Return
    } else if text_eq(lexeme, "super") {
        TokenKind::Super
    } else if text_eq(lexeme, "this") {
        TokenKind::This
    } else if text_eq(lexeme, "true") {
        TokenKind::True
    } else if text_eq(lexeme, "var") {
        TokenKind::Var
    } else if text_eq(lexeme, "while") {
        TokenKind::While
    } else {
        TokenKind::Identifier(lexeme)
    }
}

/// The kind of the punctuation mark or operator that starts with `c`, where
/// `longer` says whether `=` follows and belongs to it; `None` where `c`
/// starts neither.
pub fn symbol(c: char, longer: bool) -> (kind: Option<TokenKind<'static>>)
    ensures
        (match kind {
            Some(kind) => Some(kind@),
            None => None,
        }) == symbol_kind(c, longer),
{
    if c == '(' {
        Some(TokenKind::LeftParen)
    } else if c == ')' {
        Some(TokenKind::RightParen)
    } else if c == '{' {
        Some(TokenKind::LeftBrace)
    } else if c == '}' {
        Some(TokenKind::RightBrace)
    } else if c == ',' {
        Some(TokenKind::Comma)
    } else if c == '.' {
        Some(TokenKind::Dot)
    } else if c == '-' {
        Some(TokenKind::Minus)
    } else if c == '+' {
        Some(TokenKind::Plus)
    } else if c == ';' {
        Some(TokenKind::Semicolon)
    } else if c == '*' {
        Some(TokenKind::Star)
    } else if c == '/' {
        Some(TokenKind::Slash)
    } else if c == '!' {
        Some(if longer { TokenKind::BangEqual } else { TokenKind::Bang })
    } else if c == '=' {
        Some(if longer { TokenKind::EqualEqual } else { TokenKind::Equal })
    } else if c == '<' {
        Some(if longer { TokenKind::LessEqual } else { TokenKind::Less })
    } else if c == '>' {
        Some(if longer { TokenKind::GreaterEqual } else { TokenKind::Greater })
    } else {
        None
    }
}

/// A source text to scan, with the label under which errors in it are
/// reported, if it has one.
#[derive(Debug)]
pub struct Scanner<'src> {
    source: &'src str,
    location: Option<&'src str>,
}

impl<'src> Scanner<'src> {
    /// The characters of the source.
    pub closed spec fn source(&self) -> Seq<char> {
        self.source@
    }

    /// The label of the source.
    pub closed spec fn location(&self) -> Option<Seq<char>> {
        label_view(self.location)
    }

    /// A scanner of `source`, which `location` labels.
    pub fn new(source: &'src str, location: Option<&'src str>) -> (scanner: Self)
        ensures
            scanner.source() == source@,
            scanner.location() == label_view(location),
    {
        Self { source, location }
    }

    /// A cursor at the start of the source. Each call gives a cursor of its
    /// own.
    pub fn scan<'scanner>(&'scanner self) -> (cursor: ScannerIter<'scanner, 'src>)
        ensures
            cursor.wf(),
            cursor.source() == self.source(),
            cursor.location() == self.location(),
            cursor.position() == 0,
            !cursor.terminated(),
    {
        ScannerIter::new(self)
    }
}

/// A cursor in a scanner's source: how far it has read, in characters, in
/// bytes and in lines, and whether it has yielded the end token.
#[derive(Debug)]
pub struct ScannerIter<'scanner, 'src> {
    scanner: &'scanner Scanner<'src>,
    /// What is left to read.
    rest: &'src str,
    current_line: usize,
    current_char: usize,
    current_byte: usize,
    is_terminated: bool,
}

impl<'scanner, 'src> ScannerIter<'scanner, 'src> {
    /// The characters of the source.
    pub closed spec fn source(&self) -> Seq<char> {
        self.scanner.source()
    }

    /// The label of the source.
    pub closed spec fn location(&self) -> Option<Seq<char>> {
        self.scanner.location()
    }

    /// How many characters the cursor has read.
    pub closed spec fn position(&self) -> nat {
        self.current_char as nat
    }

    /// Whether the cursor has yielded the end token.
    pub closed spec fn terminated(&self) -> bool {
        self.is_terminated
    }

    /// The items that the cursor has yet to yield, until a step yields
    /// nothing.
    pub open spec fn remaining_items(&self) -> Seq<ItemView> {
        items_from(self.source(), self.location(), self.position() as int, self.terminated())
    }

    /// The cursor's counts agree with each other: it lies within the source,
    /// what is left to read is the source from there on, the byte offset is
    /// that of the position, the line is the number of line feeds read, and
    /// the end token comes at the end only.
    pub closed spec fn wf(&self) -> bool {
        &&& self.current_char <= self.source().len()
        &&& self.rest@ == self.source().skip(self.current_char as int)
        &&& self.current_byte == byte_offset(self.source(), self.current_char as int)
        &&& self.current_line == newline_count(self.source().take(self.current_char as int))
        &&& self.is_terminated ==> self.current_char == self.source().len()
    }

    /// A cursor at the start of `scanner`'s source.
    pub fn new(scanner: &'scanner Scanner<'src>) -> (cursor: Self)
        ensures
            cursor.wf(),
            cursor.source() == scanner.source(),
            cursor.location() == scanner.location(),
            cursor.position() == 0,
            !cursor.terminated(),
    {
        proof {
            assert(scanner.source@.skip(0) =~= scanner.source@);
            assert(scanner.source@.take(0) =~= Seq::<char>::empty());
        }
        Self {
            scanner,
            rest: scanner.source,
            current_line: 0,
            current_char: 0,
            current_byte: 0,
            is_terminated: false,
        }
    }

    /// The error of kind `kind` at the cursor: on the line that it has
    /// reached, at the last character read, with the source's label.
    pub fn error(&self, kind: LoxErrorKind) -> (error: LoxError)
        requires
            self.wf(),
        ensures
            error@ == error_at(self.source(), self.location(), kind@, self.position() as int),
    {
        let column = if self.current_char > 0 {
            self.current_char - 1
        } else {
            0
        };
        LoxError::new(kind, self.current_line, column).with_path(self.scanner.location)
    }

    /// The part of the source between two byte offsets. An `InvalidInput`
    /// error where they are out of order, past the end, or not both
    /// boundaries of characters.
    pub fn source_slice(&self, start_byte: usize, end_byte: usize) -> (part: LoxResult<&'src str>)
        requires
            self.wf(),
        ensures
            part is Ok <==> start_byte <= end_byte <= encode_utf8(self.source()).len()
                && is_char_boundary(encode_utf8(self.source()), start_byte as int)
                && is_char_boundary(encode_utf8(self.source()), end_byte as int),
            part matches Ok(text) ==> text@ == decode_utf8(
                encode_utf8(self.source()).subrange(start_byte as int, end_byte as int),
            ),
            part matches Err(error) ==> error@ == error_at(
                self.source(),
                self.location(),
                LoxErrorKindView::InvalidInput,
                self.position() as int,
            ),
    {
        match slice_bytes(self.scanner.source, start_byte, end_byte) {
            Some(text) => {
                proof {
                    encode_utf8_decode_utf8(text@);
                }
                Ok(text)
            },
            None => Err(self.error(LoxErrorKind::InvalidInput)),
        }
    }

    /// Whether the cursor has read the whole source.
    pub fn is_end(&self) -> (at_end: bool)
        requires
            self.wf(),
        ensures
            at_end == (self.position() >= self.source().len()),
    {
        self.rest.is_empty()
    }

    /// Reads one character. An `UnexpectedEof` error at the end of the
    /// source, where the cursor stays as it is.
    pub fn advance(&mut self) -> (read: LoxResult<char>)
        requires
            old(self).wf(),
        ensures
            final(self).wf(),
            final(self).source() == old(self).source(),
            final(self).location() == old(self).location(),
            final(self).terminated() == old(self).terminated(),
            match read {
                Ok(c) => {
                    &&& old(self).position() < old(self).source().len()
                    &&& c == old(self).source()[old(self).position() as int]
                    &&& final(self).position() == old(self).position() + 1
                },
                Err(error) => {
                    &&& old(self).position() >= old(self).source().len()
                    &&& final(self).position() == old(self).position()
                    &&& error@ == error_at(
                        old(self).source(),
                        old(self).location(),
                        LoxErrorKindView::UnexpectedEof,
                        old(self).position() as int,
                    )
                },
            },
    {
        match split_first(self.rest) {
            None => Err(self.error(LoxErrorKind::UnexpectedEof)),
            Some((c, rest)) => {
                proof {
                    let text = self.source();
                    let at = self.current_char as int;
                    lemma_encode_len(text);
                    lemma_encode_subrange(text, at + 1, text.len() as int);
                    lemma_newline_count_step(text, at);
                    assert(text.take(text.len() as int) =~= text);
                    assert(text.skip(at).drop_first() =~= text.skip(at + 1));
                    assert(text.subrange(at + 1, text.len() as int) =~= text.skip(at + 1));
                }
                // What has been read is what the source holds more than what is
                // left of it.
                let read = self.scanner.source.as_bytes().len() - rest.as_bytes().len();
                self.rest = rest;
                self.current_char = self.current_char + 1;
                self.current_byte = read;
                if c == '\n' {
                    self.current_line = self.current_line + 1;
                }
                Ok(c)
            },
        }
    }

    /// The next character, which stays unread.
    pub fn peek(&self) -> (next: Option<char>)
        requires
            self.wf(),
        ensures
            next == (if self.position() < self.source().len() {
                Some(self.source()[self.position() as int])
            } else {
                None
            }),
    {
        first_char(self.rest)
    }

    /// The character `n` places behind the next one, which stays unread.
    pub fn peek_nth(&self, n: usize) -> (found: Option<char>)
        requires
            self.wf(),
        ensures
            found == (if self.position() + n < self.source().len() {
                Some(self.source()[self.position() + n])
            } else {
                None
            }),
    {
        nth_char(self.rest, n)
    }

    /// Reads the next character if it is `expected`, and says whether it did.
    pub fn find(&mut self, expected: char) -> (found: bool)
        requires
            old(self).wf(),
        ensures
            final(self).wf(),
            final(self).source() == old(self).source(),
            final(self).location() == old(self).location(),
            final(self).terminated() == old(self).terminated(),
            found == (old(self).position() < old(self).source().len() && old(self).source()[old(
                self,
            ).position() as int] == expected),
            final(self).position() == old(self).position() + if found {
                1nat
            } else {
                0nat
            },
    {
        match self.peek() {
            Some(c) => {
                if c == expected {
                    let _ = self.advance();
                    true
                } else {
                    false
                }
            },
            None => false,
        }
    }

    /// Reads up to the next `expected`, which stays unread, or to the end of
    /// the source, and says whether it found one.
    pub fn consume_until(&mut self, expected: char) -> (found: LoxResult<bool>)
        requires
            old(self).wf(),
        ensures
            final(self).wf(),
            final(self).source() == old(self).source(),
            final(self).location() == old(self).location(),
            final(self).terminated() == old(self).terminated(),
            final(self).position() == find_from(
                old(self).source(),
                old(self).position() as int,
                expected,
            ),
            found == Ok::<bool, LoxError>(final(self).position() < old(self).source().len()),
    {
        loop
            invariant
                self.wf(),
                self.source() == old(self).source(),
                self.location() == old(self).location(),
                self.terminated() == old(self).terminated(),
                find_from(self.source(), self.position() as int, expected) == find_from(
                    old(self).source(),
                    old(self).position() as int,
                    expected,
                ),
            decreases self.source().len() - self.position(),
        {
            match self.peek() {
                None => {
                    return Ok(false);
                },
                Some(c) => {
                    if c == expected {
                        return Ok(true);
                    }
                    match self.advance() {
                        Ok(_) => {},
                        Err(error) => {
                            return Err(error);
                        },
                    }
                },
            }
        }
    }

    /// Scans the rest of the string literal whose opening quote, at
    /// character index `start`, the cursor has just read.
    fn string(&mut self, start: usize) -> (item: LoxResult<Token<'src>>)
        requires
            old(self).wf(),
            old(self).position() == start + 1,
            old(self).source()[start as int] == '"',
        ensures
            final(self).wf(),
            final(self).source() == old(self).source(),
            final(self).location() == old(self).location(),
            final(self).terminated() == old(self).terminated(),
            final(self).position() == lexeme_end(old(self).source(), start as int),
            item_view(item) == item_at(old(self).source(), old(self).location(), start as int),
            span_is_fresh(item),
    {
        let start_byte = self.current_byte;
        proof {
            lemma_find_from_bounds(self.source(), start + 1, '"');
        }
        match self.consume_until('"') {
            Ok(true) => {},
            Ok(false) => {
                return Err(self.error(LoxErrorKind::UnterminatedString { start }));
            },
            Err(error) => {
                return Err(error);
            },
        }
        let end_byte = self.current_byte;
        let ghost close = self.position() as int;
        match self.advance() {
            Ok(_) => {},
            Err(error) => {
                return Err(error);
            },
        }
        proof {
            lemma_chars_between_offsets(self.source(), start + 1, close);
        }
        match self.source_slice(start_byte, end_byte) {
            Ok(text) => Ok(
                Token { kind: TokenKind::String(text), span: start..=(self.current_char - 1) },
            ),
            Err(error) => Err(error),
        }
    }

    /// Reads the digits that follow.
    fn digits(&mut self)
        requires
            old(self).wf(),
        ensures
            final(self).wf(),
            final(self).source() == old(self).source(),
            final(self).location() == old(self).location(),
            final(self).terminated() == old(self).terminated(),
            final(self).position() == run_end(
                old(self).source(),
                old(self).position() as int,
                |c: char| is_digit(c),
            ),
    {
        loop
            invariant
                self.wf(),
                self.source() == old(self).source(),
                self.location() == old(self).location(),
                self.terminated() == old(self).terminated(),
                run_end(self.source(), self.position() as int, |c: char| is_digit(c)) == run_end(
                    old(self).source(),
                    old(self).position() as int,
                    |c: char| is_digit(c),
                ),
            decreases self.source().len() - self.position(),
        {
            match self.peek() {
                Some(c) => {
                    if !char_is_digit(c) {
                        return ;
                    }
                    let _ = self.advance();
                },
                None => {
                    return ;
                },
            }
        }
    }

    /// Reads the letters and digits that follow.
    fn word_chars(&mut self)
        requires
            old(self).wf(),
        ensures
            final(self).wf(),
            final(self).source() == old(self).source(),
            final(self).location() == old(self).location(),
            final(self).terminated() == old(self).terminated(),
            final(self).position() == run_end(
                old(self).source(),
                old(self).position() as int,
                |c: char| is_word_char(c),
            ),
    {
        loop
            invariant
                self.wf(),
                self.source() == old(self).source(),
                self.location() == old(self).location(),
                self.terminated() == old(self).terminated(),
                run_end(self.source(), self.position() as int, |c: char| is_word_char(c))
                    == run_end(
                    old(self).source(),
                    old(self).position() as int,
                    |c: char| is_word_char(c),
                ),
            decreases self.source().len() - self.position(),
        {
            match self.peek() {
                Some(c) => {
                    if !(char_is_digit(c) || char_is_letter(c)) {
                        return ;
                    }
                    let _ = self.advance();
                },
                None => {
                    return ;
                },
            }
        }
    }

    /// Scans the rest of the number literal whose first digit, at character
    /// index `start`, the cursor has just read.
    fn number(&mut self, start: usize) -> (item: LoxResult<Token<'src>>)
        requires
            old(self).wf(),
            old(self).position() == start + 1,
            is_digit(old(self).source()[start as int]),
        ensures
            final(self).wf(),
            final(self).source() == old(self).source(),
            final(self).location() == old(self).location(),
            final(self).terminated() == old(self).terminated(),
            final(self).position() == lexeme_end(old(self).source(), start as int),
            item_view(item) == item_at(old(self).source(), old(self).location(), start as int),
            span_is_fresh(item),
    {
        proof {
            lemma_byte_offset_step(self.source(), start as int);
            lemma_run_end_bounds(self.source(), start + 1, |c: char| is_digit(c));
        }
        // A digit takes one byte.
        let start_byte = self.current_byte - 1;
        self.digits();
        let dot = self.peek();
        let digit = self.peek_nth(1);
        match (dot, digit) {
            (Some(c), Some(d)) => {
                if c == '.' && char_is_digit(d) {
                    let _ = self.advance();
                    proof {
                        lemma_run_end_bounds(
                            self.source(),
                            self.position() as int,
                            |c: char| is_digit(c),
                        );
                    }
                    self.digits();
                }
            },
            _ => {},
        }
        let end_byte = self.current_byte;
        proof {
            lemma_chars_between_offsets(self.source(), start as int, self.position() as int);
        }
        match self.source_slice(start_byte, end_byte) {
            Ok(lexeme) => Ok(
                Token { kind: TokenKind::Number(lexeme), span: start..=(self.current_char - 1) },
            ),
            Err(error) => Err(error),
        }
    }

    /// Scans the rest of the word whose first letter, at character index
    /// `start`, the cursor has just read: a reserved word or an identifier.
    fn ident(&mut self, start: usize) -> (item: LoxResult<Token<'src>>)
        requires
            old(self).wf(),
            old(self).position() == start + 1,
            is_letter(old(self).source()[start as int]),
        ensures
            final(self).wf(),
            final(self).source() == old(self).source(),
            final(self).location() == old(self).location(),
            final(self).terminated() == old(self).terminated(),
            final(self).position() == lexeme_end(old(self).source(), start as int),
            item_view(item) == item_at(old(self).source(), old(self).location(), start as int),
            span_is_fresh(item),
    {
        proof {
            lemma_byte_offset_step(self.source(), start as int);
            lemma_run_end_bounds(self.source(), start + 1, |c: char| is_word_char(c));
        }
        // A letter takes one byte.
        let start_byte = self.current_byte - 1;
        self.word_chars();
        let end_byte = self.current_byte;
        proof {
            lemma_chars_between_offsets(self.source(), start as int, self.position() as int);
        }
        match self.source_slice(start_byte, end_byte) {
            Ok(lexeme) => Ok(Token { kind: word(lexeme), span: start..=(self.current_char - 1) }),
            Err(error) => Err(error),
        }
    }

    /// Scans the next lexeme, behind the blanks and comments before it. An
    /// `UnexpectedEof` error where the source holds no further lexeme.
    fn next_token(&mut self) -> (item: LoxResult<Token<'src>>)
        requires
            old(self).wf(),
        ensures
            final(self).wf(),
            final(self).source() == old(self).source(),
            final(self).location() == old(self).location(),
            final(self).terminated() == old(self).terminated(),
            span_is_fresh(item),
            ({
                let text = old(self).source();
                let at = skip_trivia(text, old(self).position() as int);
                if at < text.len() {
                    &&& item_view(item) == item_at(text, old(self).location(), at)
                    &&& final(self).position() == lexeme_end(text, at)
                } else {
                    &&& item_view(item) == Err::<TokenView, _>(
                        error_at(
                            text,
                            old(self).location(),
                            LoxErrorKindView::UnexpectedEof,
                            text.len() as int,
                        ),
                    )
                    &&& final(self).position() == text.len()
                }
            }),
    {
        loop
            invariant
                self.wf(),
                self.source() == old(self).source(),
                self.location() == old(self).location(),
                self.terminated() == old(self).terminated(),
                skip_trivia(self.source(), self.position() as int) == skip_trivia(
                    old(self).source(),
                    old(self).position() as int,
                ),
            decreases self.source().len() - self.position(),
        {
            let lexeme_start = self.current_char;
            let c = match self.advance() {
                Ok(c) => c,
                Err(error) => {
                    return Err(error);
                },
            };
            if c == ' ' || c == '\r' || c == '\t' || c == '\n' {
                // Nothing stands here: on to what follows
            } else if c == '/' && self.find('/') {
                // A comment: on to what follows the line
                proof {
                    lemma_find_from_bounds(self.source(), lexeme_start + 2, '\n');
                }
                match self.consume_until('\n') {
                    Ok(_) => {},
                    Err(error) => {
                        return Err(error);
                    },
                }
            } else if c == '"' {
                return self.string(lexeme_start);
            } else if char_is_digit(c) {
                return self.number(lexeme_start);
            } else if char_is_letter(c) {
                return self.ident(lexeme_start);
            } else {
                let longer = (c == '!' || c == '=' || c == '<' || c == '>') && self.find('=');
                return match symbol(c, longer) {
                    Some(kind) => Ok(Token::empty(kind, lexeme_start..=(self.current_char - 1))),
                    None => Err(self.error(LoxErrorKind::UnexpectedCharacter { c })),
                };
            }
        }
    }

    /// Scans the next lexeme; `None` where the source holds no further one.
    fn try_next_token(&mut self) -> (item: LoxResult<Option<Token<'src>>>)
        requires
            old(self).wf(),
            old(self).position() < old(self).source().len(),
        ensures
            final(self).wf(),
            final(self).source() == old(self).source(),
            final(self).location() == old(self).location(),
            final(self).terminated() == old(self).terminated(),
            final(self).position() == position_after(
                old(self).source(),
                old(self).position() as int,
            ),
            item matches Ok(Some(token)) ==> !token.span@.exhausted,
            (match item {
                Ok(Some(token)) => Some(Ok::<TokenView, _>(token@)),
                Ok(None) => None,
                Err(error) => Some(Err(error@)),
            }) == yielded(
                old(self).source(),
                old(self).location(),
                old(self).position() as int,
                old(self).terminated(),
            ),
    {
        match self.next_token() {
            Ok(token) => Ok(Some(token)),
            Err(error) => match error.kind {
                LoxErrorKind::UnexpectedEof => Ok(None),
                _ => Err(error),
            },
        }
    }

    /// Yields the next item of the scan: a token or an error. At the end of
    /// the source that is the end token, once, and nothing after it. Where
    /// only blanks and comments are left before the end, it reads them and
    /// yields nothing; the end token is what the step after that yields.
    pub fn next(&mut self) -> (item: Option<LoxResult<Token<'src>>>)
        requires
            old(self).wf(),
        ensures
            final(self).wf(),
            final(self).source() == old(self).source(),
            final(self).location() == old(self).location(),
            final(self).position() == position_after(
                old(self).source(),
                old(self).position() as int,
            ),
            final(self).terminated() == (old(self).position() >= old(self).source().len()),
            item matches Some(found) ==> span_is_fresh(found),
            item matches Some(Err(error)) ==> span_fits(error@),
            (match item {
                Some(found) => Some(item_view(found)),
                None => None,
            }) == yielded(
                old(self).source(),
                old(self).location(),
                old(self).position() as int,
                old(self).terminated(),
            ),
    {
        if self.is_end() {
            if self.is_terminated {
                return None;
            }
            self.is_terminated = true;
            return Some(
                Ok(Token::empty(TokenKind::Eof, self.current_char..=self.current_char)),
            );
        }
        proof {
            let at = skip_trivia(self.source(), self.position() as int);
            lemma_skip_trivia_bounds(self.source(), self.position() as int);
            if at < self.source().len() {
                lemma_lexeme_end_bounds(self.source(), at);
            }
        }
        match self.try_next_token() {
            Ok(Some(token)) => Some(Ok(token)),
            Ok(None) => None,
            Err(error) => Some(Err(error)),
        }
    }

    /// Yields item after item until a step yields nothing, and returns them in
    /// the order in which they came.
    pub fn collect(self) -> (items: Vec<LoxResult<Token<'src>>>)
        requires
            self.wf(),
        ensures
            items_view(items@) == self.remaining_items(),
            forall|i: int| 0 <= i < items.len() ==> span_is_fresh(#[trigger] items[i]),
            spans_fit(items@),
    {
        let mut cursor = self;
        let mut items: Vec<LoxResult<Token<'src>>> = Vec::new();
        let ghost all = cursor.remaining_items();
        assert(items_view(items@) =~= Seq::<ItemView>::empty());
        loop
            invariant
                self.wf(),
                cursor.wf(),
                all == self.remaining_items(),
                items_view(items@) + cursor.remaining_items() == all,
                forall|i: int| 0 <= i < items.len() ==> span_is_fresh(#[trigger] items[i]),
                spans_fit(items@),
            decreases
                    cursor.source().len() - cursor.position(),
                    if cursor.terminated() {
                        0nat
                    } else {
                        1nat
                    },
        {
            let ghost before = items@;
            let ghost rest = cursor.remaining_items();
            let ghost position = cursor.position() as int;
            proof {
                if position < cursor.source().len() {
                    lemma_position_after_bounds(cursor.source(), position);
                }
            }
            match cursor.next() {
                None => {
                    assert(rest =~= Seq::<ItemView>::empty());
                    assert(items_view(items@) + rest =~= items_view(items@));
                    return items;
                },
                Some(item) => {
                    items.push(item);
                    proof {
                        assert(items_view(items@) =~= items_view(before).push(item_view(item)));
                        assert(items_view(items@) + cursor.remaining_items() =~= items_view(before)
                            + rest);
                    }
                },
            }
        }
    }
}

} // verus!
