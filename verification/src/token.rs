//! Tokens: the kinds of lexeme, and a kind paired with its place in the
//! source.

use std::ops::RangeInclusive;
use vstd::prelude::*;

verus! {

/// The kind of a lexeme. Kinds that carry text borrow it from the source.
#[derive(Debug, PartialEq)]
pub enum TokenKind<'src> {
    // Single characters: brackets
    LeftParen,
    RightParen,
    LeftBrace,
    RightBrace,
    // Single characters: other
    Comma,
    Dot,
    Minus,
    Plus,
    Semicolon,
    Slash,
    Star,
    // One or two characters
    Bang,
    BangEqual,
    Equal,
    EqualEqual,
    Greater,
    GreaterEqual,
    Less,
    LessEqual,
    // Literals
    /// A name that is no reserved word.
    Identifier(&'src str),
    /// A string literal; the text is what stands between its quotes.
    String(&'src str),
    /// A number literal; the text is the literal as written: digits, then
    /// optionally a dot and more digits.
    Number(&'src str),
    // Keywords
    And,
    Class,
    Else,
    False,
    Fun,
    For,
    If,
    Nil,
    Or,
    Print,
    Return,
    Super,
    This,
    True,
    Var,
    While,
    /// The end of the source.
    Eof,
}

/// A `TokenKind` as a mathematical value.
pub enum TokenKindView {
    LeftParen,
    RightParen,
    LeftBrace,
    RightBrace,
    Comma,
    Dot,
    Minus,
    Plus,
    Semicolon,
    Slash,
    Star,
    Bang,
    BangEqual,
    Equal,
    EqualEqual,
    Greater,
    GreaterEqual,
    Less,
    LessEqual,
    Identifier(Seq<char>),
    String(Seq<char>),
    Number(Seq<char>),
    And,
    Class,
    Else,
    False,
    Fun,
    For,
    If,
    Nil,
    Or,
    Print,
    Return,
    Super,
    This,
    True,
    Var,
    While,
    Eof,
}

impl<'src> View for TokenKind<'src> {
    type V = TokenKindView;

    open spec fn view(&self) -> TokenKindView {
        match *self {
            TokenKind::LeftParen => TokenKindView::LeftParen,
            TokenKind::RightParen => TokenKindView::RightParen,
            TokenKind::LeftBrace => TokenKindView::LeftBrace,
            TokenKind::RightBrace => TokenKindView::RightBrace,
            TokenKind::Comma => TokenKindView::Comma,
            TokenKind::Dot => TokenKindView::Dot,
            TokenKind::Minus => TokenKindView::Minus,
            TokenKind::Plus => TokenKindView::Plus,
            TokenKind::Semicolon => TokenKindView::Semicolon,
            TokenKind::Slash => TokenKindView::Slash,
            TokenKind::Star => TokenKindView::Star,
            TokenKind::Bang => TokenKindView::Bang,
            TokenKind::BangEqual => TokenKindView::BangEqual,
            TokenKind::Equal => TokenKindView::Equal,
            TokenKind::EqualEqual => TokenKindView::EqualEqual,
            TokenKind::Greater => TokenKindView::Greater,
            TokenKind::GreaterEqual => TokenKindView::GreaterEqual,
            TokenKind::Less => TokenKindView::Less,
            TokenKind::LessEqual => TokenKindView::LessEqual,
            TokenKind::Identifier(text) => TokenKindView::Identifier(text@),
            TokenKind::String(text) => TokenKindView::String(text@),
            TokenKind::Number(text) => TokenKindView::Number(text@),
            TokenKind::And => TokenKindView::And,
            TokenKind::Class => TokenKindView::Class,
            TokenKind::Else => TokenKindView::Else,
            TokenKind::False => TokenKindView::False,
            TokenKind::Fun => TokenKindView::Fun,
            TokenKind::For => TokenKindView::For,
            TokenKind::If => TokenKindView::If,
            TokenKind::Nil => TokenKindView::Nil,
            TokenKind::Or => TokenKindView::Or,
            TokenKind::Print => TokenKindView::Print,
            TokenKind::Return => TokenKindView::Return,
            TokenKind::Super => TokenKindView::Super,
            TokenKind::This => TokenKindView::This,
            TokenKind::True => TokenKindView::True,
            TokenKind::Var => TokenKindView::Var,
            TokenKind::While => TokenKindView::While,
            TokenKind::Eof => TokenKindView::Eof,
        }
    }
}

/// A lexeme: its kind, and the character indices of its first and of its
/// last character in the source.
#[derive(Debug, PartialEq)]
pub struct Token<'src> {
    pub kind: TokenKind<'src>,
    pub span: RangeInclusive<usize>,
}

/// A `Token` as a mathematical value.
pub struct TokenView {
    pub kind: TokenKindView,
    pub start: nat,
    pub end: nat,
}

impl<'src> View for Token<'src> {
    type V = TokenView;

    open spec fn view(&self) -> TokenView {
        TokenView {
            kind: self.kind@,
            start: self.span@.start as nat,
            end: self.span@.end as nat,
        }
    }
}

impl<'src> Token<'src> {
    /// The token of kind `kind` that lies at `span`.
    pub fn empty(kind: TokenKind<'src>, span: RangeInclusive<usize>) -> (token: Self)
        ensures
            token.kind == kind,
            token.span == span,
    {
        Self { kind, span }
    }
}

} // verus!
