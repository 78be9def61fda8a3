//! Lexical errors: what went wrong, and where in the source.

use crate::text::{decimal, decimal_text, label_view};
use std::ops::RangeInclusive;
use vstd::prelude::*;
use vstd::string::StringExecFns;

verus! {

pub type LoxResult<T> = Result<T, LoxError>;

/// What went wrong.
#[derive(Debug)]
pub enum LoxErrorKind {
    /// A character that starts no lexeme.
    UnexpectedCharacter { c: char },
    /// A string literal whose closing quote is missing; `start` is the
    /// character index of its opening quote.
    UnterminatedString { start: usize },
    /// A number literal that has no value; `start` is the character index of
    /// its first digit and `s` its text.
    InvalidNumber { start: usize, s: String },
    /// The source ran out where a character was asked for. Marks the end of
    /// a scan and is never handed out by one.
    UnexpectedEof,
    /// A slice of the source was asked for by byte offsets that are no
    /// character boundaries of it.
    InvalidInput,
}

/// A `LoxErrorKind` as a mathematical value.
pub enum LoxErrorKindView {
    UnexpectedCharacter { c: char },
    UnterminatedString { start: nat },
    InvalidNumber { start: nat, s: Seq<char> },
    UnexpectedEof,
    InvalidInput,
}

impl LoxErrorKindView {
    /// What to tell of an error of this kind.
    pub open spec fn message(self) -> Seq<char> {
        match self {
            LoxErrorKindView::UnexpectedCharacter { c } => "Unexpected character '"@.push(c)
                + "'"@,
            LoxErrorKindView::UnterminatedString { .. } => "Unterminated string"@,
            LoxErrorKindView::InvalidNumber { s, .. } => "Invalid number: '"@ + s + "'"@,
            LoxErrorKindView::UnexpectedEof => "Unexpected end of file"@,
            LoxErrorKindView::InvalidInput => "Invalid input, damn"@,
        }
    }
}

impl View for LoxErrorKind {
    type V = LoxErrorKindView;

    open spec fn view(&self) -> LoxErrorKindView {
        match *self {
            LoxErrorKind::UnexpectedCharacter { c } => LoxErrorKindView::UnexpectedCharacter { c },
            LoxErrorKind::UnterminatedString { start } => LoxErrorKindView::UnterminatedString {
                start: start as nat,
            },
            LoxErrorKind::InvalidNumber { start, s } => LoxErrorKindView::InvalidNumber {
                start: start as nat,
                s: s@,
            },
            LoxErrorKind::UnexpectedEof => LoxErrorKindView::UnexpectedEof,
            LoxErrorKind::InvalidInput => LoxErrorKindView::InvalidInput,
        }
    }
}

/// A lexical error: its kind, the zero-based line on which it was found, the
/// character index at which it was found, and a label of the source, if the
/// source has one.
#[derive(Debug)]
pub struct LoxError {
    pub kind: LoxErrorKind,
    pub location: Option<String>,
    pub line: usize,
    pub column: usize,
}

/// A `LoxError` as a mathematical value.
pub struct LoxErrorView {
    pub kind: LoxErrorKindView,
    pub location: Option<Seq<char>>,
    pub line: nat,
    pub column: nat,
}

impl LoxErrorView {
    /// First character index of the stretch of source that the error is
    /// about: the start of the lexeme for a string or a number, else the
    /// column.
    pub open spec fn span_start(self) -> nat {
        match self.kind {
            LoxErrorKindView::InvalidNumber { start, .. } => start,
            LoxErrorKindView::UnterminatedString { start } => start,
            _ => self.column,
        }
    }

    /// Last character index of that stretch: the column.
    pub open spec fn span_end(self) -> nat {
        self.column
    }

    /// What to tell of the error: in square brackets the label of the
    /// source, if it has one, the line and the column, with colons between
    /// them; then a blank and the message of the kind.
    pub open spec fn message(self) -> Seq<char> {
        let place = decimal_text(self.line) + ":"@ + decimal_text(self.column);
        let place = match self.location {
            Some(label) => label + ":"@ + place,
            None => place,
        };
        "["@ + place + "] "@ + self.kind.message()
    }
}

impl View for LoxError {
    type V = LoxErrorView;

    open spec fn view(&self) -> LoxErrorView {
        LoxErrorView {
            kind: self.kind@,
            location: match self.location {
                Some(label) => Some(label@),
                None => None,
            },
            line: self.line as nat,
            column: self.column as nat,
        }
    }
}

impl LoxErrorKind {
    /// What to tell of an error of this kind.
    pub fn message(&self) -> (text: String)
        ensures
            text@ == self@.message(),
    {
        match self {
            LoxErrorKind::UnexpectedCharacter { c } => {
                let mut text = "Unexpected character '".to_owned();
                text.push(*c);
                text.append("'");
                text
            },
            LoxErrorKind::UnterminatedString { .. } => "Unterminated string".to_owned(),
            LoxErrorKind::InvalidNumber { s, .. } => {
                let mut text = "Invalid number: '".to_owned();
                text.append(s.as_str());
                text.append("'");
                text
            },
            LoxErrorKind::UnexpectedEof => "Unexpected end of file".to_owned(),
            LoxErrorKind::InvalidInput => "Invalid input, damn".to_owned(),
        }
    }
}

impl LoxError {
    /// An error of kind `kind` found on line `line` at character index
    /// `column`, in a source without a label.
    pub fn new(kind: LoxErrorKind, line: usize, column: usize) -> (error: Self)
        ensures
            error@ == (LoxErrorView {
                kind: kind@,
                location: None,
                line: line as nat,
                column: column as nat,
            }),
    {
        Self { kind, line, column, location: None }
    }

    /// The same error with `location` as the label of its source, or with
    /// none.
    pub fn with_location(self, location: Option<String>) -> (error: Self)
        ensures
            error@ == (LoxErrorView {
                location: match location {
                    Some(label) => Some(label@),
                    None => None,
                },
                ..self@
            }),
    {
        Self { kind: self.kind, location, line: self.line, column: self.column }
    }

    /// The same error with a copy of `location`, the path of its source as
    /// text, as its label, or with none.
    pub fn with_path(self, location: Option<&str>) -> (error: Self)
        ensures
            error@ == (LoxErrorView { location: label_view(location), ..self@ }),
    {
        let label = match location {
            Some(path) => Some(path.to_owned()),
            None => None,
        };
        self.with_location(label)
    }

    /// The character indices that the error is about, first and last.
    pub fn span_bounds(&self) -> (bounds: (usize, usize))
        ensures
            bounds.0 == self@.span_start(),
            bounds.1 == self@.span_end(),
    {
        match &self.kind {
            LoxErrorKind::InvalidNumber { start, .. } => (*start, self.column),
            LoxErrorKind::UnterminatedString { start } => (*start, self.column),
            _ => (self.column, self.column),
        }
    }

    /// The character indices that the error is about, as a range from the
    /// first to the last.
    pub fn span(&self) -> (span: RangeInclusive<usize>)
        ensures
            span@.start == self@.span_start(),
            span@.end == self@.span_end(),
            !span@.exhausted,
    {
        let (start, end) = self.span_bounds();
        start..=end
    }

    /// What to tell of the error: where it was found, and the message of its
    /// kind.
    pub fn message(&self) -> (text: String)
        ensures
            text@ == self@.message(),
    {
        let mut text = "[".to_owned();
        match &self.location {
            Some(label) => {
                text.append(label.as_str());
                text.append(":");
            },
            None => {},
        }
        text.append(decimal(self.line).as_str());
        text.append(":");
        text.append(decimal(self.column).as_str());
        text.append("] ");
        text.append(self.kind.message().as_str());
        proof {
            let place = decimal_text(self@.line) + ":"@ + decimal_text(self@.column);
            match self@.location {
                Some(label) => {
                    assert(text@ =~= "["@ + (label + ":"@ + place) + "] "@ + self@.kind.message());
                },
                None => {
                    assert(text@ =~= "["@ + place + "] "@ + self@.kind.message());
                },
            }
        }
        text
    }
}

} // verus!
