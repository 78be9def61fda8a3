//! What to show of an error: the line of the source on which it was found,
//! a mark under the stretch that it is about, and a message.

use crate::error::{LoxError, LoxErrorView, LoxResult};
use crate::text::{
    find_from, lemma_byte_offset_is_boundary, lemma_encode_subrange, lemma_find_from_bounds,
    lemma_find_from_is_first, repeat, repeated, split_first,
};
use vstd::prelude::*;
use vstd::utf8::{encode_utf8, encode_utf8_decode_utf8};

verus! {

/// The first line of `text` without its ending: what stands before the
/// first line feed, less a carriage return right before it; all of `text`
/// where it holds no line feed.
pub open spec fn first_line(text: Seq<char>) -> Seq<char> {
    let stop = find_from(text, 0, '\n');
    if 0 < stop < text.len() && text[stop - 1] == '\r' {
        text.take(stop - 1)
    } else {
        text.take(stop)
    }
}

/// Index at which line `line` of `text` starts, counted from zero: the
/// index behind that many line feeds. An index past the end of `text` where
/// it holds fewer.
pub open spec fn line_start(text: Seq<char>, line: nat) -> int
    decreases line,
{
    if line == 0 {
        0
    } else {
        find_from(text, line_start(text, (line - 1) as nat), '\n') + 1
    }
}

/// Line `line` of `text`, counted from zero, without its ending. A line
/// ends with a line feed, or with a carriage return and a line feed; the
/// last line needs no ending. `None` where `text` has no such line: nothing
/// follows the last line feed.
pub open spec fn line_text(text: Seq<char>, line: nat) -> Option<Seq<char>> {
    let start = line_start(text, line);
    if start >= text.len() {
        None
    } else {
        Some(first_line(text.skip(start)))
    }
}

/// Lines start in order, and no line starts past a line that `text` lacks.
pub proof fn lemma_line_start_ascends(text: Seq<char>, line: nat, later: nat)
    requires
        line <= later,
    ensures
        0 <= line_start(text, line) <= line_start(text, later),
        line < later && line_start(text, line) >= text.len() ==> line_start(text, later)
            > text.len(),
    decreases later,
{
    if line < later {
        let previous = (later - 1) as nat;
        lemma_line_start_ascends(text, line, previous);
        lemma_line_start_ascends(text, 0, previous);
        if line_start(text, previous) <= text.len() {
            lemma_find_from_bounds(text, line_start(text, previous), '\n');
        }
    } else if line > 0 {
        lemma_line_start_ascends(text, 0, (line - 1) as nat);
        if line_start(text, (line - 1) as nat) <= text.len() {
            lemma_find_from_bounds(text, line_start(text, (line - 1) as nat), '\n');
        }
    }
}

/// The first line feed of a text from `from` on lies where the first one of
/// what is left from `from` lies.
pub proof fn lemma_find_from_skip(text: Seq<char>, from: int, wanted: char)
    requires
        0 <= from <= text.len(),
    ensures
        find_from(text, from, wanted) == from + find_from(text.skip(from), 0, wanted),
{
    let rest = text.skip(from);
    lemma_find_from_bounds(rest, 0, wanted);
    let at = find_from(rest, 0, wanted);
    assert forall|i: int| from <= i < from + at implies text[i] != wanted by {
        assert(rest[i - from] == text[i]);
    }
    if at < rest.len() {
        assert(rest[at] == text[from + at]);
    }
    lemma_find_from_is_first(text, from, wanted, from + at);
}

/// Splits `text` at its first line feed: the first line without its
/// ending, and what follows the line feed, if there is one.
pub fn split_line<'a>(text: &'a str) -> (parts: (&'a str, Option<&'a str>))
    ensures
        parts.0@ == first_line(text@),
        parts.1 is Some <==> find_from(text@, 0, '\n') < text@.len(),
        parts.1 matches Some(after) ==> after@ == text@.skip(find_from(text@, 0, '\n') + 1),
{
    let mut rest = text;
    let mut carriage_return = false;
    let ghost mut passed: int = 0;
    loop
        invariant
            0 <= passed <= text@.len(),
            rest@ == text@.skip(passed),
            forall|i: int| 0 <= i < passed ==> text@[i] != '\n',
            carriage_return == (passed > 0 && text@[passed - 1] == '\r'),
        decreases text@.len() - passed,
    {
        match split_first(rest) {
            None => {
                proof {
                    lemma_find_from_is_first(text@, 0, '\n', passed);
                    assert(text@.take(passed) =~= text@);
                }
                return (text, None);
            },
            Some((c, after)) => {
                proof {
                    assert(text@.skip(passed).drop_first() =~= text@.skip(passed + 1));
                }
                if c == '\n' {
                    proof {
                        lemma_find_from_is_first(text@, 0, '\n', passed);
                        let stop = if carriage_return {
                            passed - 1
                        } else {
                            passed
                        };
                        lemma_encode_subrange(text@, stop, passed);
                        lemma_encode_subrange(text@, passed, text@.len() as int);
                        lemma_encode_subrange(text@, 0, stop);
                        lemma_byte_offset_is_boundary(text@, stop);
                        assert(text@.take(text@.len() as int) =~= text@);
                        assert(text@.subrange(passed, text@.len() as int) =~= rest@);
                        assert(text@.subrange(0, stop) =~= text@.take(stop));
                        assert(text@.take(0) =~= Seq::<char>::empty());
                        if carriage_return {
                            assert(text@.subrange(stop, passed) =~= seq!['\r']);
                            assert(seq!['\r'].drop_first() =~= Seq::<char>::empty());
                            reveal_with_fuel(encode_utf8, 2);
                        }
                    }
                    // What stands before the line feed is what `text` holds more than
                    // `rest`.
                    let before = text.as_bytes().len() - rest.as_bytes().len();
                    let (line, _) = text.split_at(
                        if carriage_return {
                            before - 1
                        } else {
                            before
                        },
                    );
                    proof {
                        encode_utf8_decode_utf8(line@);
                        encode_utf8_decode_utf8(first_line(text@));
                    }
                    return (line, Some(after));
                }
                carriage_return = c == '\r';
                rest = after;
                proof {
                    passed = passed + 1;
                }
            },
        }
    }
}

/// Line `line` of `source`, counted from zero, without its ending; `None`
/// where `source` has no such line.
pub fn source_line<'a>(source: &'a str, line: usize) -> (found: Option<&'a str>)
    ensures
        (match found {
            Some(text) => Some(text@),
            None => None,
        }) == line_text(source@, line as nat),
{
    let mut rest = source;
    let mut passed: usize = 0;
    let ghost mut start: int = 0;
    proof {
        assert(source@.skip(0) =~= source@);
    }
    while passed < line
        invariant
            passed <= line,
            start == line_start(source@, passed as nat),
            0 <= start <= source@.len(),
            rest@ == source@.skip(start),
        decreases line - passed,
    {
        proof {
            lemma_find_from_skip(source@, start, '\n');
            lemma_find_from_bounds(source@, start, '\n');
            lemma_line_start_ascends(source@, (passed + 1) as nat, line as nat);
        }
        match split_line(rest).1 {
            None => {
                return None;
            },
            Some(after) => {
                proof {
                    let stop = find_from(source@, start, '\n');
                    assert(source@.skip(start).skip(stop - start + 1) =~= source@.skip(stop + 1));
                    start = stop + 1;
                }
                rest = after;
                passed = passed + 1;
            },
        }
    }
    if rest.is_empty() {
        None
    } else {
        Some(split_line(rest).0)
    }
}

/// What to show of an error, from top to bottom: the line of the source on
/// which it was found; under it, blanks up to the stretch that it is about
/// and a mark as long as that stretch; and the message.
#[derive(Debug)]
pub struct Diagnostic<'src> {
    pub source_line: &'src str,
    pub padding: String,
    pub underline: String,
    pub message: String,
}

/// A `Diagnostic` as a mathematical value.
pub struct DiagnosticView {
    pub source_line: Seq<char>,
    pub padding: Seq<char>,
    pub underline: Seq<char>,
    pub message: Seq<char>,
}

impl<'src> View for Diagnostic<'src> {
    type V = DiagnosticView;

    open spec fn view(&self) -> DiagnosticView {
        DiagnosticView {
            source_line: self.source_line@,
            padding: self.padding@,
            underline: self.underline@,
            message: self.message@,
        }
    }
}

/// What to show of `error`, found in `source`: the line of `source` with
/// the error's line number, or `<error>` where `source` has no such line; as
/// many blanks as the index at which the error's span starts; a tilde for
/// each index of the span; and the error's message.
pub open spec fn diagnostic_of(source: Seq<char>, error: LoxErrorView) -> DiagnosticView {
    DiagnosticView {
        source_line: match line_text(source, error.line) {
            Some(line) => line,
            None => "<error>"@,
        },
        padding: repeated(' ', error.span_start()),
        underline: repeated('~', (error.span_end() - error.span_start() + 1) as nat),
        message: error.message(),
    }
}

/// Whether the span of `error` is in order, and its length a `usize`.
pub open spec fn span_fits(error: LoxErrorView) -> bool {
    error.span_start() <= error.span_end() && error.span_end() - error.span_start() < usize::MAX
}

impl LoxError {
    /// What to show of the error, which was found in `source`.
    pub fn diagnostic<'src>(&self, source: &'src str) -> (shown: Diagnostic<'src>)
        requires
            span_fits(self@),
        ensures
            shown@ == diagnostic_of(source@, self@),
    {
        let (start, end) = self.span_bounds();
        let source_line = match source_line(source, self.line) {
            Some(line) => line,
            None => "<error>",
        };
        Diagnostic {
            source_line,
            padding: repeat(' ', start),
            underline: repeat('~', end - start + 1),
            message: self.message(),
        }
    }
}

/// The values of `results`, in their order, without the errors.
pub open spec fn values_of<V, E>(results: Seq<Result<V, E>>) -> Seq<V>
    decreases results.len(),
{
    if results.len() == 0 {
        Seq::empty()
    } else {
        let before = values_of(results.drop_last());
        match results.last() {
            Ok(value) => before.push(value),
            Err(_) => before,
        }
    }
}

/// The errors of `results`, in their order, without the values.
pub open spec fn errors_of<V, E>(results: Seq<Result<V, E>>) -> Seq<E>
    decreases results.len(),
{
    if results.len() == 0 {
        Seq::empty()
    } else {
        let before = errors_of(results.drop_last());
        match results.last() {
            Ok(_) => before,
            Err(error) => before.push(error),
        }
    }
}

/// What to show of each of `errors`, found in `source`.
pub open spec fn diagnostics_of(source: Seq<char>, errors: Seq<LoxErrorView>) -> Seq<
    DiagnosticView,
> {
    errors.map_values(|error: LoxErrorView| diagnostic_of(source, error))
}

/// The errors as mathematical values.
pub open spec fn errors_view(errors: Seq<LoxError>) -> Seq<LoxErrorView> {
    errors.map_values(|error: LoxError| error@)
}

/// What is shown of errors, as mathematical values.
pub open spec fn diagnostics_view(shown: Seq<Diagnostic<'_>>) -> Seq<DiagnosticView> {
    shown.map_values(|one: Diagnostic<'_>| one@)
}

/// Whether the span of every error of `results` is in order, and its length
/// a `usize`.
pub open spec fn spans_fit<T>(results: Seq<LoxResult<T>>) -> bool {
    forall|i: int|
        0 <= i < results.len() ==> (#[trigger] results[i] matches Err(error) ==> span_fits(
            error@,
        ))
}

/// A finished sequence of results, taken apart into its values and its
/// errors.
pub trait LoxResultIter<T>: Sized {
    /// The results, in their order.
    spec fn results(&self) -> Seq<LoxResult<T>>;

    /// The values in their order, and, for the errors in their order, what
    /// to show of each; `source` is the text in which they were found.
    fn handle_errors<'src>(self, source: &'src str) -> (parts: (Vec<T>, Vec<Diagnostic<'src>>))
        requires
            spans_fit(self.results()),
        ensures
            parts.0@ == values_of(self.results()),
            diagnostics_view(parts.1@) == diagnostics_of(
                source@,
                errors_view(errors_of(self.results())),
            ),
    ;

    /// The values in their order; the errors are dropped.
    fn ignore_errors(self) -> (values: Vec<T>)
        ensures
            values@ == values_of(self.results()),
    ;
}

impl<T> LoxResultIter<T> for Vec<LoxResult<T>> {
    open spec fn results(&self) -> Seq<LoxResult<T>> {
        self@
    }

    fn handle_errors<'src>(self, source: &'src str) -> (parts: (Vec<T>, Vec<Diagnostic<'src>>)) {
        let mut values: Vec<T> = Vec::new();
        let mut shown: Vec<Diagnostic<'src>> = Vec::new();
        let ghost results = self@;
        for result in iter: self.into_iter()
            invariant
                iter.seq() == results,
                spans_fit(results),
                values@ == values_of(results.take(iter.index())),
                diagnostics_view(shown@) == diagnostics_of(
                    source@,
                    errors_view(errors_of(results.take(iter.index()))),
                ),
        {
            proof {
                assert(results.take(iter.index() + 1).drop_last() =~= results.take(iter.index()));
            }
            match result {
                Ok(value) => {
                    values.push(value);
                },
                Err(error) => {
                    let ghost before = shown@;
                    shown.push(error.diagnostic(source));
                    proof {
                        assert(diagnostics_view(shown@) =~= diagnostics_view(before).push(
                            diagnostic_of(source@, error@),
                        ));
                        let errors = errors_of(results.take(iter.index()));
                        assert(errors_view(errors.push(error)) =~= errors_view(errors).push(
                            error@,
                        ));
                        assert(diagnostics_of(source@, errors_view(errors).push(error@))
                            =~= diagnostics_of(source@, errors_view(errors)).push(
                            diagnostic_of(source@, error@),
                        ));
                    }
                },
            }
        }
        proof {
            assert(results.take(results.len() as int) =~= results);
        }
        (values, shown)
    }

    fn ignore_errors(self) -> (values: Vec<T>) {
        let mut values: Vec<T> = Vec::new();
        let ghost results = self@;
        for result in iter: self.into_iter()
            invariant
                iter.seq() == results,
                values@ == values_of(results.take(iter.index())),
        {
            proof {
                assert(results.take(iter.index() + 1).drop_last() =~= results.take(iter.index()));
            }
            match result {
                Ok(value) => {
                    values.push(value);
                },
                Err(_) => {},
            }
        }
        proof {
            assert(results.take(results.len() as int) =~= results);
        }
        values
    }
}

} // verus!
