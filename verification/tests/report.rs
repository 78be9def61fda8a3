use loxide::error::{LoxError, LoxErrorKind, LoxResult};
use loxide::report::{source_line, split_line, LoxResultIter};
use loxide::runner::{run_script, RunnerOptions};
use loxide::scanner::{Scanner, Token, TokenKind};

#[test]
fn lines_of_a_source() {
    let source = "first\nsecond\r\n\nlast";
    assert_eq!(source_line(source, 0), Some("first"));
    assert_eq!(source_line(source, 1), Some("second"));
    assert_eq!(source_line(source, 2), Some(""));
    assert_eq!(source_line(source, 3), Some("last"));
    assert_eq!(source_line(source, 4), None);
    assert_eq!(source_line(source, 100), None);
}

#[test]
fn last_line_needs_no_ending() {
    assert_eq!(source_line("a\n", 0), Some("a"));
    assert_eq!(source_line("a\n", 1), None);
    assert_eq!(source_line("", 0), None);
    assert_eq!(source_line("\n", 0), Some(""));
    assert_eq!(source_line("\n", 1), None);
    assert_eq!(source_line("\r\n", 0), Some(""));
}

#[test]
fn carriage_return_alone_ends_no_line() {
    assert_eq!(source_line("a\rb", 0), Some("a\rb"));
    assert_eq!(source_line("a\r", 0), Some("a\r"));
    assert_eq!(source_line("a\r\r\nb", 0), Some("a\r"));
}

#[test]
fn lines_agree_with_std() {
    for source in ["", "x", "x\n", "\n\n", "a\r\nb\n\r\nc", "é\nß\r\n", "\r", "a\n\rb"] {
        let expected: Vec<&str> = source.lines().collect();
        for (index, line) in expected.iter().enumerate() {
            assert_eq!(source_line(source, index), Some(*line));
        }
        assert_eq!(source_line(source, expected.len()), None);
    }
}

#[test]
fn split_line_at_the_first_line_feed() {
    assert_eq!(split_line("ab\ncd\nef"), ("ab", Some("cd\nef")));
    assert_eq!(split_line("ab\r\n"), ("ab", Some("")));
    assert_eq!(split_line("ab"), ("ab", None));
    assert_eq!(split_line(""), ("", None));
    assert_eq!(split_line("\nx"), ("", Some("x")));
    assert_eq!(split_line("é\r\nß"), ("é", Some("ß")));
}

#[test]
fn diagnostic_of_an_unterminated_string() {
    let source = "var a = 1;\nvar b = \"abc";
    let scanner = Scanner::new(source, Some("s.lox"));
    let (tokens, shown) = scanner.scan().collect().handle_errors(source);
    assert_eq!(tokens.len(), 9);
    assert_eq!(shown.len(), 1);
    assert_eq!(shown[0].source_line, "var b = \"abc");
    assert_eq!(shown[0].padding, " ".repeat(19));
    assert_eq!(shown[0].underline, "~~~~");
    assert_eq!(shown[0].message, "[s.lox:1:22] Unterminated string");
}

#[test]
fn diagnostic_of_an_unexpected_character() {
    let error = LoxError::new(LoxErrorKind::UnexpectedCharacter { c: '@' }, 0, 2);
    let shown = error.diagnostic("1 @ 2");
    assert_eq!(shown.source_line, "1 @ 2");
    assert_eq!(shown.padding, "  ");
    assert_eq!(shown.underline, "~");
    assert_eq!(shown.message, "[0:2] Unexpected character '@'");
}

#[test]
fn diagnostic_of_an_error_on_a_line_that_is_not_there() {
    let error = LoxError::new(LoxErrorKind::UnexpectedEof, 5, 0);
    let shown = error.diagnostic("one line");
    assert_eq!(shown.source_line, "<error>");
    assert_eq!(shown.padding, "");
    assert_eq!(shown.underline, "~");
    assert_eq!(shown.message, "[5:0] Unexpected end of file");
}

#[test]
fn handle_errors_keeps_values_and_shows_errors_in_order() {
    let results: Vec<LoxResult<u8>> = vec![
        Ok(1),
        Err(LoxError::new(LoxErrorKind::InvalidInput, 0, 4)),
        Ok(2),
        Err(LoxError::new(
            LoxErrorKind::InvalidNumber {
                start: 1,
                s: "9".to_string(),
            },
            1,
            3,
        )),
        Ok(3),
    ];
    let (values, shown) = results.handle_errors("abcdef\nghi");
    assert_eq!(values, vec![1, 2, 3]);
    assert_eq!(shown.len(), 2);
    assert_eq!(shown[0].source_line, "abcdef");
    assert_eq!(shown[0].padding, "    ");
    assert_eq!(shown[0].underline, "~");
    assert_eq!(shown[0].message, "[0:4] Invalid input, damn");
    assert_eq!(shown[1].source_line, "ghi");
    assert_eq!(shown[1].padding, " ");
    assert_eq!(shown[1].underline, "~~~");
    assert_eq!(shown[1].message, "[1:3] Invalid number: '9'");
}

#[test]
fn ignore_errors_keeps_values_only() {
    let results: Vec<LoxResult<char>> = vec![
        Err(LoxError::new(LoxErrorKind::UnexpectedEof, 0, 0)),
        Ok('a'),
        Ok('b'),
        Err(LoxError::new(LoxErrorKind::InvalidInput, 0, 0)),
    ];
    assert_eq!(results.ignore_errors(), vec!['a', 'b']);
    let none: Vec<LoxResult<char>> = vec![];
    assert_eq!(none.ignore_errors(), vec![]);
}

#[test]
fn runner_options_print_tokens_by_default() {
    assert!(RunnerOptions::default().print_tokens);
}

#[test]
fn run_script_gives_tokens_and_diagnostics() {
    let report = run_script("1 @\n+", None, &RunnerOptions::default());
    assert_eq!(
        report.tokens,
        vec![
            Token {
                kind: TokenKind::Number("1"),
                span: 0..=0
            },
            Token {
                kind: TokenKind::Plus,
                span: 4..=4
            },
            Token {
                kind: TokenKind::Eof,
                span: 5..=5
            },
        ]
    );
    assert_eq!(report.diagnostics.len(), 1);
    assert_eq!(report.diagnostics[0].source_line, "1 @");
    assert_eq!(report.diagnostics[0].padding, "  ");
    assert_eq!(report.diagnostics[0].underline, "~");
    assert_eq!(
        report.diagnostics[0].message,
        "[0:2] Unexpected character '@'"
    );
}

#[test]
fn run_script_keeps_tokens_back_when_not_asked_for_them() {
    let options = RunnerOptions {
        print_tokens: false,
    };
    let report = run_script("1 @\n+", Some("f"), &options);
    assert_eq!(report.tokens, vec![]);
    assert_eq!(report.diagnostics.len(), 1);
    assert_eq!(
        report.diagnostics[0].message,
        "[f:0:2] Unexpected character '@'"
    );
}

#[test]
fn diagnostic_column_counts_from_the_start_of_the_source() {
    let report = run_script("ab\n  @", None, &RunnerOptions::default());
    assert_eq!(report.diagnostics.len(), 1);
    assert_eq!(report.diagnostics[0].source_line, "  @");
    assert_eq!(report.diagnostics[0].padding, "     ");
    assert_eq!(report.diagnostics[0].underline, "~");
    assert_eq!(
        report.diagnostics[0].message,
        "[1:5] Unexpected character '@'"
    );
}
