use loxide::error::{LoxError, LoxErrorKind, LoxResult};
use loxide::report::LoxResultIter;
use loxide::scanner::{Scanner, ScannerIter, Token, TokenKind};

fn scan<'src>(source: &'src str) -> Vec<LoxResult<Token<'src>>> {
    Scanner::new(source, None).scan().collect()
}

fn tokens<'src>(source: &'src str) -> Vec<Token<'src>> {
    scan(source).ignore_errors()
}

fn kinds<'src>(source: &'src str) -> Vec<TokenKind<'src>> {
    tokens(source).into_iter().map(|token| token.kind).collect()
}

fn errors(source: &str) -> Vec<LoxError> {
    scan(source).into_iter().filter_map(|item| item.err()).collect()
}

#[test]
fn scan_string() {
    let tokens = Scanner::new(r#""string""#, None)
        .scan()
        .collect()
        .ignore_errors();

    assert_eq!(
        tokens,
        vec![
            Token {
                kind: TokenKind::String("string"),
                span: 0..=7,
            },
            Token {
                kind: TokenKind::Eof,
                span: 8..=8
            }
        ]
    )
}

#[test]
fn empty_source_yields_the_end_token_alone() {
    assert_eq!(
        tokens(""),
        vec![Token {
            kind: TokenKind::Eof,
            span: 0..=0
        }]
    );
}

#[test]
fn end_token_lies_behind_the_last_character() {
    for source in ["", "+", "(1+2)", "var x = \"é\";", "\"open", "@#"] {
        let items = scan(source);
        let count = source.chars().count();
        let last = items.last().expect("a scan yields the end token");
        assert_eq!(
            last.as_ref().ok(),
            Some(&Token {
                kind: TokenKind::Eof,
                span: count..=count
            })
        );
        let ends = items
            .iter()
            .filter(|item| matches!(item, Ok(token) if token.kind == TokenKind::Eof))
            .count();
        assert_eq!(ends, 1);
    }
}

#[test]
fn end_token_counts_characters_not_bytes() {
    assert_eq!(
        tokens("\"héé\""),
        vec![
            Token {
                kind: TokenKind::String("héé"),
                span: 0..=4,
            },
            Token {
                kind: TokenKind::Eof,
                span: 5..=5
            }
        ]
    );
}

#[test]
fn trailing_blanks_end_the_scan_before_the_end_token() {
    assert_eq!(
        tokens("1 "),
        vec![Token {
            kind: TokenKind::Number("1"),
            span: 0..=0
        }]
    );
    assert_eq!(tokens("  \n\t"), vec![]);
    assert_eq!(kinds("+ // to the end"), vec![TokenKind::Plus]);
    assert_eq!(kinds("+\n"), vec![TokenKind::Plus]);
}

#[test]
fn cursor_yields_the_end_token_after_reading_trailing_blanks() {
    let scanner = Scanner::new("1 ", None);
    let mut cursor = scanner.scan();
    assert!(matches!(
        cursor.next(),
        Some(Ok(Token {
            kind: TokenKind::Number("1"),
            ..
        }))
    ));
    assert!(cursor.next().is_none());
    assert_eq!(
        cursor.next().map(|item| item.ok()),
        Some(Some(Token {
            kind: TokenKind::Eof,
            span: 2..=2
        }))
    );
    assert!(cursor.next().is_none());
    assert!(cursor.next().is_none());
}

#[test]
fn token_spans_ascend() {
    let source = "var answer = (40 + 2.5) / x1; // done\nprint \"a\nb\" != nil;";
    let found = tokens(source);
    assert!(found.len() > 10);
    for pair in found.windows(2) {
        assert!(pair[0].span.start() <= pair[0].span.end());
        assert!(pair[0].span.end() < pair[1].span.start());
        assert!(pair[1].span.start() <= pair[1].span.end());
    }
}

#[test]
fn string_literal_round_trip() {
    for body in ["abc", "", "a b\tc", "line\nbreak", "// no comment", "ünï©ödé ✓"] {
        let source = format!("\"{body}\"");
        let count = source.chars().count();
        assert_eq!(
            tokens(&source),
            vec![
                Token {
                    kind: TokenKind::String(body),
                    span: 0..=(count - 1),
                },
                Token {
                    kind: TokenKind::Eof,
                    span: count..=count
                }
            ]
        );
    }
}

#[test]
fn two_cursors_yield_the_same() {
    let source = "fun f(a) { return a >= 1.5; } @ \"open";
    let scanner = Scanner::new(source, Some("f.lox"));
    let first = scanner.scan().collect();
    let second = ScannerIter::new(&scanner).collect();
    let other = Scanner::new(source, Some("f.lox"));
    let third = other.scan().collect();
    assert_eq!(format!("{first:?}"), format!("{second:?}"));
    assert_eq!(format!("{first:?}"), format!("{third:?}"));
    assert_eq!(first.len(), 15);
}

#[test]
fn scan_goes_on_after_an_error() {
    let items = scan("@ 1");
    assert_eq!(items.len(), 3);
    match &items[0] {
        Err(error) => {
            assert!(matches!(
                error.kind,
                LoxErrorKind::UnexpectedCharacter { c: '@' }
            ));
            assert_eq!(error.line, 0);
            assert_eq!(error.column, 0);
            assert_eq!(error.location, None);
            assert_eq!(error.span(), 0..=0);
        }
        Ok(token) => panic!("an error is due, not {token:?}"),
    }
    assert_eq!(
        items[1].as_ref().ok(),
        Some(&Token {
            kind: TokenKind::Number("1"),
            span: 2..=2
        })
    );
    assert_eq!(
        items[2].as_ref().ok(),
        Some(&Token {
            kind: TokenKind::Eof,
            span: 3..=3
        })
    );
}

#[test]
fn several_errors_in_one_scan() {
    let found = errors("@\n#\n$");
    assert_eq!(found.len(), 3);
    assert!(matches!(
        found[0].kind,
        LoxErrorKind::UnexpectedCharacter { c: '@' }
    ));
    assert!(matches!(
        found[1].kind,
        LoxErrorKind::UnexpectedCharacter { c: '#' }
    ));
    assert!(matches!(
        found[2].kind,
        LoxErrorKind::UnexpectedCharacter { c: '$' }
    ));
    assert_eq!((found[0].line, found[0].column), (0, 0));
    assert_eq!((found[1].line, found[1].column), (1, 2));
    assert_eq!((found[2].line, found[2].column), (2, 4));
}

#[test]
fn unterminated_string() {
    let items = scan("\"abc");
    assert_eq!(items.len(), 2);
    match &items[0] {
        Err(error) => {
            assert!(matches!(
                error.kind,
                LoxErrorKind::UnterminatedString { start: 0 }
            ));
            assert_eq!(error.line, 0);
            assert_eq!(error.column, 3);
            assert_eq!(error.span(), 0..=3);
        }
        Ok(token) => panic!("an error is due, not {token:?}"),
    }
    assert_eq!(
        items[1].as_ref().ok(),
        Some(&Token {
            kind: TokenKind::Eof,
            span: 4..=4
        })
    );
}

#[test]
fn unterminated_string_takes_the_rest_of_the_source() {
    let items = scan("1 \"abc\n+ 2");
    assert_eq!(items.len(), 3);
    assert_eq!(
        items[0].as_ref().ok(),
        Some(&Token {
            kind: TokenKind::Number("1"),
            span: 0..=0
        })
    );
    match &items[1] {
        Err(error) => {
            assert!(matches!(
                error.kind,
                LoxErrorKind::UnterminatedString { start: 2 }
            ));
            assert_eq!(error.line, 1);
            assert_eq!(error.column, 9);
        }
        Ok(token) => panic!("an error is due, not {token:?}"),
    }
    assert_eq!(
        items[2].as_ref().ok(),
        Some(&Token {
            kind: TokenKind::Eof,
            span: 10..=10
        })
    );
}

#[test]
fn comment_is_skipped() {
    assert_eq!(
        tokens("// comment\n+"),
        vec![
            Token {
                kind: TokenKind::Plus,
                span: 11..=11
            },
            Token {
                kind: TokenKind::Eof,
                span: 12..=12
            }
        ]
    );
}

#[test]
fn comment_counts_one_line() {
    let found = errors("// comment\n@");
    assert_eq!(found.len(), 1);
    assert_eq!(found[0].line, 1);
    assert_eq!(found[0].column, 11);
}

#[test]
fn slash_alone_is_an_operator() {
    assert_eq!(
        kinds("1 / 2"),
        vec![
            TokenKind::Number("1"),
            TokenKind::Slash,
            TokenKind::Number("2"),
            TokenKind::Eof
        ]
    );
    assert_eq!(kinds("/"), vec![TokenKind::Slash, TokenKind::Eof]);
}

#[test]
fn number_with_a_trailing_dot() {
    assert_eq!(
        tokens("1."),
        vec![
            Token {
                kind: TokenKind::Number("1"),
                span: 0..=0
            },
            Token {
                kind: TokenKind::Dot,
                span: 1..=1
            },
            Token {
                kind: TokenKind::Eof,
                span: 2..=2
            }
        ]
    );
}

#[test]
fn number_literals() {
    assert_eq!(
        tokens("12.50"),
        vec![
            Token {
                kind: TokenKind::Number("12.50"),
                span: 0..=4
            },
            Token {
                kind: TokenKind::Eof,
                span: 5..=5
            }
        ]
    );
    assert_eq!(
        kinds("1.2.3"),
        vec![
            TokenKind::Number("1.2"),
            TokenKind::Dot,
            TokenKind::Number("3"),
            TokenKind::Eof
        ]
    );
    assert_eq!(
        kinds(".5"),
        vec![TokenKind::Dot, TokenKind::Number("5"), TokenKind::Eof]
    );
    assert_eq!(
        kinds("007x"),
        vec![
            TokenKind::Number("007"),
            TokenKind::Identifier("x"),
            TokenKind::Eof
        ]
    );
    assert_eq!(
        kinds("123456789012345678901234567890"),
        vec![
            TokenKind::Number("123456789012345678901234567890"),
            TokenKind::Eof
        ]
    );
}

#[test]
fn number_text_has_the_value_of_the_literal() {
    let found = tokens("1 2.5 1.");
    let values: Vec<f64> = found
        .iter()
        .filter_map(|token| match token.kind {
            TokenKind::Number(text) => text.parse::<f64>().ok(),
            _ => None,
        })
        .collect();
    assert_eq!(values, vec![1.0, 2.5, 1.0]);
}

#[test]
fn keyword_or_identifier() {
    assert_eq!(
        tokens("classic"),
        vec![
            Token {
                kind: TokenKind::Identifier("classic"),
                span: 0..=6
            },
            Token {
                kind: TokenKind::Eof,
                span: 7..=7
            }
        ]
    );
    assert_eq!(
        tokens("class"),
        vec![
            Token {
                kind: TokenKind::Class,
                span: 0..=4
            },
            Token {
                kind: TokenKind::Eof,
                span: 5..=5
            }
        ]
    );
    assert_eq!(
        kinds("Class cla55 a1b2"),
        vec![
            TokenKind::Identifier("Class"),
            TokenKind::Identifier("cla55"),
            TokenKind::Identifier("a1b2"),
            TokenKind::Eof
        ]
    );
}

#[test]
fn every_keyword() {
    assert_eq!(
        kinds("and class else false fun for if nil or print return super this true var while"),
        vec![
            TokenKind::And,
            TokenKind::Class,
            TokenKind::Else,
            TokenKind::False,
            TokenKind::Fun,
            TokenKind::For,
            TokenKind::If,
            TokenKind::Nil,
            TokenKind::Or,
            TokenKind::Print,
            TokenKind::Return,
            TokenKind::Super,
            TokenKind::This,
            TokenKind::True,
            TokenKind::Var,
            TokenKind::While,
            TokenKind::Eof,
        ]
    );
}

#[test]
fn underscore_is_no_part_of_a_name() {
    let items = scan("a_b");
    assert_eq!(items.len(), 4);
    assert_eq!(
        items[0].as_ref().ok().map(|token| &token.kind),
        Some(&TokenKind::Identifier("a"))
    );
    assert!(matches!(
        &items[1],
        Err(LoxError {
            kind: LoxErrorKind::UnexpectedCharacter { c: '_' },
            column: 1,
            ..
        })
    ));
    assert_eq!(
        items[2].as_ref().ok().map(|token| &token.kind),
        Some(&TokenKind::Identifier("b"))
    );
}

#[test]
fn punctuation_and_operators() {
    assert_eq!(
        kinds("(){},.-+;*/"),
        vec![
            TokenKind::LeftParen,
            TokenKind::RightParen,
            TokenKind::LeftBrace,
            TokenKind::RightBrace,
            TokenKind::Comma,
            TokenKind::Dot,
            TokenKind::Minus,
            TokenKind::Plus,
            TokenKind::Semicolon,
            TokenKind::Star,
            TokenKind::Slash,
            TokenKind::Eof,
        ]
    );
    assert_eq!(
        kinds("! != = == < <= > >="),
        vec![
            TokenKind::Bang,
            TokenKind::BangEqual,
            TokenKind::Equal,
            TokenKind::EqualEqual,
            TokenKind::Less,
            TokenKind::LessEqual,
            TokenKind::Greater,
            TokenKind::GreaterEqual,
            TokenKind::Eof,
        ]
    );
    assert_eq!(
        tokens("<=="),
        vec![
            Token {
                kind: TokenKind::LessEqual,
                span: 0..=1
            },
            Token {
                kind: TokenKind::Equal,
                span: 2..=2
            },
            Token {
                kind: TokenKind::Eof,
                span: 3..=3
            }
        ]
    );
}

#[test]
fn string_may_hold_line_feeds() {
    let items = scan("\"a\nb\"\n@");
    assert_eq!(items.len(), 3);
    assert_eq!(
        items[0].as_ref().ok(),
        Some(&Token {
            kind: TokenKind::String("a\nb"),
            span: 0..=4
        })
    );
    match &items[1] {
        Err(error) => {
            assert_eq!(error.line, 2);
            assert_eq!(error.column, 6);
        }
        Ok(token) => panic!("an error is due, not {token:?}"),
    }
}

#[test]
fn unexpected_character_beyond_ascii() {
    let found = errors("é+");
    assert_eq!(found.len(), 1);
    assert!(matches!(
        found[0].kind,
        LoxErrorKind::UnexpectedCharacter { c: 'é' }
    ));
    assert_eq!(found[0].column, 0);
    assert_eq!(
        tokens("é+"),
        vec![
            Token {
                kind: TokenKind::Plus,
                span: 1..=1
            },
            Token {
                kind: TokenKind::Eof,
                span: 2..=2
            }
        ]
    );
}

#[test]
fn errors_carry_the_label_of_the_source() {
    let scanner = Scanner::new("@", Some("dir/main.lox"));
    let items = scanner.scan().collect();
    match &items[0] {
        Err(error) => assert_eq!(error.location.as_deref(), Some("dir/main.lox")),
        Ok(token) => panic!("an error is due, not {token:?}"),
    }
}

#[test]
fn token_empty_keeps_kind_and_span() {
    let token = Token::empty(TokenKind::Comma, 3..=3);
    assert_eq!(
        token,
        Token {
            kind: TokenKind::Comma,
            span: 3..=3
        }
    );
}

#[test]
fn cursor_reads_character_by_character() {
    let scanner = Scanner::new("a=\nß", None);
    let mut cursor = scanner.scan();
    assert!(!cursor.is_end());
    assert_eq!(cursor.peek(), Some('a'));
    assert_eq!(cursor.peek_nth(0), Some('a'));
    assert_eq!(cursor.peek_nth(1), Some('='));
    assert_eq!(cursor.peek_nth(3), Some('ß'));
    assert_eq!(cursor.peek_nth(4), None);
    assert_eq!(cursor.advance().ok(), Some('a'));
    assert!(!cursor.find('!'));
    assert_eq!(cursor.peek(), Some('='));
    assert!(cursor.find('='));
    assert_eq!(cursor.peek(), Some('\n'));
    assert_eq!(cursor.advance().ok(), Some('\n'));
    assert_eq!(cursor.advance().ok(), Some('ß'));
    assert!(cursor.is_end());
    assert_eq!(cursor.peek(), None);
    assert!(!cursor.find('ß'));
    match cursor.advance() {
        Err(error) => {
            assert!(matches!(error.kind, LoxErrorKind::UnexpectedEof));
            assert_eq!(error.line, 1);
            assert_eq!(error.column, 3);
        }
        Ok(c) => panic!("the source is read, yet {c:?} came"),
    }
}

#[test]
fn cursor_error_is_at_the_last_character_read() {
    let scanner = Scanner::new("ab\ncd", Some("x"));
    let mut cursor = scanner.scan();
    let error = cursor.error(LoxErrorKind::InvalidInput);
    assert_eq!((error.line, error.column), (0, 0));
    for _ in 0..4 {
        cursor.advance().expect("a character");
    }
    let error = cursor.error(LoxErrorKind::InvalidNumber {
        start: 3,
        s: "c".to_string(),
    });
    assert_eq!((error.line, error.column), (1, 3));
    assert_eq!(error.location.as_deref(), Some("x"));
    assert_eq!(error.span(), 3..=3);
    assert!(matches!(
        error.kind,
        LoxErrorKind::InvalidNumber { start: 3, ref s } if s == "c"
    ));
}

#[test]
fn consume_until_stops_before_what_it_looks_for() {
    let scanner = Scanner::new("ab\ncd;e", None);
    let mut cursor = scanner.scan();
    assert_eq!(cursor.consume_until(';').ok(), Some(true));
    assert_eq!(cursor.peek(), Some(';'));
    assert_eq!(cursor.error(LoxErrorKind::InvalidInput).line, 1);
    assert_eq!(cursor.consume_until(';').ok(), Some(true));
    assert_eq!(cursor.peek(), Some(';'));
    assert_eq!(cursor.consume_until('x').ok(), Some(false));
    assert!(cursor.is_end());
}

#[test]
fn source_slice_cuts_at_character_boundaries_only() {
    let scanner = Scanner::new("aßc", None);
    let cursor = scanner.scan();
    assert_eq!(cursor.source_slice(0, 4).ok(), Some("aßc"));
    assert_eq!(cursor.source_slice(1, 3).ok(), Some("ß"));
    assert_eq!(cursor.source_slice(3, 3).ok(), Some(""));
    assert_eq!(cursor.source_slice(4, 4).ok(), Some(""));
    for (start, end) in [(0, 2), (2, 3), (2, 2), (3, 1), (0, 5), (5, 5)] {
        match cursor.source_slice(start, end) {
            Err(error) => assert!(matches!(error.kind, LoxErrorKind::InvalidInput)),
            Ok(text) => panic!("no slice is due, yet {text:?} came"),
        }
    }
}

#[test]
fn long_stretches_of_blanks_and_comments() {
    let mut source = " ".repeat(300_000);
    for _ in 0..50_000 {
        source.push_str("// nothing here\n\t");
    }
    source.push('+');
    let count = source.chars().count();
    assert_eq!(
        tokens(&source),
        vec![
            Token {
                kind: TokenKind::Plus,
                span: (count - 1)..=(count - 1)
            },
            Token {
                kind: TokenKind::Eof,
                span: count..=count
            }
        ]
    );
}

#[test]
fn errors_of_a_scan_are_of_two_kinds() {
    let found = errors("@ \"a\" # 1.5.x ~ é \"open\n");
    assert_eq!(found.len(), 5);
    for error in &found {
        assert!(matches!(
            error.kind,
            LoxErrorKind::UnexpectedCharacter { .. } | LoxErrorKind::UnterminatedString { .. }
        ));
        let span = error.span();
        assert!(span.start() <= span.end());
        assert!(*span.end() < 24);
    }
    assert!(matches!(
        found[4].kind,
        LoxErrorKind::UnterminatedString { start: 18 }
    ));
    assert_eq!(found[4].span(), 18..=23);
    assert_eq!(found[4].line, 1);
}

#[test]
fn token_text_is_the_source_at_its_span() {
    let source = "var größe = 12.5 + x1; print \"a ü b\"; 7.";
    let characters: Vec<char> = source.chars().collect();
    let mut with_text = 0;
    for token in tokens(source) {
        let (start, end) = (*token.span.start(), *token.span.end());
        match token.kind {
            TokenKind::Identifier(text) | TokenKind::Number(text) => {
                let at_span: String = characters[start..=end].iter().collect();
                assert_eq!(text, at_span);
                with_text += 1;
            }
            TokenKind::String(text) => {
                assert_eq!(characters[start], '"');
                assert_eq!(characters[end], '"');
                let between: String = characters[start + 1..end].iter().collect();
                assert_eq!(text, between);
                with_text += 1;
            }
            _ => {}
        }
    }
    assert_eq!(with_text, 6);
}

#[test]
fn number_text_is_digits_with_at_most_one_dot_inside() {
    let source = "0 12 3.4 56.78 9. .1 1.2.3 4..5 6.x";
    let mut numbers = 0;
    for token in tokens(source) {
        if let TokenKind::Number(text) = token.kind {
            numbers += 1;
            let parts: Vec<&str> = text.split('.').collect();
            assert!(parts.len() == 1 || parts.len() == 2);
            for part in parts {
                assert!(!part.is_empty());
                assert!(part.chars().all(|c| c.is_ascii_digit()));
            }
            assert!(text.parse::<f64>().is_ok());
        }
    }
    assert_eq!(numbers, 11);
}
