use sage::lexer::{is_digit_char, is_whitespace_char, lex, punctuation_kind, tokenize, LexError, Lexer};
use sage::token::{Span, Token, TokenKind};

fn token(kind: TokenKind, start: usize, end: usize, line: usize, column: usize, literal: &str) -> Token {
    Token { kind, span: Span { start, end, line, column, literal: literal.to_string() } }
}

fn kinds(source: &str) -> Vec<TokenKind> {
    tokenize(source).unwrap().into_iter().map(|t| t.kind).collect()
}

#[test]
fn integer_literal_round_trips() {
    let tokens = tokenize("12345").unwrap();
    assert_eq!(tokens, vec![token(TokenKind::Integer(12345), 0, 5, 1, 1, "12345")]);
    assert_eq!(tokens[0].span.literal, "12345");
}

#[test]
fn integer_literals_round_trip_inside_an_expression() {
    let source = "  42*(1300 - 7)";
    let chars: Vec<char> = source.chars().collect();
    let tokens = tokenize(source).unwrap();
    assert_eq!(tokens.len(), 7);
    for t in &tokens {
        let expected: String = chars[t.span.start..t.span.end].iter().collect();
        assert_eq!(t.span.literal, expected);
    }
    assert_eq!(tokens[0].span.literal, "42");
    assert_eq!(tokens[3].span.literal, "1300");
    assert_eq!(tokens[5].span.literal, "7");
}

#[test]
fn leading_zeros_stay_in_the_literal() {
    let tokens = tokenize("007").unwrap();
    assert_eq!(tokens, vec![token(TokenKind::Integer(7), 0, 3, 1, 1, "007")]);
}

#[test]
fn zero_is_an_integer() {
    assert_eq!(tokenize("0").unwrap(), vec![token(TokenKind::Integer(0), 0, 1, 1, 1, "0")]);
}

#[test]
fn largest_integer_is_accepted() {
    let tokens = tokenize("9223372036854775807").unwrap();
    assert_eq!(
        tokens,
        vec![token(TokenKind::Integer(i64::MAX), 0, 19, 1, 1, "9223372036854775807")]
    );
}

#[test]
fn one_past_the_largest_integer_overflows() {
    assert_eq!(
        tokenize("9223372036854775808"),
        Err(LexError::IntegerOverflow { literal: "9223372036854775808".to_string(), position: 0 })
    );
}

#[test]
fn overflow_reports_the_whole_run_and_its_start() {
    assert_eq!(
        tokenize("1 + 99999999999999999999999+2"),
        Err(LexError::IntegerOverflow {
            literal: "99999999999999999999999".to_string(),
            position: 4
        })
    );
}

#[test]
fn overflow_before_an_invalid_character_comes_first() {
    assert_eq!(
        tokenize("99999999999999999999 @"),
        Err(LexError::IntegerOverflow { literal: "99999999999999999999".to_string(), position: 0 })
    );
}

#[test]
fn empty_source_has_no_tokens() {
    assert_eq!(tokenize(""), Ok(vec![]));
}

#[test]
fn whitespace_only_has_no_tokens() {
    assert_eq!(tokenize(" "), Ok(vec![]));
    assert_eq!(tokenize(" \t\r\n  \n\t"), Ok(vec![]));
}

#[test]
fn invalid_character_alone() {
    assert_eq!(tokenize("@"), Err(LexError::InvalidCharacter { character: '@', position: 0 }));
}

#[test]
fn invalid_character_between_valid_tokens() {
    assert_eq!(
        tokenize("1 + @ 2"),
        Err(LexError::InvalidCharacter { character: '@', position: 4 })
    );
    assert_eq!(tokenize("(+)x1"), Err(LexError::InvalidCharacter { character: 'x', position: 3 }));
}

#[test]
fn first_invalid_character_is_reported() {
    assert_eq!(tokenize("  # $"), Err(LexError::InvalidCharacter { character: '#', position: 2 }));
}

#[test]
fn positions_count_characters() {
    assert_eq!(
        tokenize("1 \u{e9}"),
        Err(LexError::InvalidCharacter { character: '\u{e9}', position: 2 })
    );
    assert_eq!(
        tokenize("\u{1F600}"),
        Err(LexError::InvalidCharacter { character: '\u{1F600}', position: 0 })
    );
}

#[test]
fn other_blank_characters_are_invalid() {
    assert_eq!(
        tokenize("1\u{c}2"),
        Err(LexError::InvalidCharacter { character: '\u{c}', position: 1 })
    );
    assert_eq!(
        tokenize("\u{a0}"),
        Err(LexError::InvalidCharacter { character: '\u{a0}', position: 0 })
    );
}

#[test]
fn non_ascii_digits_are_invalid() {
    assert_eq!(
        tokenize("\u{663}"),
        Err(LexError::InvalidCharacter { character: '\u{663}', position: 0 })
    );
}

#[test]
fn punctuation_marks() {
    assert_eq!(
        tokenize("+-*/()").unwrap(),
        vec![
            token(TokenKind::Plus, 0, 1, 1, 1, "+"),
            token(TokenKind::Minus, 1, 2, 1, 2, "-"),
            token(TokenKind::Asterisk, 2, 3, 1, 3, "*"),
            token(TokenKind::Slash, 3, 4, 1, 4, "/"),
            token(TokenKind::LeftParen, 4, 5, 1, 5, "("),
            token(TokenKind::RightParen, 5, 6, 1, 6, ")"),
        ]
    );
}

#[test]
fn digits_are_consumed_greedily() {
    assert_eq!(
        kinds("12 34-5"),
        vec![
            TokenKind::Integer(12),
            TokenKind::Integer(34),
            TokenKind::Minus,
            TokenKind::Integer(5)
        ]
    );
}

#[test]
fn lines_and_columns() {
    assert_eq!(
        tokenize("1\n  +2\r\n\n 30").unwrap(),
        vec![
            token(TokenKind::Integer(1), 0, 1, 1, 1, "1"),
            token(TokenKind::Plus, 4, 5, 2, 3, "+"),
            token(TokenKind::Integer(2), 5, 6, 2, 4, "2"),
            token(TokenKind::Integer(30), 10, 12, 4, 2, "30"),
        ]
    );
}

#[test]
fn lex_agrees_with_tokenize() {
    let source = "(1 + 2) * 3";
    assert_eq!(lex(source.to_string()), tokenize(source));
    assert_eq!(lex("1 ? 2".to_string()), tokenize("1 ? 2"));
    assert_eq!(
        lex("7".to_string()),
        Ok(vec![token(TokenKind::Integer(7), 0, 1, 1, 1, "7")])
    );
}

#[test]
fn lexer_starts_at_the_first_character() {
    let lexer = Lexer::new("12");
    assert_eq!(lexer.input, vec!['1', '2']);
    assert_eq!(lexer.pos, 0);
    assert_eq!(lexer.next, 1);
    assert_eq!(lexer.ch, '1');
    assert_eq!(lexer.peek(), Some('1'));
    let empty = Lexer::new("");
    assert_eq!(empty.pos, 0);
    assert_eq!(empty.next, 0);
    assert_eq!(empty.ch, '\0');
    assert_eq!(empty.peek(), None);
}

#[test]
fn lexer_advances_one_character_at_a_time() {
    let mut lexer = Lexer::new("a\nb");
    lexer.advance();
    assert_eq!((lexer.pos, lexer.next, lexer.ch), (1, 2, '\n'));
    assert_eq!((lexer.newlines, lexer.line_start), (0, 0));
    lexer.advance();
    assert_eq!((lexer.pos, lexer.next, lexer.ch), (2, 3, 'b'));
    assert_eq!((lexer.newlines, lexer.line_start), (1, 2));
    lexer.advance();
    assert_eq!((lexer.pos, lexer.next, lexer.ch), (3, 3, '\0'));
    assert_eq!(lexer.peek(), None);
}

#[test]
fn lexer_skips_whitespace() {
    let mut lexer = Lexer::new(" \t\n 5");
    lexer.skip_whitespace();
    assert_eq!(lexer.pos, 4);
    assert_eq!(lexer.peek(), Some('5'));
    lexer.skip_whitespace();
    assert_eq!(lexer.pos, 4);
}

#[test]
fn lexer_reads_an_integer() {
    let mut lexer = Lexer::new("123+");
    assert_eq!(lexer.read_integer(), Ok(token(TokenKind::Integer(123), 0, 3, 1, 1, "123")));
    assert_eq!(lexer.pos, 3);
    let mut lexer = Lexer::new("92233720368547758070)");
    assert_eq!(
        lexer.read_integer(),
        Err(LexError::IntegerOverflow { literal: "92233720368547758070".to_string(), position: 0 })
    );
    assert_eq!(lexer.pos, 20);
}

#[test]
fn lexer_hands_out_tokens_one_by_one() {
    let mut lexer = Lexer::new(" 1 +\n");
    assert_eq!(lexer.next_token(), Ok(Some(token(TokenKind::Integer(1), 1, 2, 1, 2, "1"))));
    assert_eq!(lexer.pos, 2);
    assert_eq!(lexer.next_token(), Ok(Some(token(TokenKind::Plus, 3, 4, 1, 4, "+"))));
    assert_eq!(lexer.next_token(), Ok(None));
    assert_eq!(lexer.pos, 5);
    assert_eq!(lexer.next_token(), Ok(None));
}

#[test]
fn lexer_reports_an_invalid_character() {
    let mut lexer = Lexer::new("  ?");
    assert_eq!(
        lexer.next_token(),
        Err(LexError::InvalidCharacter { character: '?', position: 2 })
    );
}

#[test]
fn character_classes() {
    for c in ['0', '5', '9'] {
        assert!(is_digit_char(c));
    }
    for c in ['/', ':', 'a', ' ', '\u{663}'] {
        assert!(!is_digit_char(c));
    }
    for c in [' ', '\t', '\n', '\r'] {
        assert!(is_whitespace_char(c));
    }
    for c in ['\u{c}', '\u{b}', '\u{a0}', '0', '+'] {
        assert!(!is_whitespace_char(c));
    }
    assert_eq!(punctuation_kind('+'), Some(TokenKind::Plus));
    assert_eq!(punctuation_kind('-'), Some(TokenKind::Minus));
    assert_eq!(punctuation_kind('*'), Some(TokenKind::Asterisk));
    assert_eq!(punctuation_kind('/'), Some(TokenKind::Slash));
    assert_eq!(punctuation_kind('('), Some(TokenKind::LeftParen));
    assert_eq!(punctuation_kind(')'), Some(TokenKind::RightParen));
    assert_eq!(punctuation_kind('1'), None);
    assert_eq!(punctuation_kind('%'), None);
}

#[test]
fn tokens_stand_in_source_order() {
    let tokens = tokenize(" (10+\n2) *\t3 ").unwrap();
    assert_eq!(tokens.len(), 7);
    for pair in tokens.windows(2) {
        assert!(pair[0].span.end <= pair[1].span.start);
    }
    for t in &tokens {
        assert!(t.span.start < t.span.end);
    }
}
