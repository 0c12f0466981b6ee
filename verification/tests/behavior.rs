use tinylex::lexer::{Lexer, LexerError};
use tinylex::token::{SpannedToken, Token};

#[test]
fn tokenize_empty_source() {
    let mut lexer = Lexer::new();
    let tokens = lexer.tokenize("").unwrap();
    assert!(tokens.is_empty())
}

#[test]
fn tokenize_zero() {
    let mut lexer = Lexer::new();
    let tokens = lexer.tokenize("0").unwrap();
    assert_eq!(tokens, vec![SpannedToken::new(Token::Integer(0), 0, 0, 0)])
}

#[test]
fn tokenize_integer_with_leading_zeros() {
    let mut lexer = Lexer::new();
    let tokens = lexer.tokenize("007").unwrap();
    assert_eq!(tokens, vec![SpannedToken::new(Token::Integer(7), 0, 0, 2)])
}

#[test]
fn tokenize_largest_integer() {
    let mut lexer = Lexer::new();
    let tokens = lexer.tokenize("9223372036854775807").unwrap();
    assert_eq!(
        tokens,
        vec![SpannedToken::new(Token::Integer(9223372036854775807), 0, 0, 18)]
    )
}

#[test]
fn tokenize_overflowing_integer() {
    let mut lexer = Lexer::new();
    let error = lexer.tokenize("99999999999999999999").unwrap_err();
    assert_eq!(error, LexerError::FailedToParseInteger)
}

#[test]
fn tokenize_smallest_overflowing_integer() {
    let mut lexer = Lexer::new();
    let error = lexer.tokenize("9223372036854775808").unwrap_err();
    assert_eq!(error, LexerError::FailedToParseInteger)
}

#[test]
fn tokenize_unrecognized_symbol() {
    let mut lexer = Lexer::new();
    let error = lexer.tokenize("@").unwrap_err();
    assert_eq!(error, LexerError::UnrecognizedLexeme)
}

#[test]
fn tokenize_space_is_unrecognized() {
    let mut lexer = Lexer::new();
    let error = lexer.tokenize(" ").unwrap_err();
    assert_eq!(error, LexerError::UnrecognizedLexeme)
}

#[test]
fn tokenize_tab_is_unrecognized() {
    let mut lexer = Lexer::new();
    let error = lexer.tokenize("\t").unwrap_err();
    assert_eq!(error, LexerError::UnrecognizedLexeme)
}

#[test]
fn tokenize_carriage_return_is_unrecognized() {
    let mut lexer = Lexer::new();
    let error = lexer.tokenize("\r").unwrap_err();
    assert_eq!(error, LexerError::UnrecognizedLexeme)
}

#[test]
fn tokenize_identifiers_across_newline() {
    let mut lexer = Lexer::new();
    let tokens = lexer.tokenize("a\nb").unwrap();
    assert_eq!(
        tokens,
        vec![
            SpannedToken::new(Token::Identifier("a".into()), 0, 0, 0),
            SpannedToken::new(Token::Identifier("b".into()), 1, 0, 0),
        ]
    )
}

#[test]
fn tokenize_fn_then_paren() {
    let mut lexer = Lexer::new();
    let tokens = lexer.tokenize("fn(").unwrap();
    assert_eq!(
        tokens,
        vec![
            SpannedToken::new(Token::Fn, 0, 0, 1),
            SpannedToken::new(Token::LeftParen, 0, 2, 2),
        ]
    )
}

#[test]
fn tokenize_fn_space_paren_fails() {
    let mut lexer = Lexer::new();
    let error = lexer.tokenize("fn (").unwrap_err();
    assert_eq!(error, LexerError::UnrecognizedLexeme)
}

#[test]
fn tokenize_lone_underscore_fails() {
    let mut lexer = Lexer::new();
    let error = lexer.tokenize("_").unwrap_err();
    assert_eq!(error, LexerError::FailedToParseInteger)
}

#[test]
fn tokenize_underscore_led_digits_fail() {
    let mut lexer = Lexer::new();
    let error = lexer.tokenize("_123").unwrap_err();
    assert_eq!(error, LexerError::FailedToParseInteger)
}

#[test]
fn tokenize_number_then_colon() {
    let mut lexer = Lexer::new();
    let tokens = lexer.tokenize("123:").unwrap();
    assert_eq!(
        tokens,
        vec![
            SpannedToken::new(Token::Integer(123), 0, 0, 2),
            SpannedToken::new(Token::Colon, 0, 3, 3),
        ]
    )
}

#[test]
fn tokenize_keyword_prefix_is_identifier() {
    let mut lexer = Lexer::new();
    let tokens = lexer.tokenize("i32x").unwrap();
    assert_eq!(
        tokens,
        vec![SpannedToken::new(Token::Identifier("i32x".into()), 0, 0, 3)]
    )
}

#[test]
fn tokenize_punctuation_run() {
    let mut lexer = Lexer::new();
    let tokens = lexer.tokenize("fn:(){}").unwrap();
    assert_eq!(
        tokens,
        vec![
            SpannedToken::new(Token::Fn, 0, 0, 1),
            SpannedToken::new(Token::Colon, 0, 2, 2),
            SpannedToken::new(Token::LeftParen, 0, 3, 3),
            SpannedToken::new(Token::RightParen, 0, 4, 4),
            SpannedToken::new(Token::LeftCurlyBrace, 0, 5, 5),
            SpannedToken::new(Token::RightCurlyBrace, 0, 6, 6),
        ]
    )
}

#[test]
fn tokenize_number_after_newline() {
    let mut lexer = Lexer::new();
    let tokens = lexer.tokenize("(\n12").unwrap();
    assert_eq!(
        tokens,
        vec![
            SpannedToken::new(Token::LeftParen, 0, 0, 0),
            SpannedToken::new(Token::Integer(12), 1, 0, 1),
        ]
    )
}

#[test]
fn tokenize_error_returns_no_partial_sequence() {
    let mut lexer = Lexer::new();
    let error = lexer.tokenize("fn@").unwrap_err();
    assert_eq!(error, LexerError::UnrecognizedLexeme)
}

#[test]
fn tokenize_alphabetic_beyond_ascii_is_identifier() {
    let mut lexer = Lexer::new();
    let tokens = lexer.tokenize("h\u{e9}llo").unwrap();
    assert_eq!(
        tokens,
        vec![SpannedToken::new(
            Token::Identifier("h\u{e9}llo".into()),
            0,
            0,
            4
        )]
    )
}

#[test]
fn tokenize_numeric_beyond_ascii_fails_to_parse() {
    // An Arabic-Indic digit is Unicode-numeric, so it starts a number run,
    // but it is no ASCII decimal digit, so the run never parses.
    let mut lexer = Lexer::new();
    let error = lexer.tokenize("\u{663}").unwrap_err();
    assert_eq!(error, LexerError::FailedToParseInteger)
}

#[test]
fn tokens_reslice_source() {
    let source = "fn:abc\n007{";
    let mut lexer = Lexer::new();
    let tokens = lexer.tokenize(source).unwrap();
    let lines: Vec<Vec<char>> = source.split('\n').map(|l| l.chars().collect()).collect();
    let expected = ["fn", ":", "abc", "007", "{"];
    assert_eq!(tokens.len(), expected.len());
    for (token, lexeme) in tokens.iter().zip(expected.iter()) {
        let sliced: String = lines[token.line][token.start..=token.end].iter().collect();
        assert_eq!(&sliced, lexeme);
    }
}

#[test]
fn tokenize_empty_source_leaves_counters_at_zero() {
    let mut lexer = Lexer::new();
    lexer.tokenize("").unwrap();
    assert_eq!(lexer.cur_char, 0);
    assert_eq!(lexer.cur_char_at_cur_line, 0);
    assert_eq!(lexer.line, 0);
}

#[test]
fn tokenize_tracks_position_counters() {
    let mut lexer = Lexer::new();
    lexer.tokenize("(\n12").unwrap();
    assert_eq!(lexer.cur_char, 4);
    assert_eq!(lexer.cur_char_at_cur_line, 2);
    assert_eq!(lexer.line, 1);
}

#[test]
fn tokenize_reused_scanner_scans_independently() {
    let mut lexer = Lexer::new();
    let first = lexer.tokenize("a\n(").unwrap();
    let second = lexer.tokenize("(").unwrap();
    assert_eq!(
        first,
        vec![
            SpannedToken::new(Token::Identifier("a".into()), 0, 0, 0),
            SpannedToken::new(Token::LeftParen, 1, 0, 0),
        ]
    );
    assert_eq!(second, vec![SpannedToken::new(Token::LeftParen, 0, 0, 0)])
}
