use tiny_shell::lexer::{tokenize, LexError, Lexer};
use tiny_shell::token::{Token, TokenKind};

fn token(kind: TokenKind, lexeme: &str, span: (usize, usize)) -> Token {
    Token { kind, lexeme: lexeme.to_string(), span }
}

#[test]
fn test_tokenize_simple_words() {
    let input = "echo hello";
    let mut lexer = Lexer::new(input);
    let tokens = lexer.tokenize_all().unwrap();
    assert_eq!(
        tokens,
        vec![
            token(TokenKind::Word, "echo", (0, 4)),
            token(TokenKind::Word, "hello", (5, 10)),
            token(TokenKind::Eof, "", (10, 10)),
        ]
    );
}

#[test]
fn test_tokenize_operators() {
    let input = "a|b && c || d > e < f ; (g) ";
    let mut lexer = Lexer::new(input);
    let tokens = lexer.tokenize_all().unwrap();
    assert_eq!(
        tokens,
        vec![
            token(TokenKind::Word, "a", (0, 1)),
            token(TokenKind::Pipe, "|", (1, 2)),
            token(TokenKind::Word, "b", (2, 3)),
            token(TokenKind::And, "&&", (4, 6)),
            token(TokenKind::Word, "c", (7, 8)),
            token(TokenKind::Or, "||", (9, 11)),
            token(TokenKind::Word, "d", (12, 13)),
            token(TokenKind::RedirectOut, ">", (14, 15)),
            token(TokenKind::Word, "e", (16, 17)),
            token(TokenKind::RedirectIn, "<", (18, 19)),
            token(TokenKind::Word, "f", (20, 21)),
            token(TokenKind::Semicolon, ";", (22, 23)),
            token(TokenKind::LParen, "(", (24, 25)),
            token(TokenKind::Word, "g", (25, 26)),
            token(TokenKind::RParen, ")", (26, 27)),
            token(TokenKind::Eof, "", (28, 28)),
        ]
    );
}

#[test]
fn test_single_quoted_word() {
    let input = "ls 'foo bar'";
    let mut lexer = Lexer::new(input);
    let tokens = lexer.tokenize_all().unwrap();
    assert_eq!(
        tokens,
        vec![
            token(TokenKind::Word, "ls", (0, 2)),
            token(TokenKind::Word, "foo bar", (4, 11)),
            token(TokenKind::Eof, "", (12, 12)),
        ]
    );
}

#[test]
fn test_double_quoted_word() {
    let input = "ls \"foo bar\"";
    let mut lexer = Lexer::new(input);
    let tokens = lexer.tokenize_all().unwrap();
    assert_eq!(
        tokens,
        vec![
            token(TokenKind::Word, "ls", (0, 2)),
            token(TokenKind::Word, "foo bar", (4, 11)),
            token(TokenKind::Eof, "", (12, 12)),
        ]
    );
}

#[test]
fn test_mixed_quotes() {
    let input = "echo 'foo' \"bar baz\" qux";
    let mut lexer = Lexer::new(input);
    let tokens = lexer.tokenize_all().unwrap();
    assert_eq!(
        tokens,
        vec![
            token(TokenKind::Word, "echo", (0, 4)),
            token(TokenKind::Word, "foo", (6, 9)),
            token(TokenKind::Word, "bar baz", (12, 19)),
            token(TokenKind::Word, "qux", (21, 24)),
            token(TokenKind::Eof, "", (24, 24)),
        ]
    );
}

#[test]
fn test_unterminated_single_quote() {
    let input = "echo 'foo";
    let mut lexer = Lexer::new(input);
    let result = lexer.tokenize_all();
    assert!(result.is_err());
    if let Err(LexError::UnterminatedQuote('\'', pos)) = result {
        assert_eq!(pos, 5);
    } else {
        panic!("Should be UnterminatedQuote error");
    }
}

#[test]
fn test_unterminated_double_quote() {
    let input = "echo \"foo";
    let mut lexer = Lexer::new(input);
    let result = lexer.tokenize_all();
    assert!(result.is_err());
    if let Err(LexError::UnterminatedQuote('"', pos)) = result {
        assert_eq!(pos, 5);
    } else {
        panic!("Should be UnterminatedQuote error");
    }
}

#[test]
fn test_tokenize_mixed() {
    let input = r#"ls -l | grep 'foo bar' && echo done"#;
    let mut lexer = Lexer::new(input);
    let tokens = lexer.tokenize_all().unwrap();
    assert_eq!(
        tokens,
        vec![
            token(TokenKind::Word, "ls", (0, 2)),
            token(TokenKind::Word, "-l", (3, 5)),
            token(TokenKind::Pipe, "|", (6, 7)),
            token(TokenKind::Word, "grep", (8, 12)),
            token(TokenKind::Word, "foo bar", (14, 21)),
            token(TokenKind::And, "&&", (23, 25)),
            token(TokenKind::Word, "echo", (26, 30)),
            token(TokenKind::Word, "done", (31, 35)),
            token(TokenKind::Eof, "", (35, 35)),
        ]
    );
}

#[test]
fn test_tokenize_empty() {
    let input = "";
    let mut lexer = Lexer::new(input);
    let tokens = lexer.tokenize_all().unwrap();
    assert_eq!(tokens, vec![token(TokenKind::Eof, "", (0, 0))]);
}

#[test]
fn lone_ampersand_is_rejected() {
    assert_eq!(tokenize("sleep 1 &"), Err(LexError::UnexpectedChar('&', 8)));
}

#[test]
fn append_operator_is_one_token() {
    let tokens = tokenize("echo a >> log").unwrap();
    assert_eq!(tokens[2], token(TokenKind::RedirectAppend, ">>", (7, 9)));
}

#[test]
fn quoted_segment_merges_with_word() {
    let tokens = tokenize("foo\"bar\"").unwrap();
    assert_eq!(tokens, vec![token(TokenKind::Word, "foobar", (0, 7)), token(TokenKind::Eof, "", (8, 8))]);
}

#[test]
fn backslash_escapes_next_char() {
    let tokens = tokenize("a\\ b\\|c").unwrap();
    assert_eq!(tokens[0], token(TokenKind::Word, "a b|c", (0, 7)));
    assert_eq!(tokens.len(), 2);
}

#[test]
fn spans_are_byte_offsets() {
    let tokens = tokenize("é x").unwrap();
    assert_eq!(tokens[0], token(TokenKind::Word, "é", (0, 2)));
    assert_eq!(tokens[1], token(TokenKind::Word, "x", (3, 4)));
    assert_eq!(tokens[2], token(TokenKind::Eof, "", (4, 4)));
}

#[test]
fn every_token_list_ends_with_eof_within_input() {
    for input in ["", "  ", "a;b", "x 'y z' | w >> q", "(a && b) || c"] {
        let tokens = tokenize(input).unwrap();
        let last = tokens.last().unwrap();
        assert_eq!(last.kind, TokenKind::Eof);
        assert_eq!(last.span, (input.len(), input.len()));
        for t in &tokens {
            assert!(t.span.0 <= t.span.1 && t.span.1 <= input.len());
        }
        assert_eq!(tokens.iter().filter(|t| t.kind == TokenKind::Eof).count(), 1);
    }
}

#[test]
fn empty_quotes_give_empty_word() {
    let tokens = tokenize("echo ''").unwrap();
    assert_eq!(tokens[1], token(TokenKind::Word, "", (6, 6)));
}

#[test]
fn next_token_hands_out_tokens_in_order() {
    let mut lexer = Lexer::new("ls | wc");
    let mut kinds = Vec::new();
    while let Some(t) = lexer.next_token().unwrap() {
        kinds.push(t.kind);
    }
    assert_eq!(kinds, vec![TokenKind::Word, TokenKind::Pipe, TokenKind::Word, TokenKind::Eof]);
    assert_eq!(lexer.next_token(), Ok(None));
}

#[test]
fn next_token_reports_error_after_earlier_tokens() {
    let mut lexer = Lexer::new("a ; 'b");
    assert_eq!(lexer.next_token().unwrap().unwrap(), token(TokenKind::Word, "a", (0, 1)));
    assert_eq!(lexer.next_token().unwrap().unwrap(), token(TokenKind::Semicolon, ";", (2, 3)));
    assert_eq!(lexer.next_token(), Err(LexError::UnterminatedQuote('\'', 4)));
    assert_eq!(lexer.next_token(), Err(LexError::UnterminatedQuote('\'', 4)));
}

#[test]
fn tokenize_matches_tokenize_all() {
    let mut lexer = Lexer::new("x >> y");
    assert_eq!(lexer.tokenize(), lexer.tokenize_all());
}

#[test]
fn single_quotes_and_backslashes_protect_expansion_characters() {
    let tokens = tokenize("'$HOME' \\$X \"$Y\" 'a*'").unwrap();
    assert_eq!(tokens[0].lexeme, "\\$HOME");
    assert_eq!(tokens[1].lexeme, "\\$X");
    assert_eq!(tokens[2].lexeme, "$Y");
    assert_eq!(tokens[3].lexeme, "a\\*");
}
