use echoc::lexer::{LexicalError, Lexer, Token};

fn kinds(input: &str) -> Vec<Result<Token, LexicalError>> {
    let mut lexer = Lexer::new(input);
    let mut out = Vec::new();
    while let Some(item) = lexer.next() {
        out.push(item.map(|(_, t, _)| t));
    }
    out
}

#[test]
fn tok_tests() {
    let tests = vec![
        (r#"""#, vec![Token::Quote]),
        ("2", vec![Token::Int("2".to_string())]),
    ];
    for (input, expected) in tests {
        let tokens: Vec<Token> = kinds(input).into_iter().map(|t| t.unwrap()).collect();
        assert_eq!(tokens, expected, "Panic on: {}", input)
    }
}

#[test]
fn spans_and_classes() {
    let mut lexer = Lexer::new("echo \"ab c\" 12+(");
    assert_eq!(lexer.next(), Some(Ok((0, Token::KwEcho, 4))));
    assert_eq!(lexer.next(), Some(Ok((4, Token::ExpectedWS, 5))));
    assert_eq!(lexer.next(), Some(Ok((5, Token::Str("\"ab c\"".to_string()), 11))));
    assert_eq!(lexer.next(), Some(Ok((11, Token::ExpectedWS, 12))));
    assert_eq!(lexer.next(), Some(Ok((12, Token::Int("12".to_string()), 14))));
    assert_eq!(lexer.next(), Some(Ok((14, Token::OpAdd, 15))));
    assert_eq!(lexer.next(), Some(Ok((15, Token::ParenBegin, 16))));
    assert_eq!(lexer.next(), None);
    assert_eq!(lexer.next(), None);
}

#[test]
fn errors_are_reported_and_scanning_goes_on() {
    assert_eq!(
        kinds("x-y"),
        vec![
            Err(LexicalError::InvalidToken { at: 0 }),
            Ok(Token::OpSub),
            Err(LexicalError::InvalidToken { at: 2 }),
        ]
    );
    // A string with a character outside its class falls back to a lone quote.
    assert_eq!(
        kinds("\"a!\""),
        vec![
            Ok(Token::Quote),
            Err(LexicalError::InvalidToken { at: 1 }),
            Err(LexicalError::InvalidToken { at: 2 }),
            Ok(Token::Quote),
        ]
    );
    assert_eq!(kinds("*/)"), vec![Ok(Token::OpMul), Ok(Token::OpDiv), Ok(Token::ParenEnd)]);
    assert_eq!(kinds(""), vec![]);
}

#[test]
fn unicode_whitespace_is_one_token() {
    let mut lexer = Lexer::new("\u{a0}\u{2003} 1");
    assert_eq!(lexer.next(), Some(Ok((0, Token::ExpectedWS, 3))));
    assert_eq!(lexer.next(), Some(Ok((3, Token::Int("1".to_string()), 4))));
    assert_eq!(kinds("\"a\u{a0}b\""), vec![Ok(Token::Str("\"a\u{a0}b\"".to_string()))]);
}
