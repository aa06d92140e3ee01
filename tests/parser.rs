use echoc::ast::{Kw, Literal, Stmt};
use echoc::parser::{kw, literal, padded_ws, parse_program, stmt, ParseError};

#[test]
fn int_test() {
    let tests = vec![
        ("2", Literal::Int(2)),
        ("123", Literal::Int(123)),
        ("1.0", Literal::Float("1.0".to_string())),
        ("2.31", Literal::Float("2.31".to_string())),
    ];
    for (i, o) in tests {
        assert_eq!(literal(i).unwrap(), o)
    }
}

#[test]
fn str_test() {
    let tests = vec![(r#""Hello World""#, Literal::Str("Hello World".to_string()))];
    for (i, o) in tests {
        assert_eq!(literal(i).unwrap(), o)
    }
}

#[test]
fn kw_test() {
    let tests = vec![("echo", Kw::Echo)];
    for (i, o) in tests {
        assert_eq!(kw(i).unwrap(), o)
    }
}

#[test]
fn ws_test() {
    assert_eq!(padded_ws("  ").unwrap(), ())
}

#[test]
fn stmt_test() {
    let tests = vec![(
        "echo 2",
        Stmt {
            kw: Kw::Echo,
            args: vec![Literal::Int(2)],
        },
    )];
    for (i, o) in tests {
        assert_eq!(stmt(i).unwrap(), o)
    }
}

#[test]
fn int_literal_limits() {
    assert_eq!(literal("2147483647"), Ok(Literal::Int(2147483647)));
    assert_eq!(literal("0"), Ok(Literal::Int(0)));
    assert_eq!(literal("007"), Ok(Literal::Int(7)));
    assert_eq!(literal("2147483648"), Err(ParseError::IntOutOfRange { at: 0 }));
    assert_eq!(literal("99999999999999999999"), Err(ParseError::IntOutOfRange { at: 0 }));
}

#[test]
fn int_literal_round_trip() {
    for text in ["0", "7", "10", "4096", "2147483647"] {
        match literal(text).unwrap() {
            Literal::Int(n) => assert_eq!(n.to_string(), text),
            other => panic!("not an integer: {:?}", other),
        }
    }
}

#[test]
fn float_literal_keeps_decimal_text() {
    assert_eq!(literal("0.5"), Ok(Literal::Float("0.5".to_string())));
    assert_eq!(literal("10.250"), Ok(Literal::Float("10.250".to_string())));
    match literal("2.31").unwrap() {
        Literal::Float(t) => assert_eq!(t.parse::<f64>().unwrap(), 2.31),
        other => panic!("not a float: {:?}", other),
    }
    // A dot must be followed by a digit: the offset is just past the dot.
    assert_eq!(literal("1."), Err(ParseError::Unexpected { at: 2 }));
    assert_eq!(literal("12.x"), Err(ParseError::Unexpected { at: 3 }));
}

#[test]
fn string_literal_is_verbatim() {
    assert_eq!(literal(r#""""#), Ok(Literal::Str(String::new())));
    assert_eq!(literal(r#""a\nb""#), Ok(Literal::Str(r"a\nb".to_string())));
    assert_eq!(literal(r#""Hello world!""#), Ok(Literal::Str("Hello world!".to_string())));
}

#[test]
fn unterminated_string_fails_at_end() {
    assert_eq!(literal(r#""abc"#), Err(ParseError::Unexpected { at: 4 }));
    assert_eq!(parse_program(r#"echo "abc"#), Err(ParseError::Unexpected { at: 9 }));
}

#[test]
fn missing_keyword_fails_at_first_offending_char() {
    assert_eq!(parse_program("print 1"), Err(ParseError::Unexpected { at: 0 }));
    assert_eq!(parse_program("  ecXo 1"), Err(ParseError::Unexpected { at: 4 }));
    assert_eq!(parse_program("echo"), Err(ParseError::Unexpected { at: 4 }));
    assert_eq!(parse_program("echo1"), Err(ParseError::Unexpected { at: 4 }));
    assert_eq!(parse_program("echo 1x"), Err(ParseError::Unexpected { at: 6 }));
    assert_eq!(parse_program("echo 1echo 2"), Err(ParseError::Unexpected { at: 6 }));
    assert_eq!(parse_program("echo 99999999999"), Err(ParseError::IntOutOfRange { at: 5 }));
    assert_eq!(kw("ech"), Err(ParseError::Unexpected { at: 3 }));
    assert_eq!(padded_ws(""), Err(ParseError::Unexpected { at: 0 }));
    assert_eq!(padded_ws(" x"), Err(ParseError::Unexpected { at: 1 }));
    assert_eq!(ParseError::Unexpected { at: 6 }.at(), 6);
}

#[test]
fn hello_world_parses() {
    let stmts = parse_program(r#"echo "Hello world!""#).unwrap();
    assert_eq!(
        stmts,
        vec![Stmt {
            kw: Kw::Echo,
            args: vec![Literal::Str("Hello world!".to_string())],
        }]
    );
}

#[test]
fn several_arguments_and_statements_parse_in_order() {
    let stmts = parse_program("  echo \"a\" \"b\"\n\techo 1 2.5\necho \n").unwrap();
    assert_eq!(stmts.len(), 3);
    assert_eq!(
        stmts[0].args,
        vec![Literal::Str("a".to_string()), Literal::Str("b".to_string())]
    );
    assert_eq!(
        stmts[1].args,
        vec![Literal::Int(1), Literal::Float("2.5".to_string())]
    );
    assert_eq!(stmts[2].args, vec![]);
    assert_eq!(parse_program(""), Ok(vec![]));
    assert_eq!(parse_program(" \n "), Ok(vec![]));
}

#[test]
fn dangling_dot_fails_after_the_dot() {
    assert_eq!(stmt("echo 1."), Err(ParseError::Unexpected { at: 7 }));
    assert_eq!(stmt("echo 1.x"), Err(ParseError::Unexpected { at: 7 }));
    assert_eq!(parse_program("echo 1.\necho 2"), Err(ParseError::Unexpected { at: 7 }));
}

#[test]
fn unicode_whitespace_separates() {
    assert_eq!(padded_ws("\u{a0}"), Ok(()));
    assert_eq!(padded_ws("\u{2003}\u{3000}\u{85} \t"), Ok(()));
    assert_eq!(padded_ws("\u{200b}"), Err(ParseError::Unexpected { at: 0 }));
    let stmts = parse_program("\u{2028}echo\u{a0}1\u{3000}\"x\"\u{2029}echo 2").unwrap();
    assert_eq!(stmts.len(), 2);
    assert_eq!(stmts[0].args, vec![Literal::Int(1), Literal::Str("x".to_string())]);
    assert_eq!(stmts[1].args, vec![Literal::Int(2)]);
}
