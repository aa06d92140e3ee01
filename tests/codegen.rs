use echoc::ast::{Kw, Literal, Stmt};
use echoc::codegen::{literal_text, CodeGen, LowerError, LowerErrorKind};
use echoc::parser::parse_program;

fn chars(s: &str) -> Vec<char> {
    s.chars().collect()
}

fn lower(src: &str) -> (CodeGen, Result<(), LowerError>) {
    let stmts = parse_program(src).unwrap();
    let mut cg = CodeGen::new();
    let r = cg.compile(stmts);
    (cg, r)
}

#[test]
fn hello_world_prints_one_line() {
    let (cg, r) = lower(r#"echo "Hello world!""#);
    assert_eq!(r, Ok(()));
    assert_eq!(cg.output(), vec![chars("Hello world!")]);
    assert_eq!(cg.globals(), &vec![chars("Hello world!")]);
    assert_eq!(cg.calls(), &vec![0]);
}

#[test]
fn integer_echo_prints_its_decimal_text() {
    let (cg, r) = lower("echo 2");
    assert_eq!(r, Ok(()));
    assert_eq!(cg.output(), vec![chars("2")]);
    let mut cg = CodeGen::new();
    let stmts = vec![
        Stmt { kw: Kw::Echo, args: vec![Literal::Int(-45)] },
        Stmt { kw: Kw::Echo, args: vec![Literal::Int(i32::MIN)] },
        Stmt { kw: Kw::Echo, args: vec![Literal::Int(1000)] },
    ];
    assert_eq!(cg.compile(stmts), Ok(()));
    assert_eq!(cg.output(), vec![chars("-45"), chars("-2147483648"), chars("1000")]);
}

#[test]
fn two_arguments_is_an_arity_error() {
    let (_, r) = lower(r#"echo "a" "b""#);
    assert_eq!(r, Err(LowerError { stmt: 0, kind: LowerErrorKind::Arity { count: 2 } }));
    let (_, r) = lower("echo ");
    assert_eq!(r, Err(LowerError { stmt: 0, kind: LowerErrorKind::Arity { count: 0 } }));
}

#[test]
fn float_echo_is_unsupported() {
    let (cg, r) = lower("echo \"x\"\necho 1.5\necho \"y\"");
    assert_eq!(r, Err(LowerError { stmt: 1, kind: LowerErrorKind::UnsupportedLiteral }));
    // The statements before the failing one stay lowered.
    assert_eq!(cg.output(), vec![chars("x")]);
}

#[test]
fn statements_print_in_source_order() {
    let (cg, r) = lower("echo \"1\"\necho \"2\"");
    assert_eq!(r, Ok(()));
    assert_eq!(cg.output(), vec![chars("1"), chars("2")]);
}

#[test]
fn same_text_is_interned_once() {
    let (cg, r) = lower("echo \"same text\"\necho \"same text\"");
    assert_eq!(r, Ok(()));
    assert_eq!(cg.globals(), &vec![chars("same text")]);
    assert_eq!(cg.calls(), &vec![0, 0]);
    // A string and an integer with the same text share the entry too.
    let (cg, r) = lower("echo \"7\" 
echo 7");
    assert_eq!(r, Ok(()));
    assert_eq!(cg.globals().len(), 1);
}

#[test]
fn different_texts_get_their_own_entries() {
    let (cg, r) = lower("echo \"a\"\necho \"b\"\necho \"a\"");
    assert_eq!(r, Ok(()));
    assert_eq!(cg.globals(), &vec![chars("a"), chars("b")]);
    assert_eq!(cg.calls(), &vec![0, 1, 0]);
    assert_eq!(cg.output(), vec![chars("a"), chars("b"), chars("a")]);
}

#[test]
fn literal_from_string_and_equality() {
    assert_eq!(Literal::from("q".to_string()), Literal::Str("q".to_string()));
    assert_ne!(Literal::Int(1), Literal::Str("1".to_string()));
}

#[test]
fn literal_text_policy() {
    assert_eq!(literal_text(&Literal::Str("hi there".to_string())), Some(chars("hi there")));
    assert_eq!(literal_text(&Literal::Int(0)), Some(chars("0")));
    assert_eq!(literal_text(&Literal::Int(2147483647)), Some(chars("2147483647")));
    assert_eq!(literal_text(&Literal::Float("1.0".to_string())), None);
}
