use emlisp::{parse, parse_program, Expr, LispError, Number};

fn sym(s: &str) -> Expr {
    Expr::Symbol(s.into())
}

#[test]
fn tokens_split_on_parentheses_and_white_space() {
    let parsed = parse("(a(b)\tc\n)").unwrap();
    assert_eq!(
        parsed,
        Expr::List(vec![sym("a"), Expr::List(vec![sym("b")]), sym("c")])
    );
    let wide = parse("(f\u{3000}x)").unwrap();
    assert_eq!(wide, Expr::List(vec![sym("f"), sym("x")]));
}

#[test]
fn empty_list_and_symbols() {
    assert_eq!(parse("()").unwrap(), Expr::List(vec![]));
    assert_eq!(parse("|>").unwrap(), sym("|>"));
    assert_eq!(parse("-").unwrap(), sym("-"));
    assert_eq!(parse(" 12 ").unwrap(), Expr::Number(Number::from_i64(12)));
}

#[test]
fn parse_errors() {
    assert_eq!(parse("   "), Err(LispError::Parse("empty input".into())));
    assert_eq!(parse("1 2"), Err(LispError::Parse("unexpected tokens after expression".into())));
    assert_eq!(parse("(1 2"), Err(LispError::Parse("missing closing ')'".into())));
    assert_eq!(parse(")"), Err(LispError::Parse("unexpected ')'".into())));
    assert_eq!(parse("(1 ))"), Err(LispError::Parse("unexpected tokens after expression".into())));
}

#[test]
fn program_parsing() {
    assert_eq!(parse_program("").unwrap().len(), 0);
    assert_eq!(parse_program("1 (a) b").unwrap().len(), 3);
    assert_eq!(parse_program("1 )"), Err(LispError::Parse("unexpected ')'".into())));
}

#[test]
fn error_descriptions() {
    assert_eq!(LispError::Parse("x".into()).describe(), "parse error: x");
    assert_eq!(LispError::Eval("y".into()).describe(), "eval error: y");
}

#[test]
fn joined_programs_read_in_order_and_blank_text_is_empty() {
    let a = "(define x 1) (+ x 2)";
    let b = "(print x)\n:ok";
    let mut joined = parse_program(a).unwrap();
    joined.extend(parse_program(b).unwrap());
    assert_eq!(parse_program(&format!("{a} {b}")).unwrap(), joined);
    for blank in ["", " ", "\n\t  \r\n"] {
        assert_eq!(parse_program(blank).unwrap(), Vec::new());
    }
}
