use emlisp::{eval_program, eval_source, parse, parse_number, parse_program, Env, Expr, LispError, Number, Value};

fn n(v: i64) -> Number {
    Number::from_i64(v)
}

#[test]
fn parses_nested_expression() {
    let parsed = parse("(+ 1 (* 2 3))").expect("parse should succeed");
    assert_eq!(
        parsed,
        Expr::List(vec![
            Expr::Symbol("+".into()),
            Expr::Number(n(1)),
            Expr::List(vec![
                Expr::Symbol("*".into()),
                Expr::Number(n(2)),
                Expr::Number(n(3)),
            ])
        ])
    );
}

#[test]
fn parses_multiple_top_level_expressions() {
    let parsed =
        parse_program("(define answer 42) (* answer 2)").expect("program parse should succeed");
    assert_eq!(parsed.len(), 2);
}

#[test]
fn evals_define_and_lookup() {
    let mut env = Env::default();
    let value = eval_source("(define answer (+ 40 2))", &mut env).expect("define should work");
    assert_eq!(value, Value::Number(n(42)));

    let looked_up = eval_source("answer", &mut env).expect("symbol lookup should work");
    assert_eq!(looked_up, Value::Number(n(42)));
}

#[test]
fn define_is_immutable() {
    let mut env = Env::default();
    eval_source("(define answer 42)", &mut env).expect("first define should work");

    let err = eval_source("(define answer 7)", &mut env).expect_err("redefine should fail");
    assert_eq!(
        err,
        LispError::Eval("cannot redefine immutable binding: answer".into())
    );
}

#[test]
fn evals_arithmetic() {
    let mut env = Env::default();
    assert_eq!(
        eval_source("(+ 1 2 3 4)", &mut env).expect("+ should work"),
        Value::Number(n(10))
    );
    assert_eq!(
        eval_source("(- 10 3 2)", &mut env).expect("- should work"),
        Value::Number(n(5))
    );
    assert_eq!(
        eval_source("(/ 20 5)", &mut env).expect("/ should work"),
        Value::Number(n(4))
    );
}

#[test]
fn evals_atom_and_bool_literals() {
    let mut env = Env::default();
    assert_eq!(
        eval_source(":ok", &mut env).expect("atom literal should work"),
        Value::Atom("ok".into())
    );
    assert_eq!(
        eval_source("true", &mut env).expect("true literal should work"),
        Value::Bool(true)
    );
}

#[test]
fn evals_if_expression() {
    let mut env = Env::default();
    assert_eq!(
        eval_source("(if true 10 0)", &mut env).expect("if true should work"),
        Value::Number(n(10))
    );
    assert_eq!(
        eval_source("(if false 10 0)", &mut env).expect("if false should work"),
        Value::Number(n(0))
    );
}

#[test]
fn evals_pipeline_expression() {
    let mut env = Env::default();
    assert_eq!(
        eval_source("(|> 5 (+ 3) (* 2))", &mut env).expect("pipeline should work"),
        Value::Number(n(16))
    );
}

#[test]
fn evals_program_and_returns_last_expression() {
    let mut env = Env::default();
    let src = "(define answer (+ 40 2))\n(* answer 2)";
    assert_eq!(
        eval_program(src, &mut env).expect("program eval should work"),
        Value::Number(n(84))
    );
}

#[test]
fn evals_anonymous_function() {
    let mut env = Env::default();
    assert_eq!(
        eval_source("((fn (x) (+ x 1)) 4)", &mut env).expect("anonymous function should work"),
        Value::Number(n(5))
    );
}

#[test]
fn evals_anonymous_recursion_with_fn() {
    let mut env = Env::default();
    let src = "((fn (self n) (if (< n 2) 1 (* n (self (- n 1))))) 5)";
    assert_eq!(
        eval_source(src, &mut env).expect("anonymous recursion should work"),
        Value::Number(n(120))
    );
}

#[test]
fn supports_deep_tail_recursion_with_fn() {
    let mut env = Env::default();
    let src = "((fn (self n acc) (if (< n 1) acc (self (- n 1) (+ acc 1)))) 20000 0)";
    assert_eq!(
        eval_source(src, &mut env).expect("deep tail recursion should work"),
        Value::Number(n(20000))
    );
}

#[test]
fn supports_deep_non_tail_recursion_with_fn() {
    let mut env = Env::default();
    let src = "((fn (self n) (if (< n 1) 0 (+ 1 (self (- n 1))))) 5000)";
    assert_eq!(
        eval_source(src, &mut env).expect("deep non-tail recursion should work"),
        Value::Number(n(5000))
    );
}

#[test]
fn auto_transforms_non_tail_recursion_for_large_depth() {
    let mut env = Env::default();
    let src = "((fn (self n) (if (< n 1) 0 (+ 1 (self (- n 1))))) 100000)";
    assert_eq!(
        eval_source(src, &mut env).expect("auto transformed non-tail recursion should work"),
        Value::Number(n(100000))
    );
}

#[test]
fn parses_decimal_as_exact_rational() {
    let parsed = parse("3.14").expect("parse should succeed");
    assert_eq!(
        parsed,
        Expr::Number(parse_number("3.14").expect("number parse"))
    );
}
