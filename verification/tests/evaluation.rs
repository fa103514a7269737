use emlisp::{eval, eval_program, eval_source, parse, Env, LispError, Number, Value};

fn n(v: i64) -> Number {
    Number::from_i64(v)
}

fn eval_err(src: &str) -> LispError {
    let mut env = Env::default();
    eval_source(src, &mut env).expect_err("should fail")
}

fn eval_msg(msg: &str) -> LispError {
    LispError::Eval(msg.into())
}

#[test]
fn readme_session() {
    let mut env = Env::default();
    assert_eq!(eval_source("(define answer (+ 40 2))", &mut env).unwrap(), Value::Number(n(42)));
    assert_eq!(eval_source("answer", &mut env).unwrap(), Value::Number(n(42)));
    assert_eq!(eval_source("(* answer 2)", &mut env).unwrap(), Value::Number(n(84)));
    assert_eq!(eval_source("(if true :ok :error)", &mut env).unwrap(), Value::Atom("ok".into()));
    assert_eq!(eval_source("(|> 5 (+ 3) (* 2))", &mut env).unwrap(), Value::Number(n(16)));
    assert_eq!(eval_source("((fn (x) (+ x 1)) 41)", &mut env).unwrap(), Value::Number(n(42)));
    assert_eq!(
        eval_source("((fn (self n) (if (< n 2) 1 (* n (self (- n 1))))) 5)", &mut env).unwrap(),
        Value::Number(n(120))
    );
}

#[test]
fn hanoi_minimum_moves() {
    let mut env = Env::default();
    let src = "(define hanoi (fn (self n) (if (< n 1) 0 (+ 1 (* 2 (self (- n 1)))))))\n\
               (print (hanoi 3))\n\
               (hanoi 10)";
    assert_eq!(eval_program(src, &mut env).unwrap(), Value::Number(n(1023)));
    assert_eq!(env.take_printed(), vec!["7".to_string()]);
}

#[test]
fn literals_and_display() {
    let mut env = Env::default();
    assert_eq!(eval_source("nil", &mut env).unwrap(), Value::Nil);
    assert_eq!(eval_source("false", &mut env).unwrap(), Value::Bool(false));
    assert_eq!(eval_source("::ok", &mut env).unwrap(), Value::Atom("ok".into()));
    assert_eq!(eval_source("()", &mut env).unwrap(), Value::Nil);
    assert_eq!(Value::Atom("ok".into()).display_string(), ":ok");
    assert_eq!(Value::Bool(true).display_string(), "true");
    assert_eq!(Value::Nil.display_string(), "nil");
    assert_eq!(eval_source("(fn (x) x)", &mut env).unwrap().display_string(), "<fn>");
    assert_eq!(eval_source("(/ 1 3)", &mut env).unwrap().display_string(), "1/3");
    assert_eq!(eval_source("(/ 20 5)", &mut env).unwrap().display_string(), "20/5");
}

#[test]
fn print_records_lines_and_returns_its_argument() {
    let mut env = Env::default();
    assert_eq!(eval_source("(print (+ 1 2))", &mut env).unwrap(), Value::Number(n(3)));
    assert_eq!(eval_source("(|> :hi (print))", &mut env).unwrap(), Value::Atom("hi".into()));
    assert_eq!(env.take_printed(), vec!["3".to_string(), ":hi".to_string()]);
    assert!(env.take_printed().is_empty());
}

#[test]
fn arithmetic_forms() {
    let mut env = Env::default();
    assert_eq!(eval_source("(- 5)", &mut env).unwrap(), Value::Number(n(-5)));
    assert_eq!(eval_source("(/ 4)", &mut env).unwrap().display_string(), "1/4");
    assert_eq!(eval_source("(* 2 3 4)", &mut env).unwrap(), Value::Number(n(24)));
    assert_eq!(eval_source("(+ 0.1 0.2)", &mut env).unwrap().display_string(), "30/100");
    assert_eq!(eval_source("(< 1 2)", &mut env).unwrap(), Value::Bool(true));
    assert_eq!(eval_source("(< 2.5 2.25)", &mut env).unwrap(), Value::Bool(false));
    assert_eq!(eval_source("(|> 10 (- 1 2) (/ 7))", &mut env).unwrap(), Value::Number(n(1)));
}

#[test]
fn conditionals() {
    let mut env = Env::default();
    assert_eq!(eval_source("(if nil 1)", &mut env).unwrap(), Value::Nil);
    assert_eq!(eval_source("(if 0 1 2)", &mut env).unwrap(), Value::Number(n(1)));
    assert_eq!(eval_source("(if :x 1 2)", &mut env).unwrap(), Value::Number(n(1)));
}

#[test]
fn closures_capture_the_bindings_at_creation() {
    let mut env = Env::default();
    eval_program("(define k 10) (define add-k (fn (x) (+ x k)))", &mut env).unwrap();
    assert_eq!(eval_source("(add-k 5)", &mut env).unwrap(), Value::Number(n(15)));
    assert_eq!(eval_source("((fn (x) x) 7)", &mut env).unwrap(), Value::Number(n(7)));
}

#[test]
fn evaluation_errors() {
    assert_eq!(eval_err("x"), eval_msg("undefined symbol: x"));
    assert_eq!(eval_err("(define x)"), eval_msg("define expects exactly 2 arguments"));
    assert_eq!(eval_err("(define 1 2)"), eval_msg("define first argument must be a symbol"));
    assert_eq!(eval_err("(+)"), eval_msg("+ expects at least one argument"));
    assert_eq!(eval_err("(+ 1 true)"), eval_msg("arithmetic only supports numeric values"));
    assert_eq!(eval_err("(/ 0)"), eval_msg("division by zero"));
    assert_eq!(eval_err("(/ 1 2 0)"), eval_msg("division by zero"));
    assert_eq!(eval_err("(< 1)"), eval_msg("< expects exactly 2 arguments"));
    assert_eq!(eval_err("(< 1 nil)"), eval_msg("arithmetic only supports numeric values"));
    assert_eq!(eval_err("(if true)"), eval_msg("if expects 2 or 3 arguments"));
    assert_eq!(eval_err("(|>)"), eval_msg("|> expects at least 1 argument"));
    assert_eq!(eval_err("(|> 1 2)"), eval_msg("pipeline stage must be a list, e.g. (+ 1)"));
    assert_eq!(eval_err("(|> 1 ())"), eval_msg("pipeline stage cannot be empty"));
    assert_eq!(eval_err("(|> 1 (2))"), eval_msg("pipeline stage must start with a symbol"));
    assert_eq!(eval_err("(|> 1 (foo))"), eval_msg("unknown function in pipeline stage: foo"));
    assert_eq!(eval_err("(|> 1 (print 2))"), eval_msg("print in pipeline does not take explicit arguments"));
    assert_eq!(eval_err("(|> nil (+ 1))"), eval_msg("arithmetic only supports numeric values"));
    assert_eq!(eval_err("(fn (x))"), eval_msg("fn expects exactly 2 arguments"));
    assert_eq!(eval_err("(fn x x)"), eval_msg("fn first argument must be a parameter list"));
    assert_eq!(eval_err("(fn () 1)"), eval_msg("fn parameter list must include at least one symbol"));
    assert_eq!(eval_err("(fn (1) 1)"), eval_msg("fn parameter list must contain only symbols"));
    assert_eq!(eval_err("(print)"), eval_msg("print expects exactly 1 argument"));
    assert_eq!(eval_err("(1 2)"), eval_msg("first item in list must evaluate to a function"));
    assert_eq!(eval_err("((fn (x) x) 1 2)"), eval_msg("function expected 1 arguments, got 2"));
    assert_eq!(
        eval_err("((fn (self a b) (if (< a 1) b (self 1))) 3 4)"),
        eval_msg("function expected 2 arguments, got 1")
    );
    assert_eq!(eval_err("(1"), LispError::Parse("missing closing ')'".into()));
}

#[test]
fn failed_program_keeps_earlier_effects() {
    let mut env = Env::default();
    let err = eval_program("(define a 1) (print a) (undefined) (define b 2)", &mut env).unwrap_err();
    assert_eq!(err, eval_msg("undefined symbol: undefined"));
    assert_eq!(eval_source("a", &mut env).unwrap(), Value::Number(n(1)));
    assert!(eval_source("b", &mut env).is_err());
    assert_eq!(env.take_printed(), vec!["1".to_string()]);
}

#[test]
fn define_then_lookup_gives_the_defined_value() {
    let mut env = Env::default();
    let v = eval_source("(define x (* 6 7))", &mut env).unwrap();
    assert_eq!(eval_source("x", &mut env).unwrap(), v);
}

#[test]
fn redefinition_is_rejected_and_keeps_the_binding() {
    let mut env = Env::default();
    eval_source("(define x 1)", &mut env).unwrap();
    assert_eq!(
        eval_source("(define x (define y 2))", &mut env),
        Err(eval_msg("cannot redefine immutable binding: x"))
    );
    assert_eq!(eval_source("x", &mut env).unwrap(), Value::Number(n(1)));
    assert_eq!(eval_source("y", &mut env).unwrap(), Value::Number(n(2)));
}

#[test]
fn pipeline_equals_prefix_call() {
    let mut env = Env::default();
    for (pipe, call) in [
        ("(|> 7 (- 2 1))", "(- 7 2 1)"),
        ("(|> 7 (/ 2))", "(/ 7 2)"),
        ("(|> 7 (+))", "(+ 7)"),
    ] {
        assert_eq!(eval_source(pipe, &mut env).unwrap(), eval_source(call, &mut env).unwrap());
    }
}

#[test]
fn env_define_and_get() {
    let mut env = Env::default();
    assert!(env.get("k").is_none());
    env.define("k".to_string(), Value::Bool(true)).unwrap();
    assert_eq!(env.get("k"), Some(&Value::Bool(true)));
    assert_eq!(
        env.define("k".to_string(), Value::Nil),
        Err(eval_msg("cannot redefine immutable binding: k"))
    );
    assert_eq!(env.get("k"), Some(&Value::Bool(true)));
}

#[test]
fn eval_of_parsed_expression() {
    let mut env = Env::default();
    let expr = parse("(+ 1 2)").unwrap();
    assert_eq!(eval(&expr, &mut env).unwrap(), Value::Number(n(3)));
}

#[test]
fn accumulator_rewrite_keeps_the_result() {
    // The one-parameter forms are rewritten into accumulator form; the two-parameter
    // forms compute the same recursion without the rewrite.
    let cases = [
        (
            "((fn (self n) (if (< n 1) 0 (+ (* 2 n) (self (- n 1))))) 10)",
            "((fn (self n k) (if (< n 1) 0 (+ (* 2 n) (self (- n 1) k)))) 10 0)",
        ),
        (
            "((fn (self n) (if (< n 1) 5 (+ (self (- n 1)) n))) 10)",
            "((fn (self n k) (if (< n 1) 5 (+ (self (- n 1) k) n))) 10 0)",
        ),
        (
            "((fn (self n) (if (< n 2) 1 (* n (self (- n 1))))) 12)",
            "((fn (self n k) (if (< n 2) 1 (* n (self (- n 1) k)))) 12 0)",
        ),
        (
            "((fn (self n) (if (< n 1) 3 (* (self (- n 1)) 0.5))) 4)",
            "((fn (self n k) (if (< n 1) 3 (* (self (- n 1) k) 0.5))) 4 0)",
        ),
    ];
    for (rewritten, direct) in cases {
        let mut env = Env::default();
        let a = eval_source(rewritten, &mut env).unwrap();
        let b = eval_source(direct, &mut env).unwrap();
        assert_eq!(a, b, "{rewritten}");
    }
    let mut env = Env::default();
    assert_eq!(
        eval_source("((fn (self n) (if (< n 1) 0 (+ (* 2 n) (self (- n 1))))) 10)", &mut env)
            .unwrap(),
        Value::Number(n(110))
    );
}

#[test]
fn tail_calls_behave_as_ordinary_calls() {
    // The same recursion with the self-call in tail position (run as a loop) and
    // wrapped in an addition (an ordinary call).
    let mut env = Env::default();
    let looped = "((fn (self n acc) (if (< n 1) acc (self (- n 1) (+ acc n)))) 100 0)";
    let nested = "((fn (self n acc) (if (< n 1) acc (+ 0 (self (- n 1) (+ acc n))))) 100 0)";
    assert_eq!(eval_source(looped, &mut env).unwrap(), Value::Number(n(5050)));
    assert_eq!(eval_source(nested, &mut env).unwrap(), Value::Number(n(5050)));
    let wrong_arity = "((fn (self a b) (if (< a 1) b (self 1))) 3 4)";
    let wrong_arity_nested = "((fn (self a b) (if (< a 1) b (+ 0 (self 1)))) 3 4)";
    assert_eq!(eval_err(wrong_arity), eval_err(wrong_arity_nested));
}

#[test]
fn single_expression_program_runs_as_the_expression() {
    for src in ["(+ 1 2)", "(define x 5)", "(print :hi)", "(undefined-name)", "((fn (x) x) 3)"] {
        let mut env_a = Env::default();
        let mut env_b = Env::default();
        assert_eq!(eval_source(src, &mut env_a), eval_program(src, &mut env_b), "{src}");
        assert_eq!(env_a.take_printed(), env_b.take_printed());
        assert_eq!(env_a.get("x"), env_b.get("x"));
    }
}

#[test]
fn closures_over_equal_bindings_are_equal() {
    let mut first = Env::default();
    let mut second = Env::default();
    eval_program("(define a 1) (define b 2)", &mut first).unwrap();
    eval_program("(define b 2) (define a 1)", &mut second).unwrap();
    let f = eval_source("(fn (x) (+ x a b))", &mut first).unwrap();
    let g = eval_source("(fn (x) (+ x a b))", &mut second).unwrap();
    assert_eq!(f, g);
    // A parameter that hides an outer binding is captured once, with the inner value.
    let mut third = Env::default();
    eval_program("(define a 5) (define b 2)", &mut third).unwrap();
    let h = eval_source("((fn (a) (fn (x) (+ x a b))) 1)", &mut third).unwrap();
    assert_eq!(f, h);
    assert_eq!(f.clone(), f);
}

#[test]
fn pipeline_forms() {
    let mut env = Env::default();
    let regrouped = eval_source("(|> (|> 10 (- 3)) (/ 7))", &mut env).unwrap();
    assert_eq!(eval_source("(|> 10 (- 3) (/ 7))", &mut env).unwrap(), regrouped);
    assert_eq!(regrouped, Value::Number(n(1)));
    assert_eq!(eval_source("(|> 10 (- 3))", &mut env).unwrap(), Value::Number(n(7)));
    assert_eq!(eval_source("(|> 2 (/))", &mut env).unwrap().display_string(), "1/2");
    assert_eq!(eval_source("(|> 5 (print))", &mut env).unwrap(), Value::Number(n(5)));
    assert_eq!(env.take_printed(), vec!["5".to_string()]);
    assert_eq!(
        eval_source("(|> 5 (print 1))", &mut env).unwrap_err(),
        eval_msg("print in pipeline does not take explicit arguments")
    );
    assert!(env.take_printed().is_empty());
    assert_eq!(eval_err("(|>)"), eval_msg("|> expects at least 1 argument"));
}

#[test]
fn arithmetic_by_operator() {
    let mut env = Env::default();
    assert_eq!(eval_source("(- 3)", &mut env).unwrap(), Value::Number(n(-3)));
    assert_eq!(eval_source("(/ 2)", &mut env).unwrap().display_string(), "1/2");
    assert_eq!(eval_source("(* 2 3 4)", &mut env).unwrap(), Value::Number(n(24)));
    assert_eq!(eval_err("(/ 1 2 0)"), eval_msg("division by zero"));
    assert_eq!(eval_err("(/ 0)"), eval_msg("division by zero"));
}

#[test]
fn fn_captures_the_bindings_of_the_moment() {
    let mut env = Env::default();
    assert_eq!(
        eval_program("(define f (fn (x) (+ x y))) (define y 1) (f 1)", &mut env).unwrap_err(),
        eval_msg("undefined symbol: y")
    );
    let mut env = Env::default();
    assert_eq!(
        eval_program("(define g (fn (x) (g x))) (g 1)", &mut env).unwrap_err(),
        eval_msg("undefined symbol: g")
    );
}

#[test]
fn bodies_outside_the_accumulator_shape_are_kept() {
    let mut env = Env::default();
    let src = "((fn (self n) (if (< n 1) 0 (- 1 (self (- n 1))))) 3)";
    assert_eq!(eval_source(src, &mut env).unwrap(), Value::Number(n(1)));
}

#[test]
fn accumulator_rewrite_keeps_the_result_with_calls_and_pipelines() {
    let mut env = Env::default();
    eval_program("(define sq (fn (x) (* x x))) (define half (fn (x) (/ x 2)))", &mut env)
        .unwrap();
    let cases = [
        (
            "((fn (self n) (if (< n 1) 0 (+ (sq n) (self (- n 1))))) 10)",
            "((fn (self n k) (if (< n 1) 0 (+ (sq n) (self (- n 1) k)))) 10 0)",
        ),
        (
            "((fn (self n) (if (< (sq n) 1) (half 3) (* (self (- n 1)) (|> n (+ 1) (/ 2))))) 5)",
            "((fn (self n k) (if (< (sq n) 1) (half 3) (* (self (- n 1) k) (|> n (+ 1) (/ 2))))) 5 0)",
        ),
    ];
    for (rewritten, direct) in cases {
        let a = eval_source(rewritten, &mut env).unwrap();
        let b = eval_source(direct, &mut env).unwrap();
        assert_eq!(a, b, "{rewritten}");
    }
    assert_eq!(
        eval_source("((fn (self n) (if (< n 1) 0 (+ (sq n) (self (- n 1))))) 10)", &mut env)
            .unwrap(),
        Value::Number(n(385))
    );
}
