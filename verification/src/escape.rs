//! A tail result never escapes: a self-call in tail position arises only in the
//! tail position of a function body, where the call loop takes it up, so
//! evaluation never fails with "tail call escaped function context".
use vstd::prelude::*;
use crate::syntax::{SExpr, SError};
use crate::eval::{SValue, SLambda};
use crate::semantics::{
    Bindings, Step, Called, SControl, ev, ev_value, ev_args, ev_numbers, ev_arith, ev_less,
    pipe_stage, pipe_stages, ev_pipe, ev_call, ev_list, apply, apply_loop, make_fn, run, run_all,
    escaped_message, is_arith_op,
};

verus! {

/// The step did not fail with the escaped-tail-call error.
pub open spec fn not_escaped<T>(s: Step<T>) -> bool {
    s.res != Err::<T, SError>(SError::Eval(escaped_message()))
}

/// The step is a tail result.
pub open spec fn is_tail_result(s: Step<SControl>) -> bool {
    s.res is Ok && s.res->Ok_0 is Tail
}

/// Every error message but the escaped-tail-call one starts with another character.
proof fn lemma_messages()
    ensures
        escaped_message().len() > 0,
        escaped_message()[0] == 't',
        "arithmetic only supports numeric values"@.len() > 0
            && "arithmetic only supports numeric values"@[0] != 't',
        "cannot redefine immutable binding: "@.len() > 0
            && "cannot redefine immutable binding: "@[0] != 't',
        "define expects exactly 2 arguments"@.len() > 0
            && "define expects exactly 2 arguments"@[0] != 't',
        "define first argument must be a symbol"@.len() > 0
            && "define first argument must be a symbol"@[0] != 't',
        "division by zero"@.len() > 0 && "division by zero"@[0] != 't',
        "evaluation depth limit exceeded"@.len() > 0
            && "evaluation depth limit exceeded"@[0] != 't',
        "first item in list must evaluate to a function"@.len() > 0
            && "first item in list must evaluate to a function"@[0] != 't',
        "fn expects exactly 2 arguments"@.len() > 0 && "fn expects exactly 2 arguments"@[0] != 't',
        "fn first argument must be a parameter list"@.len() > 0
            && "fn first argument must be a parameter list"@[0] != 't',
        "fn parameter list must contain only symbols"@.len() > 0
            && "fn parameter list must contain only symbols"@[0] != 't',
        "fn parameter list must include at least one symbol"@.len() > 0
            && "fn parameter list must include at least one symbol"@[0] != 't',
        "function expected "@.len() > 0 && "function expected "@[0] != 't',
        "if expects 2 or 3 arguments"@.len() > 0 && "if expects 2 or 3 arguments"@[0] != 't',
        "pipeline stage cannot be empty"@.len() > 0 && "pipeline stage cannot be empty"@[0] != 't',
        "pipeline stage must be a list, e.g. (+ 1)"@.len() > 0
            && "pipeline stage must be a list, e.g. (+ 1)"@[0] != 't',
        "pipeline stage must start with a symbol"@.len() > 0
            && "pipeline stage must start with a symbol"@[0] != 't',
        "print expects exactly 1 argument"@.len() > 0
            && "print expects exactly 1 argument"@[0] != 't',
        "print in pipeline does not take explicit arguments"@.len() > 0
            && "print in pipeline does not take explicit arguments"@[0] != 't',
        "undefined symbol: "@.len() > 0 && "undefined symbol: "@[0] != 't',
        "unknown function in pipeline stage: "@.len() > 0
            && "unknown function in pipeline stage: "@[0] != 't',
        "|> expects at least 1 argument"@.len() > 0 && "|> expects at least 1 argument"@[0] != 't',
        "< expects exactly 2 arguments"@.len() > 0 && "< expects exactly 2 arguments"@[0] != 't',
        "+"@.len() > 0 && "+"@[0] != 't',
        "-"@.len() > 0 && "-"@[0] != 't',
        "*"@.len() > 0 && "*"@[0] != 't',
        "/"@.len() > 0 && "/"@[0] != 't',
        forall|op: Seq<char>| is_arith_op(op) ==> op.len() > 0 && op[0] != 't',
{
    reveal_strlit("tail call escaped function context");
    assert("tail call escaped function context"@[0] == 't');
    reveal_strlit("arithmetic only supports numeric values");
    assert("arithmetic only supports numeric values"@[0] == 'a');
    reveal_strlit("cannot redefine immutable binding: ");
    assert("cannot redefine immutable binding: "@[0] == 'c');
    reveal_strlit("define expects exactly 2 arguments");
    assert("define expects exactly 2 arguments"@[0] == 'd');
    reveal_strlit("define first argument must be a symbol");
    assert("define first argument must be a symbol"@[0] == 'd');
    reveal_strlit("division by zero");
    assert("division by zero"@[0] == 'd');
    reveal_strlit("evaluation depth limit exceeded");
    assert("evaluation depth limit exceeded"@[0] == 'e');
    reveal_strlit("first item in list must evaluate to a function");
    assert("first item in list must evaluate to a function"@[0] == 'f');
    reveal_strlit("fn expects exactly 2 arguments");
    assert("fn expects exactly 2 arguments"@[0] == 'f');
    reveal_strlit("fn first argument must be a parameter list");
    assert("fn first argument must be a parameter list"@[0] == 'f');
    reveal_strlit("fn parameter list must contain only symbols");
    assert("fn parameter list must contain only symbols"@[0] == 'f');
    reveal_strlit("fn parameter list must include at least one symbol");
    assert("fn parameter list must include at least one symbol"@[0] == 'f');
    reveal_strlit("function expected ");
    assert("function expected "@[0] == 'f');
    reveal_strlit("if expects 2 or 3 arguments");
    assert("if expects 2 or 3 arguments"@[0] == 'i');
    reveal_strlit("pipeline stage cannot be empty");
    assert("pipeline stage cannot be empty"@[0] == 'p');
    reveal_strlit("pipeline stage must be a list, e.g. (+ 1)");
    assert("pipeline stage must be a list, e.g. (+ 1)"@[0] == 'p');
    reveal_strlit("pipeline stage must start with a symbol");
    assert("pipeline stage must start with a symbol"@[0] == 'p');
    reveal_strlit("print expects exactly 1 argument");
    assert("print expects exactly 1 argument"@[0] == 'p');
    reveal_strlit("print in pipeline does not take explicit arguments");
    assert("print in pipeline does not take explicit arguments"@[0] == 'p');
    reveal_strlit("undefined symbol: ");
    assert("undefined symbol: "@[0] == 'u');
    reveal_strlit("unknown function in pipeline stage: ");
    assert("unknown function in pipeline stage: "@[0] == 'u');
    reveal_strlit("|> expects at least 1 argument");
    assert("|> expects at least 1 argument"@[0] == '|');
    reveal_strlit("< expects exactly 2 arguments");
    assert("< expects exactly 2 arguments"@[0] == '<');
    reveal_strlit("+");
    assert("+"@[0] == '+');
    reveal_strlit("-");
    assert("-"@[0] == '-');
    reveal_strlit("*");
    assert("*"@[0] == '*');
    reveal_strlit("/");
    assert("/"@[0] == '/');
}

proof fn lemma_ev_escape(
    e: SExpr,
    env: Bindings,
    out: Seq<Seq<char>>,
    sn: Option<Seq<char>>,
    tail: bool,
    f: nat,
)
    ensures
        not_escaped(ev(e, env, out, sn, tail, f)),
        (!tail || sn is None) ==> !is_tail_result(ev(e, env, out, sn, tail, f)),
    decreases f, 0nat, 0nat,
{
    lemma_messages();
    if f > 0 {
        match e {
            SExpr::List(items) => {
                lemma_list_escape(items, env, out, sn, tail, (f - 1) as nat);
            },
            _ => {},
        }
    }
}

proof fn lemma_value_escape(
    e: SExpr,
    env: Bindings,
    out: Seq<Seq<char>>,
    sn: Option<Seq<char>>,
    f: nat,
)
    ensures
        not_escaped(ev_value(e, env, out, sn, f)),
    decreases f, 1nat, 0nat,
{
    lemma_messages();
    lemma_ev_escape(e, env, out, sn, false, f);
}

proof fn lemma_args_escape(
    exprs: Seq<SExpr>,
    env: Bindings,
    out: Seq<Seq<char>>,
    sn: Option<Seq<char>>,
    f: nat,
)
    ensures
        not_escaped(ev_args(exprs, env, out, sn, f)),
    decreases f, 2nat, exprs.len(),
{
    lemma_messages();
    if exprs.len() > 0 {
        let s = ev_value(exprs[0], env, out, sn, f);
        lemma_value_escape(exprs[0], env, out, sn, f);
        lemma_args_escape(exprs.drop_first(), s.env, s.out, sn, f);
    }
}

proof fn lemma_numbers_escape(
    exprs: Seq<SExpr>,
    env: Bindings,
    out: Seq<Seq<char>>,
    sn: Option<Seq<char>>,
    f: nat,
)
    ensures
        not_escaped(ev_numbers(exprs, env, out, sn, f)),
    decreases f, 2nat, exprs.len(),
{
    lemma_messages();
    if exprs.len() > 0 {
        let s = ev_value(exprs[0], env, out, sn, f);
        lemma_value_escape(exprs[0], env, out, sn, f);
        lemma_numbers_escape(exprs.drop_first(), s.env, s.out, sn, f);
    }
}

proof fn lemma_arith_escape(
    op: Seq<char>,
    args: Seq<SExpr>,
    env: Bindings,
    out: Seq<Seq<char>>,
    sn: Option<Seq<char>>,
    f: nat,
)
    requires
        is_arith_op(op),
    ensures
        not_escaped(ev_arith(op, args, env, out, sn, f)),
    decreases f, 3nat, 0nat,
{
    lemma_messages();
    lemma_numbers_escape(args, env, out, sn, f);
}

proof fn lemma_less_escape(
    args: Seq<SExpr>,
    env: Bindings,
    out: Seq<Seq<char>>,
    sn: Option<Seq<char>>,
    f: nat,
)
    ensures
        not_escaped(ev_less(args, env, out, sn, f)),
    decreases f, 3nat, 0nat,
{
    lemma_messages();
    if args.len() == 2 {
        let l = ev_value(args[0], env, out, sn, f);
        lemma_value_escape(args[0], env, out, sn, f);
        lemma_value_escape(args[1], l.env, l.out, sn, f);
    }
}

proof fn lemma_stage_escape(
    stage: SExpr,
    input: SValue,
    env: Bindings,
    out: Seq<Seq<char>>,
    sn: Option<Seq<char>>,
    f: nat,
)
    ensures
        not_escaped(pipe_stage(stage, input, env, out, sn, f)),
    decreases f, 3nat, 0nat,
{
    lemma_messages();
    match stage {
        SExpr::List(items) => {
            if items.len() > 0 {
                lemma_numbers_escape(items.drop_first(), env, out, sn, f);
            }
        },
        _ => {},
    }
}

proof fn lemma_stages_escape(
    stages: Seq<SExpr>,
    cur: SValue,
    env: Bindings,
    out: Seq<Seq<char>>,
    sn: Option<Seq<char>>,
    f: nat,
)
    ensures
        not_escaped(pipe_stages(stages, cur, env, out, sn, f)),
    decreases f, 4nat, stages.len(),
{
    lemma_messages();
    if stages.len() > 0 {
        let s = pipe_stage(stages[0], cur, env, out, sn, f);
        lemma_stage_escape(stages[0], cur, env, out, sn, f);
        if s.res is Ok {
            lemma_stages_escape(stages.drop_first(), s.res->Ok_0, s.env, s.out, sn, f);
        }
    }
}

proof fn lemma_pipe_escape(
    stages: Seq<SExpr>,
    env: Bindings,
    out: Seq<Seq<char>>,
    sn: Option<Seq<char>>,
    f: nat,
)
    ensures
        not_escaped(ev_pipe(stages, env, out, sn, f)),
    decreases f, 5nat, 0nat,
{
    lemma_messages();
    if stages.len() > 0 {
        let s = ev_value(stages[0], env, out, sn, f);
        lemma_value_escape(stages[0], env, out, sn, f);
        if s.res is Ok {
            lemma_stages_escape(stages.drop_first(), s.res->Ok_0, s.env, s.out, sn, f);
        }
    }
}

proof fn lemma_loop_escape(
    l: SLambda,
    callee: SValue,
    args: Seq<SValue>,
    out: Seq<Seq<char>>,
    f: nat,
)
    ensures
        apply_loop(l, callee, args, out, f).res != Err::<SValue, SError>(SError::Eval(escaped_message())),
    decreases f, 1nat, 0nat,
{
    lemma_messages();
    if f > 0 {
        let env = crate::semantics::call_bindings(l, callee, args);
        let s = ev(l.body, env, out, l.self_name, true, (f - 1) as nat);
        lemma_ev_escape(l.body, env, out, l.self_name, true, (f - 1) as nat);
        match s.res {
            Ok(SControl::Tail(next)) => {
                lemma_loop_escape(l, callee, next, s.out, (f - 1) as nat);
            },
            _ => {},
        }
    }
}

proof fn lemma_apply_escape(callee: SValue, args: Seq<SValue>, out: Seq<Seq<char>>, f: nat)
    ensures
        apply(callee, args, out, f).res != Err::<SValue, SError>(SError::Eval(escaped_message())),
    decreases f, 2nat, 0nat,
{
    lemma_messages();
    match callee {
        SValue::Lambda(l) => {
            let full = match l.auto_acc_init {
                Some(x) => args.push(SValue::Num(x)),
                None => args,
            };
            lemma_loop_escape(l, callee, full, out, f);
        },
        _ => {},
    }
}

proof fn lemma_call_escape(
    items: Seq<SExpr>,
    env: Bindings,
    out: Seq<Seq<char>>,
    sn: Option<Seq<char>>,
    f: nat,
)
    ensures
        not_escaped(ev_call(items, env, out, sn, f)),
    decreases f, 3nat, 0nat,
{
    lemma_messages();
    if items.len() > 0 {
        let c = ev_value(items[0], env, out, sn, f);
        lemma_value_escape(items[0], env, out, sn, f);
        if c.res is Ok {
            let a = ev_args(items.drop_first(), c.env, c.out, sn, f);
            lemma_args_escape(items.drop_first(), c.env, c.out, sn, f);
            if a.res is Ok {
                lemma_apply_escape(c.res->Ok_0, a.res->Ok_0, a.out, f);
            }
        }
    }
}

proof fn lemma_list_escape(
    items: Seq<SExpr>,
    env: Bindings,
    out: Seq<Seq<char>>,
    sn: Option<Seq<char>>,
    tail: bool,
    f: nat,
)
    ensures
        not_escaped(ev_list(items, env, out, sn, tail, f)),
        (!tail || sn is None) ==> !is_tail_result(ev_list(items, env, out, sn, tail, f)),
    decreases f, 6nat, 0nat,
{
    lemma_messages();
    if items.len() > 0 {
        let rest = items.drop_first();
        lemma_args_escape(rest, env, out, sn, f);
        if items[0] is Sym && is_arith_op(items[0]->Sym_0) {
            lemma_arith_escape(items[0]->Sym_0, rest, env, out, sn, f);
        }
        lemma_less_escape(rest, env, out, sn, f);
        lemma_pipe_escape(rest, env, out, sn, f);
        lemma_call_escape(items, env, out, sn, f);
        lemma_make_fn_escape(rest, env);
        if rest.len() >= 1 {
            lemma_value_escape(rest[0], env, out, sn, f);
            let c = ev_value(rest[0], env, out, sn, f);
            if rest.len() >= 2 {
                lemma_ev_escape(rest[1], c.env, c.out, sn, tail, f);
                lemma_value_escape(rest[1], env, out, sn, f);
            }
            if rest.len() >= 3 {
                lemma_ev_escape(rest[2], c.env, c.out, sn, tail, f);
            }
        }
    }
}

/// `fn` never fails with the escaped-tail-call error.
proof fn lemma_make_fn_escape(args: Seq<SExpr>, env: Bindings)
    ensures
        make_fn(args, env) != Err::<SValue, SError>(SError::Eval(escaped_message())),
{
    lemma_messages();
}

/// A top-level evaluation never fails with "tail call escaped function context":
/// a self-call in tail position arises only in a function body's tail position, and
/// the call loop takes it up.
pub proof fn law_no_escaped_tail_call(e: SExpr, env: Bindings, out: Seq<Seq<char>>)
    ensures
        run(e, env, out).res != Err::<SValue, SError>(SError::Eval(escaped_message())),
{
    lemma_messages();
    lemma_ev_escape(e, env, out, None, true, crate::semantics::EVAL_FUEL as nat);
}

/// Nor does a program.
pub proof fn law_program_no_escaped_tail_call(
    exprs: Seq<SExpr>,
    env: Bindings,
    out: Seq<Seq<char>>,
    last: SValue,
)
    ensures
        run_all(exprs, env, out, last).res != Err::<SValue, SError>(
            SError::Eval(escaped_message()),
        ),
    decreases exprs.len(),
{
    if exprs.len() > 0 {
        law_no_escaped_tail_call(exprs[0], env, out);
        let s = run(exprs[0], env, out);
        if s.res is Ok {
            law_program_no_escaped_tail_call(exprs.drop_first(), s.env, s.out, s.res->Ok_0);
        }
    }
}

} // verus!
