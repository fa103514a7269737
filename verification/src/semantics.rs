//! The meaning of expressions: a definitional evaluator over the models.
//!
//! Every evaluation function takes the bindings in scope and the lines printed so
//! far, and gives back its result together with the bindings and printed lines
//! afterwards. `fuel` bounds the depth of nested evaluation and the number of
//! self-calls a function may make in tail position.
use vstd::prelude::*;
use crate::number::{Frac, frac_add, frac_mul, frac_neg, frac_sub, frac_from_parts, frac_text};
use crate::syntax::{SExpr, SError};
use crate::eval::{SValue, SLambda};
use crate::text::{dec_int, dec_nat};

verus! {

/// The bindings in scope.
pub type Bindings = Map<Seq<char>, SValue>;

/// What an expression in tail position of a self-recursive function yields: a value,
/// or the arguments of a call of the function to itself.
pub enum SControl {
    Val(SValue),
    Tail(Seq<SValue>),
}

/// A result with the bindings and printed lines after computing it.
pub struct Step<T> {
    pub res: Result<T, SError>,
    pub env: Bindings,
    pub out: Seq<Seq<char>>,
}

/// The result of calling a function, with the printed lines afterwards.
pub struct Called {
    pub res: Result<SValue, SError>,
    pub out: Seq<Seq<char>>,
}

/// The depth bound used by `eval`.
pub const EVAL_FUEL: u64 = 18_446_744_073_709_551_615;

pub open spec fn done<T>(v: T, env: Bindings, out: Seq<Seq<char>>) -> Step<T> {
    Step { res: Ok(v), env, out }
}

pub open spec fn fail<T>(msg: Seq<char>, env: Bindings, out: Seq<Seq<char>>) -> Step<T> {
    Step { res: Err(SError::Eval(msg)), env, out }
}

/// Passes an error on, keeping the state where it arose.
pub open spec fn relay<T, U>(s: Step<T>) -> Step<U> {
    Step { res: Err(s.res->Err_0), env: s.env, out: s.out }
}

pub open spec fn depth_message() -> Seq<char> {
    "evaluation depth limit exceeded"@
}

pub open spec fn escaped_message() -> Seq<char> {
    "tail call escaped function context"@
}

pub open spec fn numeric_message() -> Seq<char> {
    "arithmetic only supports numeric values"@
}

pub open spec fn division_message() -> Seq<char> {
    "division by zero"@
}

/// The error for calling a function with the wrong number of arguments.
pub open spec fn arity_message(expected: nat, got: nat) -> Seq<char> {
    "function expected "@ + dec_nat(expected) + " arguments, got "@ + dec_nat(got)
}

/// A value result as a control result.
pub open spec fn as_control(r: Result<SValue, SError>) -> Result<SControl, SError> {
    match r {
        Ok(v) => Ok(SControl::Val(v)),
        Err(e) => Err(e),
    }
}

/// Everything is true except `false` and `nil`.
pub open spec fn truthy(v: SValue) -> bool {
    !(v == SValue::Bool(false) || v == SValue::Nil)
}

/// How `print` renders a value.
pub open spec fn value_text(v: SValue) -> Seq<char> {
    match v {
        SValue::Num(f) => frac_text(f),
        SValue::Bool(b) => if b {
            "true"@
        } else {
            "false"@
        },
        SValue::Atom(a) => seq![':'] + a,
        SValue::Lambda(_) => "<fn>"@,
        SValue::Nil => "nil"@,
    }
}

/// `s` without its leading colons.
pub open spec fn trim_colons(s: Seq<char>) -> Seq<char>
    decreases s.len(),
{
    if s.len() > 0 && s[0] == ':' {
        trim_colons(s.drop_first())
    } else {
        s
    }
}

/// `0 + s[0] + s[1] + ...`, left to right.
pub open spec fn fold_add(s: Seq<Frac>) -> Frac
    decreases s.len(),
{
    if s.len() == 0 {
        Frac { num: 0, den: 1 }
    } else {
        frac_add(fold_add(s.drop_last()), s.last())
    }
}

/// `1 * s[0] * s[1] * ...`, left to right.
pub open spec fn fold_mul(s: Seq<Frac>) -> Frac
    decreases s.len(),
{
    if s.len() == 0 {
        Frac { num: 1, den: 1 }
    } else {
        frac_mul(fold_mul(s.drop_last()), s.last())
    }
}

/// The reciprocal of a non-zero fraction.
pub open spec fn frac_recip(f: Frac) -> Frac {
    frac_from_parts(f.den, f.num).unwrap()
}

pub open spec fn is_arith_op(op: Seq<char>) -> bool {
    op == "+"@ || op == "-"@ || op == "*"@ || op == "/"@
}

/// An arithmetic operator applied to at least one number: `+` and `*` fold,
/// `-` negates one argument or subtracts the sum of the rest from the first,
/// `/` inverts one argument or divides the first by the product of the rest.
pub open spec fn combine(op: Seq<char>, ns: Seq<Frac>) -> Result<Frac, Seq<char>> {
    if op == "+"@ {
        Ok(fold_add(ns))
    } else if op == "*"@ {
        Ok(fold_mul(ns))
    } else if op == "-"@ {
        if ns.len() == 1 {
            Ok(frac_neg(ns[0]))
        } else {
            Ok(frac_sub(ns[0], fold_add(ns.drop_first())))
        }
    } else {
        if ns.len() == 1 {
            if ns[0].num == 0 {
                Err(division_message())
            } else {
                Ok(frac_recip(ns[0]))
            }
        } else {
            let d = fold_mul(ns.drop_first());
            if d.num == 0 {
                Err(division_message())
            } else {
                Ok(frac_mul(ns[0], frac_recip(d)))
            }
        }
    }
}

/// `env` with `params[i]` bound to `args[i]` for `i < k`, in order.
pub open spec fn bind_params(env: Bindings, params: Seq<Seq<char>>, args: Seq<SValue>, k: nat) -> Bindings
    decreases k,
{
    if k == 0 {
        env
    } else {
        bind_params(env, params, args, (k - 1) as nat).insert(params[k - 1], args[k - 1])
    }
}

/// The bindings a call runs in: the captured ones, the function under its own
/// name, then the parameters.
pub open spec fn call_bindings(l: SLambda, callee: SValue, args: Seq<SValue>) -> Bindings {
    let base = match l.self_name {
        Some(s) => l.captured.insert(s, callee),
        None => l.captured,
    };
    let k = if l.params.len() <= args.len() {
        l.params.len()
    } else {
        args.len()
    };
    bind_params(base, l.params, args, k)
}

pub open spec fn is_self_call(items: Seq<SExpr>, name: Seq<char>) -> bool {
    items.len() == 2 && items[0] == SExpr::Sym(name)
}

/// Whether `e` is the list `(name x)`.
pub open spec fn self_call_arg(e: SExpr, name: Seq<char>) -> Option<SExpr> {
    match e {
        SExpr::List(items) => if is_self_call(items, name) {
            Some(items[1])
        } else {
            None
        },
        _ => None,
    }
}

/// The accumulator rewrite of a self-recursive body with the single parameter
/// `param`, of the shape `(if c base (op step (name next)))` or
/// `(if c base (op (name next) step))` with `op` one of `+` and `*`: the body
/// `(if c (op base acc) (name next (op acc step)))` over the parameters
/// `(param acc)`, and the identity of `op` as the accumulator's start.
pub open spec fn accumulate_spec(param: Seq<char>, body: SExpr, name: Seq<char>) -> Option<
    (Seq<Seq<char>>, SExpr, Frac),
> {
    match body {
        SExpr::List(items) => if items.len() != 4 || items[0] != SExpr::Sym("if"@) {
            None
        } else {
            match items[3] {
                SExpr::List(rec) => if rec.len() != 3 {
                    None
                } else {
                    match rec[0] {
                        SExpr::Sym(op) => if op != "+"@ && op != "*"@ {
                            None
                        } else {
                            let init = if op == "+"@ {
                                Frac { num: 0, den: 1 }
                            } else {
                                Frac { num: 1, den: 1 }
                            };
                            let split: Option<(SExpr, SExpr)> = match self_call_arg(rec[2], name) {
                                Some(next) => Some((rec[1], next)),
                                None => match self_call_arg(rec[1], name) {
                                    Some(next) => Some((rec[2], next)),
                                    None => None,
                                },
                            };
                            match split {
                                None => None,
                                Some((step, next)) => {
                                    let acc = SExpr::Sym("__fnr_acc"@);
                                    let acc_base = SExpr::List(seq![SExpr::Sym(op), items[2], acc]);
                                    let next_acc = SExpr::List(seq![SExpr::Sym(op), acc, step]);
                                    let recur = SExpr::List(seq![SExpr::Sym(name), next, next_acc]);
                                    Some(
                                        (
                                            seq![param, "__fnr_acc"@],
                                            SExpr::List(
                                                seq![SExpr::Sym("if"@), items[1], acc_base, recur],
                                            ),
                                            init,
                                        ),
                                    )
                                },
                            }
                        },
                        _ => None,
                    }
                },
                _ => None,
            }
        },
        _ => None,
    }
}

/// The body rewrite for self-recursive functions of one public parameter (see
/// `accumulate_spec`); any other function is left as it is.
pub open spec fn auto_tail(params: Seq<Seq<char>>, body: SExpr, sn: Option<Seq<char>>) -> (
    Seq<Seq<char>>,
    SExpr,
    Option<Frac>,
) {
    match sn {
        None => (params, body, None),
        Some(name) => if params.len() != 1 {
            (params, body, None)
        } else {
            match accumulate_spec(params[0], body, name) {
                Some((p, b, f)) => (p, b, Some(f)),
                None => (params, body, None),
            }
        },
    }
}

/// The name of a symbol (empty for anything else).
pub open spec fn sym_name(e: SExpr) -> Seq<char> {
    match e {
        SExpr::Sym(s) => s,
        _ => Seq::empty(),
    }
}

/// `(fn params body)`: a closure over the current bindings. A parameter list that
/// starts with `self` and has more parameters makes the function self-recursive.
pub open spec fn make_fn(args: Seq<SExpr>, env: Bindings) -> Result<SValue, SError> {
    if args.len() != 2 {
        Err(SError::Eval("fn expects exactly 2 arguments"@))
    } else {
        match args[0] {
            SExpr::List(items) => if items.len() == 0 {
                Err(SError::Eval("fn parameter list must include at least one symbol"@))
            } else if exists|i: int| 0 <= i < items.len() && !(#[trigger] items[i] is Sym) {
                Err(SError::Eval("fn parameter list must contain only symbols"@))
            } else {
                let names = items.map_values(|e: SExpr| sym_name(e));
                let recursive = names[0] == "self"@ && names.len() >= 2;
                let sn = if recursive {
                    Some(names[0])
                } else {
                    None
                };
                let params = if recursive {
                    names.drop_first()
                } else {
                    names
                };
                let t = if recursive {
                    auto_tail(params, args[1], sn)
                } else {
                    (params, args[1], None)
                };
                Ok(
                    SValue::Lambda(
                        SLambda {
                            params: t.0,
                            body: t.1,
                            captured: env,
                            self_name: sn,
                            public_arity: params.len(),
                            auto_acc_init: t.2,
                        },
                    ),
                )
            },
            _ => Err(SError::Eval("fn first argument must be a parameter list"@)),
        }
    }
}

/// Evaluates an expression; in tail position of the function named `sn`, a call of
/// that function yields its arguments instead of being made.
pub open spec fn ev(
    e: SExpr,
    env: Bindings,
    out: Seq<Seq<char>>,
    sn: Option<Seq<char>>,
    tail: bool,
    fuel: nat,
) -> Step<SControl>
    decreases fuel, 0nat, 0nat,
{
    if fuel == 0 {
        fail(depth_message(), env, out)
    } else {
        match e {
            SExpr::Num(f) => done(SControl::Val(SValue::Num(f)), env, out),
            SExpr::Sym(name) => if name == "true"@ {
                done(SControl::Val(SValue::Bool(true)), env, out)
            } else if name == "false"@ {
                done(SControl::Val(SValue::Bool(false)), env, out)
            } else if name == "nil"@ {
                done(SControl::Val(SValue::Nil), env, out)
            } else if name.len() > 1 && name[0] == ':' {
                done(SControl::Val(SValue::Atom(trim_colons(name))), env, out)
            } else if env.dom().contains(name) {
                done(SControl::Val(env[name]), env, out)
            } else {
                fail("undefined symbol: "@ + name, env, out)
            },
            SExpr::List(items) => ev_list(items, env, out, sn, tail, (fuel - 1) as nat),
        }
    }
}

/// Evaluates an expression outside tail position.
pub open spec fn ev_value(
    e: SExpr,
    env: Bindings,
    out: Seq<Seq<char>>,
    sn: Option<Seq<char>>,
    fuel: nat,
) -> Step<SValue>
    decreases fuel, 1nat, 0nat,
{
    let s = ev(e, env, out, sn, false, fuel);
    match s.res {
        Ok(SControl::Val(v)) => done(v, s.env, s.out),
        Ok(SControl::Tail(_)) => fail(escaped_message(), s.env, s.out),
        Err(_) => relay(s),
    }
}

/// Evaluates expressions left to right.
pub open spec fn ev_args(
    exprs: Seq<SExpr>,
    env: Bindings,
    out: Seq<Seq<char>>,
    sn: Option<Seq<char>>,
    fuel: nat,
) -> Step<Seq<SValue>>
    decreases fuel, 2nat, exprs.len(),
{
    if exprs.len() == 0 {
        done(Seq::empty(), env, out)
    } else {
        let s = ev_value(exprs[0], env, out, sn, fuel);
        match s.res {
            Err(_) => relay(s),
            Ok(v) => prepend(seq![v], ev_args(exprs.drop_first(), s.env, s.out, sn, fuel)),
        }
    }
}

/// Puts `p` in front of a successful sequence result.
pub open spec fn prepend<A>(p: Seq<A>, s: Step<Seq<A>>) -> Step<Seq<A>> {
    match s.res {
        Ok(vs) => done(p + vs, s.env, s.out),
        Err(_) => s,
    }
}

/// Prepending twice is prepending the concatenation.
pub proof fn lemma_prepend_prepend<A>(p: Seq<A>, q: Seq<A>, s: Step<Seq<A>>)
    ensures
        prepend(p, prepend(q, s)) == prepend(p + q, s),
{
    match s.res {
        Ok(vs) => {
            assert(p + (q + vs) =~= (p + q) + vs);
        },
        Err(_) => {},
    }
}

/// Prepending nothing changes nothing.
pub proof fn lemma_prepend_empty<A>(s: Step<Seq<A>>)
    ensures
        prepend(Seq::empty(), s) == s,
{
    match s.res {
        Ok(vs) => {
            assert(Seq::<A>::empty() + vs =~= vs);
        },
        Err(_) => {},
    }
}

/// Evaluates expressions left to right, each of which must give a number.
pub open spec fn ev_numbers(
    exprs: Seq<SExpr>,
    env: Bindings,
    out: Seq<Seq<char>>,
    sn: Option<Seq<char>>,
    fuel: nat,
) -> Step<Seq<Frac>>
    decreases fuel, 2nat, exprs.len(),
{
    if exprs.len() == 0 {
        done(Seq::empty(), env, out)
    } else {
        let s = ev_value(exprs[0], env, out, sn, fuel);
        match s.res {
            Err(_) => relay(s),
            Ok(SValue::Num(f)) => prepend(
                seq![f],
                ev_numbers(exprs.drop_first(), s.env, s.out, sn, fuel),
            ),
            Ok(_) => fail(numeric_message(), s.env, s.out),
        }
    }
}

/// A successful `ev_numbers` gives one number per expression.
pub proof fn lemma_ev_numbers_len(
    exprs: Seq<SExpr>,
    env: Bindings,
    out: Seq<Seq<char>>,
    sn: Option<Seq<char>>,
    fuel: nat,
)
    ensures
        ev_numbers(exprs, env, out, sn, fuel).res is Ok ==> ev_numbers(
            exprs,
            env,
            out,
            sn,
            fuel,
        ).res->Ok_0.len() == exprs.len(),
    decreases exprs.len(),
{
    if exprs.len() > 0 {
        let s = ev_value(exprs[0], env, out, sn, fuel);
        lemma_ev_numbers_len(exprs.drop_first(), s.env, s.out, sn, fuel);
    }
}

/// `(op args...)` for an arithmetic operator.
pub open spec fn ev_arith(
    op: Seq<char>,
    args: Seq<SExpr>,
    env: Bindings,
    out: Seq<Seq<char>>,
    sn: Option<Seq<char>>,
    fuel: nat,
) -> Step<SValue>
    decreases fuel, 3nat, 0nat,
{
    if args.len() == 0 {
        fail(op + " expects at least one argument"@, env, out)
    } else {
        let s = ev_numbers(args, env, out, sn, fuel);
        match s.res {
            Err(_) => relay(s),
            Ok(ns) => match combine(op, ns) {
                Ok(f) => done(SValue::Num(f), s.env, s.out),
                Err(m) => fail(m, s.env, s.out),
            },
        }
    }
}

/// `(< a b)`.
pub open spec fn ev_less(
    args: Seq<SExpr>,
    env: Bindings,
    out: Seq<Seq<char>>,
    sn: Option<Seq<char>>,
    fuel: nat,
) -> Step<SValue>
    decreases fuel, 3nat, 0nat,
{
    if args.len() != 2 {
        fail("< expects exactly 2 arguments"@, env, out)
    } else {
        let l = ev_value(args[0], env, out, sn, fuel);
        match l.res {
            Err(_) => relay(l),
            Ok(SValue::Num(a)) => {
                let r = ev_value(args[1], l.env, l.out, sn, fuel);
                match r.res {
                    Err(_) => relay(r),
                    Ok(SValue::Num(b)) => done(
                        SValue::Bool(a.num * b.den < b.num * a.den),
                        r.env,
                        r.out,
                    ),
                    Ok(_) => fail(numeric_message(), r.env, r.out),
                }
            },
            Ok(_) => fail(numeric_message(), l.env, l.out),
        }
    }
}

/// One stage `(op args...)` of a pipeline applied to `input`.
pub open spec fn pipe_stage(
    stage: SExpr,
    input: SValue,
    env: Bindings,
    out: Seq<Seq<char>>,
    sn: Option<Seq<char>>,
    fuel: nat,
) -> Step<SValue>
    decreases fuel, 3nat, 0nat,
{
    match stage {
        SExpr::List(items) => if items.len() == 0 {
            fail("pipeline stage cannot be empty"@, env, out)
        } else {
            match items[0] {
                SExpr::Sym(op) => if is_arith_op(op) {
                    match input {
                        SValue::Num(a) => {
                            let s = ev_numbers(items.drop_first(), env, out, sn, fuel);
                            match s.res {
                                Err(_) => relay(s),
                                Ok(ns) => match combine(op, seq![a] + ns) {
                                    Ok(f) => done(SValue::Num(f), s.env, s.out),
                                    Err(m) => fail(m, s.env, s.out),
                                },
                            }
                        },
                        _ => fail(numeric_message(), env, out),
                    }
                } else if op == "print"@ {
                    if items.len() != 1 {
                        fail("print in pipeline does not take explicit arguments"@, env, out)
                    } else {
                        done(input, env, out.push(value_text(input)))
                    }
                } else {
                    fail("unknown function in pipeline stage: "@ + op, env, out)
                },
                _ => fail("pipeline stage must start with a symbol"@, env, out),
            }
        },
        _ => fail("pipeline stage must be a list, e.g. (+ 1)"@, env, out),
    }
}

/// Threads `cur` through the stages left to right.
pub open spec fn pipe_stages(
    stages: Seq<SExpr>,
    cur: SValue,
    env: Bindings,
    out: Seq<Seq<char>>,
    sn: Option<Seq<char>>,
    fuel: nat,
) -> Step<SValue>
    decreases fuel, 4nat, stages.len(),
{
    if stages.len() == 0 {
        done(cur, env, out)
    } else {
        let s = pipe_stage(stages[0], cur, env, out, sn, fuel);
        match s.res {
            Err(_) => relay(s),
            Ok(v) => pipe_stages(stages.drop_first(), v, s.env, s.out, sn, fuel),
        }
    }
}

/// `(|> first stages...)`.
pub open spec fn ev_pipe(
    stages: Seq<SExpr>,
    env: Bindings,
    out: Seq<Seq<char>>,
    sn: Option<Seq<char>>,
    fuel: nat,
) -> Step<SValue>
    decreases fuel, 5nat, 0nat,
{
    if stages.len() == 0 {
        fail("|> expects at least 1 argument"@, env, out)
    } else {
        let s = ev_value(stages[0], env, out, sn, fuel);
        match s.res {
            Err(_) => relay(s),
            Ok(v) => pipe_stages(stages.drop_first(), v, s.env, s.out, sn, fuel),
        }
    }
}

/// Runs a function body until it yields a value; each self-call in tail position
/// restarts the body with the new arguments.
pub open spec fn apply_loop(
    l: SLambda,
    callee: SValue,
    args: Seq<SValue>,
    out: Seq<Seq<char>>,
    fuel: nat,
) -> Called
    decreases fuel, 1nat, 0nat,
{
    if fuel == 0 {
        Called { res: Err(SError::Eval(depth_message())), out }
    } else {
        let s = ev(
            l.body,
            call_bindings(l, callee, args),
            out,
            l.self_name,
            true,
            (fuel - 1) as nat,
        );
        match s.res {
            Err(e) => Called { res: Err(e), out: s.out },
            Ok(SControl::Val(v)) => Called { res: Ok(v), out: s.out },
            Ok(SControl::Tail(next)) => if l.params.len() != next.len() {
                Called {
                    res: Err(SError::Eval(arity_message(l.params.len(), next.len()))),
                    out: s.out,
                }
            } else {
                apply_loop(l, callee, next, s.out, (fuel - 1) as nat)
            },
        }
    }
}

/// Calls a function value with evaluated arguments.
pub open spec fn apply(callee: SValue, args: Seq<SValue>, out: Seq<Seq<char>>, fuel: nat) -> Called
    decreases fuel, 2nat, 0nat,
{
    match callee {
        SValue::Lambda(l) => if l.public_arity != args.len() {
            Called {
                res: Err(SError::Eval(arity_message(l.public_arity, args.len()))),
                out,
            }
        } else {
            let full = match l.auto_acc_init {
                Some(f) => args.push(SValue::Num(f)),
                None => args,
            };
            apply_loop(l, callee, full, out, fuel)
        },
        _ => Called {
            res: Err(SError::Eval("first item in list must evaluate to a function"@)),
            out,
        },
    }
}

/// Evaluates a list form: a special form, a self-call in tail position, or a call.
pub open spec fn ev_list(
    items: Seq<SExpr>,
    env: Bindings,
    out: Seq<Seq<char>>,
    sn: Option<Seq<char>>,
    tail: bool,
    fuel: nat,
) -> Step<SControl>
    decreases fuel, 6nat, 0nat,
{
    if items.len() == 0 {
        done(SControl::Val(SValue::Nil), env, out)
    } else {
        let head = items[0];
        let rest = items.drop_first();
        if tail && sn is Some && head == SExpr::Sym(sn->Some_0) {
            let a = ev_args(rest, env, out, sn, fuel);
            match a.res {
                Err(_) => relay(a),
                Ok(vs) => done(SControl::Tail(vs), a.env, a.out),
            }
        } else if head is Sym && head->Sym_0 == "define"@ {
            if rest.len() != 2 {
                fail("define expects exactly 2 arguments"@, env, out)
            } else {
                match rest[0] {
                    SExpr::Sym(key) => {
                        let s = ev_value(rest[1], env, out, sn, fuel);
                        match s.res {
                            Err(_) => relay(s),
                            Ok(v) => if s.env.dom().contains(key) {
                                fail("cannot redefine immutable binding: "@ + key, s.env, s.out)
                            } else {
                                done(SControl::Val(v), s.env.insert(key, v), s.out)
                            },
                        }
                    },
                    _ => fail("define first argument must be a symbol"@, env, out),
                }
            }
        } else if head is Sym && is_arith_op(head->Sym_0) {
            let s = ev_arith(head->Sym_0, rest, env, out, sn, fuel);
            Step { res: as_control(s.res), env: s.env, out: s.out }
        } else if head is Sym && head->Sym_0 == "<"@ {
            let s = ev_less(rest, env, out, sn, fuel);
            Step { res: as_control(s.res), env: s.env, out: s.out }
        } else if head is Sym && head->Sym_0 == "if"@ {
            if !(2 <= rest.len() <= 3) {
                fail("if expects 2 or 3 arguments"@, env, out)
            } else {
                let c = ev_value(rest[0], env, out, sn, fuel);
                match c.res {
                    Err(_) => relay(c),
                    Ok(cv) => if truthy(cv) {
                        ev(rest[1], c.env, c.out, sn, tail, fuel)
                    } else if rest.len() == 3 {
                        ev(rest[2], c.env, c.out, sn, tail, fuel)
                    } else {
                        done(SControl::Val(SValue::Nil), c.env, c.out)
                    },
                }
            }
        } else if head is Sym && head->Sym_0 == "|>"@ {
            let s = ev_pipe(rest, env, out, sn, fuel);
            Step { res: as_control(s.res), env: s.env, out: s.out }
        } else if head is Sym && head->Sym_0 == "fn"@ {
            Step { res: as_control(make_fn(rest, env)), env, out }
        } else if head is Sym && head->Sym_0 == "print"@ {
            if rest.len() != 1 {
                fail("print expects exactly 1 argument"@, env, out)
            } else {
                let s = ev_value(rest[0], env, out, sn, fuel);
                match s.res {
                    Err(_) => relay(s),
                    Ok(v) => done(SControl::Val(v), s.env, s.out.push(value_text(v))),
                }
            }
        } else {
            let c = ev_call(items, env, out, sn, fuel);
            Step { res: as_control(c.res), env: c.env, out: c.out }
        }
    }
}

/// `(f args...)`: evaluates the head, then the arguments, then calls.
pub open spec fn ev_call(
    items: Seq<SExpr>,
    env: Bindings,
    out: Seq<Seq<char>>,
    sn: Option<Seq<char>>,
    fuel: nat,
) -> Step<SValue>
    decreases fuel, 3nat, 0nat,
{
    if items.len() == 0 {
        done(SValue::Nil, env, out)
    } else {
        let c = ev_value(items[0], env, out, sn, fuel);
        match c.res {
            Err(_) => relay(c),
            Ok(callee) => {
                let a = ev_args(items.drop_first(), c.env, c.out, sn, fuel);
                match a.res {
                    Err(_) => relay(a),
                    Ok(vs) => {
                        let r = apply(callee, vs, a.out, fuel);
                        Step { res: r.res, env: a.env, out: r.out }
                    },
                }
            },
        }
    }
}

/// Evaluates a top-level expression.
pub open spec fn run(e: SExpr, env: Bindings, out: Seq<Seq<char>>) -> Step<SValue> {
    let s = ev(e, env, out, None, true, EVAL_FUEL as nat);
    match s.res {
        Ok(SControl::Val(v)) => done(v, s.env, s.out),
        Ok(SControl::Tail(_)) => fail(escaped_message(), s.env, s.out),
        Err(_) => relay(s),
    }
}

/// Evaluates top-level expressions in order; the result is the last value
/// (`last` when there are none).
pub open spec fn run_all(exprs: Seq<SExpr>, env: Bindings, out: Seq<Seq<char>>, last: SValue) -> Step<
    SValue,
>
    decreases exprs.len(),
{
    if exprs.len() == 0 {
        done(last, env, out)
    } else {
        let s = run(exprs[0], env, out);
        match s.res {
            Err(_) => relay(s),
            Ok(v) => run_all(exprs.drop_first(), s.env, s.out, v),
        }
    }
}

} // verus!
