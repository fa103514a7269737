//! What has been printed before an evaluation never changes its result or the
//! bindings it leaves.
use vstd::prelude::*;
use crate::syntax::{SExpr, SError};
use crate::eval::{SValue, SLambda};
use crate::semantics::{
    Bindings, Step, Called, SControl, ev, ev_value, ev_args, ev_numbers, ev_arith, ev_less,
    pipe_stage, pipe_stages, ev_pipe, ev_call, ev_list, apply, apply_loop,
};

verus! {

/// The lines printed before an evaluation change neither its result nor the bindings
/// it leaves.
pub proof fn law_output_does_not_matter(
    e: SExpr,
    env: Bindings,
    sn: Option<Seq<char>>,
    tail: bool,
    out1: Seq<Seq<char>>,
    out2: Seq<Seq<char>>,
    f: nat,
)
    ensures
        ev(e, env, out1, sn, tail, f).res == ev(e, env, out2, sn, tail, f).res,
        ev(e, env, out1, sn, tail, f).env == ev(e, env, out2, sn, tail, f).env,
    decreases f, 0nat, 0nat,
{
    if f > 0 {
        match e {
            SExpr::List(items) => {
                lemma_list_out(items, env, sn, tail, out1, out2, (f - 1) as nat);
            },
            _ => {},
        }
    }
}

proof fn lemma_value_out(
    e: SExpr,
    env: Bindings,
    sn: Option<Seq<char>>,
    out1: Seq<Seq<char>>,
    out2: Seq<Seq<char>>,
    f: nat,
)
    ensures
        ev_value(e, env, out1, sn, f).res == ev_value(e, env, out2, sn, f).res,
        ev_value(e, env, out1, sn, f).env == ev_value(e, env, out2, sn, f).env,
    decreases f, 1nat, 0nat,
{
    law_output_does_not_matter(e, env, sn, false, out1, out2, f);
}

proof fn lemma_args_out(
    exprs: Seq<SExpr>,
    env: Bindings,
    sn: Option<Seq<char>>,
    out1: Seq<Seq<char>>,
    out2: Seq<Seq<char>>,
    f: nat,
)
    ensures
        ev_args(exprs, env, out1, sn, f).res == ev_args(exprs, env, out2, sn, f).res,
        ev_args(exprs, env, out1, sn, f).env == ev_args(exprs, env, out2, sn, f).env,
    decreases f, 2nat, exprs.len(),
{
    if exprs.len() > 0 {
        let s1 = ev_value(exprs[0], env, out1, sn, f);
        let s2 = ev_value(exprs[0], env, out2, sn, f);
        lemma_value_out(exprs[0], env, sn, out1, out2, f);
        lemma_args_out(exprs.drop_first(), s1.env, sn, s1.out, s2.out, f);
    }
}

proof fn lemma_numbers_out(
    exprs: Seq<SExpr>,
    env: Bindings,
    sn: Option<Seq<char>>,
    out1: Seq<Seq<char>>,
    out2: Seq<Seq<char>>,
    f: nat,
)
    ensures
        ev_numbers(exprs, env, out1, sn, f).res == ev_numbers(exprs, env, out2, sn, f).res,
        ev_numbers(exprs, env, out1, sn, f).env == ev_numbers(exprs, env, out2, sn, f).env,
    decreases f, 2nat, exprs.len(),
{
    if exprs.len() > 0 {
        let s1 = ev_value(exprs[0], env, out1, sn, f);
        let s2 = ev_value(exprs[0], env, out2, sn, f);
        lemma_value_out(exprs[0], env, sn, out1, out2, f);
        lemma_numbers_out(exprs.drop_first(), s1.env, sn, s1.out, s2.out, f);
    }
}

proof fn lemma_arith_out(
    op: Seq<char>,
    args: Seq<SExpr>,
    env: Bindings,
    sn: Option<Seq<char>>,
    out1: Seq<Seq<char>>,
    out2: Seq<Seq<char>>,
    f: nat,
)
    ensures
        ev_arith(op, args, env, out1, sn, f).res == ev_arith(op, args, env, out2, sn, f).res,
        ev_arith(op, args, env, out1, sn, f).env == ev_arith(op, args, env, out2, sn, f).env,
    decreases f, 3nat, 0nat,
{
    lemma_numbers_out(args, env, sn, out1, out2, f);
}

proof fn lemma_less_out(
    args: Seq<SExpr>,
    env: Bindings,
    sn: Option<Seq<char>>,
    out1: Seq<Seq<char>>,
    out2: Seq<Seq<char>>,
    f: nat,
)
    ensures
        ev_less(args, env, out1, sn, f).res == ev_less(args, env, out2, sn, f).res,
        ev_less(args, env, out1, sn, f).env == ev_less(args, env, out2, sn, f).env,
    decreases f, 3nat, 0nat,
{
    if args.len() == 2 {
        let l1 = ev_value(args[0], env, out1, sn, f);
        let l2 = ev_value(args[0], env, out2, sn, f);
        lemma_value_out(args[0], env, sn, out1, out2, f);
        lemma_value_out(args[1], l1.env, sn, l1.out, l2.out, f);
    }
}

proof fn lemma_stage_out(
    stage: SExpr,
    input: SValue,
    env: Bindings,
    sn: Option<Seq<char>>,
    out1: Seq<Seq<char>>,
    out2: Seq<Seq<char>>,
    f: nat,
)
    ensures
        pipe_stage(stage, input, env, out1, sn, f).res == pipe_stage(stage, input, env, out2, sn, f).res,
        pipe_stage(stage, input, env, out1, sn, f).env == pipe_stage(stage, input, env, out2, sn, f).env,
    decreases f, 3nat, 0nat,
{
    match stage {
        SExpr::List(items) => {
            if items.len() > 0 {
                lemma_numbers_out(items.drop_first(), env, sn, out1, out2, f);
            }
        },
        _ => {},
    }
}

proof fn lemma_stages_out(
    stages: Seq<SExpr>,
    cur: SValue,
    env: Bindings,
    sn: Option<Seq<char>>,
    out1: Seq<Seq<char>>,
    out2: Seq<Seq<char>>,
    f: nat,
)
    ensures
        pipe_stages(stages, cur, env, out1, sn, f).res == pipe_stages(stages, cur, env, out2, sn, f).res,
        pipe_stages(stages, cur, env, out1, sn, f).env == pipe_stages(stages, cur, env, out2, sn, f).env,
    decreases f, 4nat, stages.len(),
{
    if stages.len() > 0 {
        let s1 = pipe_stage(stages[0], cur, env, out1, sn, f);
        let s2 = pipe_stage(stages[0], cur, env, out2, sn, f);
        lemma_stage_out(stages[0], cur, env, sn, out1, out2, f);
        if s1.res is Ok {
            lemma_stages_out(stages.drop_first(), s1.res->Ok_0, s1.env, sn, s1.out, s2.out, f);
        }
    }
}

proof fn lemma_pipe_out(
    stages: Seq<SExpr>,
    env: Bindings,
    sn: Option<Seq<char>>,
    out1: Seq<Seq<char>>,
    out2: Seq<Seq<char>>,
    f: nat,
)
    ensures
        ev_pipe(stages, env, out1, sn, f).res == ev_pipe(stages, env, out2, sn, f).res,
        ev_pipe(stages, env, out1, sn, f).env == ev_pipe(stages, env, out2, sn, f).env,
    decreases f, 5nat, 0nat,
{
    if stages.len() > 0 {
        let s1 = ev_value(stages[0], env, out1, sn, f);
        let s2 = ev_value(stages[0], env, out2, sn, f);
        lemma_value_out(stages[0], env, sn, out1, out2, f);
        if s1.res is Ok {
            lemma_stages_out(stages.drop_first(), s1.res->Ok_0, s1.env, sn, s1.out, s2.out, f);
        }
    }
}

proof fn lemma_loop_out(
    l: SLambda,
    callee: SValue,
    args: Seq<SValue>,
    out1: Seq<Seq<char>>,
    out2: Seq<Seq<char>>,
    f: nat,
)
    ensures
        apply_loop(l, callee, args, out1, f).res == apply_loop(l, callee, args, out2, f).res,
    decreases f, 1nat, 0nat,
{
    if f > 0 {
        let env = crate::semantics::call_bindings(l, callee, args);
        let s1 = ev(l.body, env, out1, l.self_name, true, (f - 1) as nat);
        let s2 = ev(l.body, env, out2, l.self_name, true, (f - 1) as nat);
        law_output_does_not_matter(l.body, env, l.self_name, true, out1, out2, (f - 1) as nat);
        match s1.res {
            Ok(SControl::Tail(next)) => {
                lemma_loop_out(l, callee, next, s1.out, s2.out, (f - 1) as nat);
            },
            _ => {},
        }
    }
}

/// The lines printed before a call change not its result.
pub proof fn lemma_apply_out(
    callee: SValue,
    args: Seq<SValue>,
    out1: Seq<Seq<char>>,
    out2: Seq<Seq<char>>,
    f: nat,
)
    ensures
        apply(callee, args, out1, f).res == apply(callee, args, out2, f).res,
    decreases f, 2nat, 0nat,
{
    match callee {
        SValue::Lambda(l) => {
            let full = match l.auto_acc_init {
                Some(x) => args.push(SValue::Num(x)),
                None => args,
            };
            lemma_loop_out(l, callee, full, out1, out2, f);
        },
        _ => {},
    }
}

proof fn lemma_call_out(
    items: Seq<SExpr>,
    env: Bindings,
    sn: Option<Seq<char>>,
    out1: Seq<Seq<char>>,
    out2: Seq<Seq<char>>,
    f: nat,
)
    ensures
        ev_call(items, env, out1, sn, f).res == ev_call(items, env, out2, sn, f).res,
        ev_call(items, env, out1, sn, f).env == ev_call(items, env, out2, sn, f).env,
    decreases f, 3nat, 0nat,
{
    if items.len() > 0 {
        let c1 = ev_value(items[0], env, out1, sn, f);
        let c2 = ev_value(items[0], env, out2, sn, f);
        lemma_value_out(items[0], env, sn, out1, out2, f);
        if c1.res is Ok {
            let a1 = ev_args(items.drop_first(), c1.env, c1.out, sn, f);
            let a2 = ev_args(items.drop_first(), c1.env, c2.out, sn, f);
            lemma_args_out(items.drop_first(), c1.env, sn, c1.out, c2.out, f);
            if a1.res is Ok {
                lemma_apply_out(c1.res->Ok_0, a1.res->Ok_0, a1.out, a2.out, f);
            }
        }
    }
}

proof fn lemma_list_out(
    items: Seq<SExpr>,
    env: Bindings,
    sn: Option<Seq<char>>,
    tail: bool,
    out1: Seq<Seq<char>>,
    out2: Seq<Seq<char>>,
    f: nat,
)
    ensures
        ev_list(items, env, out1, sn, tail, f).res == ev_list(items, env, out2, sn, tail, f).res,
        ev_list(items, env, out1, sn, tail, f).env == ev_list(items, env, out2, sn, tail, f).env,
    decreases f, 6nat, 0nat,
{
    if items.len() > 0 {
        let rest = items.drop_first();
        lemma_args_out(rest, env, sn, out1, out2, f);
        lemma_arith_out(items[0]->Sym_0, rest, env, sn, out1, out2, f);
        lemma_less_out(rest, env, sn, out1, out2, f);
        lemma_pipe_out(rest, env, sn, out1, out2, f);
        lemma_call_out(items, env, sn, out1, out2, f);
        if rest.len() >= 1 {
            lemma_value_out(rest[0], env, sn, out1, out2, f);
            let c1 = ev_value(rest[0], env, out1, sn, f);
            let c2 = ev_value(rest[0], env, out2, sn, f);
            if rest.len() >= 2 {
                law_output_does_not_matter(rest[1], c1.env, sn, tail, c1.out, c2.out, f);
                lemma_value_out(rest[1], env, sn, out1, out2, f);
            }
            if rest.len() >= 3 {
                law_output_does_not_matter(rest[2], c1.env, sn, tail, c1.out, c2.out, f);
            }
        }
    }
}

} // verus!
