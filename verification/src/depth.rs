//! The depth bound only decides whether an evaluation finishes: an evaluation that
//! does not run out of depth gives the same result, bindings and output under any
//! larger bound.
use vstd::prelude::*;
use crate::syntax::{SExpr, SError};
use crate::eval::{SValue, SLambda};
use crate::semantics::{
    Bindings, Step, Called, ev, ev_value, ev_args, ev_numbers, ev_arith, ev_less, pipe_stage,
    pipe_stages, ev_pipe, ev_call, ev_list, apply, apply_loop, depth_message,
};

verus! {

/// The evaluation stopped because it ran out of depth.
pub open spec fn out_of_depth<T>(s: Step<T>) -> bool {
    s.res == Err::<T, SError>(SError::Eval(depth_message()))
}

/// The call stopped because it ran out of depth.
pub open spec fn call_out_of_depth(c: Called) -> bool {
    c.res == Err::<SValue, SError>(SError::Eval(depth_message()))
}

/// An evaluation that does not run out of depth gives the same step under any larger
/// depth bound.
pub proof fn law_more_depth_same_result(
    e: SExpr,
    env: Bindings,
    out: Seq<Seq<char>>,
    sn: Option<Seq<char>>,
    tail: bool,
    f1: nat,
    f2: nat,
)
    requires
        f1 <= f2,
    ensures
        !out_of_depth(ev(e, env, out, sn, tail, f1))
            ==> ev(e, env, out, sn, tail, f2)
            == ev(e, env, out, sn, tail, f1),
    decreases f1, 0nat, 0nat,
{
    if f1 > 0 {
        match e {
            SExpr::List(items) => {
                lemma_list_depth(items, env, out, sn, tail, (f1 - 1) as nat, (f2 - 1) as nat);
            },
            _ => {},
        }
    }
}

proof fn lemma_value_depth(
    e: SExpr,
    env: Bindings,
    out: Seq<Seq<char>>,
    sn: Option<Seq<char>>,
    f1: nat,
    f2: nat,
)
    requires
        f1 <= f2,
    ensures
        !out_of_depth(ev_value(e, env, out, sn, f1))
            ==> ev_value(e, env, out, sn, f2)
            == ev_value(e, env, out, sn, f1),
    decreases f1, 1nat, 0nat,
{
    law_more_depth_same_result(e, env, out, sn, false, f1, f2);
}

proof fn lemma_args_depth(
    exprs: Seq<SExpr>,
    env: Bindings,
    out: Seq<Seq<char>>,
    sn: Option<Seq<char>>,
    f1: nat,
    f2: nat,
)
    requires
        f1 <= f2,
    ensures
        !out_of_depth(ev_args(exprs, env, out, sn, f1))
            ==> ev_args(exprs, env, out, sn, f2)
            == ev_args(exprs, env, out, sn, f1),
    decreases f1, 2nat, exprs.len(),
{
    if exprs.len() > 0 {
        let s = ev_value(exprs[0], env, out, sn, f1);
        lemma_value_depth(exprs[0], env, out, sn, f1, f2);
        lemma_args_depth(exprs.drop_first(), s.env, s.out, sn, f1, f2);
    }
}

proof fn lemma_numbers_depth(
    exprs: Seq<SExpr>,
    env: Bindings,
    out: Seq<Seq<char>>,
    sn: Option<Seq<char>>,
    f1: nat,
    f2: nat,
)
    requires
        f1 <= f2,
    ensures
        !out_of_depth(ev_numbers(exprs, env, out, sn, f1))
            ==> ev_numbers(exprs, env, out, sn, f2)
            == ev_numbers(exprs, env, out, sn, f1),
    decreases f1, 2nat, exprs.len(),
{
    if exprs.len() > 0 {
        let s = ev_value(exprs[0], env, out, sn, f1);
        lemma_value_depth(exprs[0], env, out, sn, f1, f2);
        lemma_numbers_depth(exprs.drop_first(), s.env, s.out, sn, f1, f2);
    }
}

proof fn lemma_arith_depth(
    op: Seq<char>,
    args: Seq<SExpr>,
    env: Bindings,
    out: Seq<Seq<char>>,
    sn: Option<Seq<char>>,
    f1: nat,
    f2: nat,
)
    requires
        f1 <= f2,
    ensures
        !out_of_depth(ev_arith(op, args, env, out, sn, f1))
            ==> ev_arith(op, args, env, out, sn, f2)
            == ev_arith(op, args, env, out, sn, f1),
    decreases f1, 3nat, 0nat,
{
    lemma_numbers_depth(args, env, out, sn, f1, f2);
}

proof fn lemma_less_depth(
    args: Seq<SExpr>,
    env: Bindings,
    out: Seq<Seq<char>>,
    sn: Option<Seq<char>>,
    f1: nat,
    f2: nat,
)
    requires
        f1 <= f2,
    ensures
        !out_of_depth(ev_less(args, env, out, sn, f1))
            ==> ev_less(args, env, out, sn, f2)
            == ev_less(args, env, out, sn, f1),
    decreases f1, 3nat, 0nat,
{
    if args.len() == 2 {
        let l = ev_value(args[0], env, out, sn, f1);
        lemma_value_depth(args[0], env, out, sn, f1, f2);
        lemma_value_depth(args[1], l.env, l.out, sn, f1, f2);
    }
}

proof fn lemma_stage_depth(
    stage: SExpr,
    input: SValue,
    env: Bindings,
    out: Seq<Seq<char>>,
    sn: Option<Seq<char>>,
    f1: nat,
    f2: nat,
)
    requires
        f1 <= f2,
    ensures
        !out_of_depth(pipe_stage(stage, input, env, out, sn, f1))
            ==> pipe_stage(stage, input, env, out, sn, f2)
            == pipe_stage(stage, input, env, out, sn, f1),
    decreases f1, 3nat, 0nat,
{
    match stage {
        SExpr::List(items) => {
            if items.len() > 0 {
                lemma_numbers_depth(items.drop_first(), env, out, sn, f1, f2);
            }
        },
        _ => {},
    }
}

pub proof fn lemma_stages_depth(
    stages: Seq<SExpr>,
    cur: SValue,
    env: Bindings,
    out: Seq<Seq<char>>,
    sn: Option<Seq<char>>,
    f1: nat,
    f2: nat,
)
    requires
        f1 <= f2,
    ensures
        !out_of_depth(pipe_stages(stages, cur, env, out, sn, f1))
            ==> pipe_stages(stages, cur, env, out, sn, f2)
            == pipe_stages(stages, cur, env, out, sn, f1),
    decreases f1, 4nat, stages.len(),
{
    if stages.len() > 0 {
        let s = pipe_stage(stages[0], cur, env, out, sn, f1);
        lemma_stage_depth(stages[0], cur, env, out, sn, f1, f2);
        if s.res is Ok {
            lemma_stages_depth(stages.drop_first(), s.res->Ok_0, s.env, s.out, sn, f1, f2);
        }
    }
}

pub proof fn lemma_pipe_depth(
    stages: Seq<SExpr>,
    env: Bindings,
    out: Seq<Seq<char>>,
    sn: Option<Seq<char>>,
    f1: nat,
    f2: nat,
)
    requires
        f1 <= f2,
    ensures
        !out_of_depth(ev_pipe(stages, env, out, sn, f1))
            ==> ev_pipe(stages, env, out, sn, f2)
            == ev_pipe(stages, env, out, sn, f1),
    decreases f1, 5nat, 0nat,
{
    if stages.len() > 0 {
        let s = ev_value(stages[0], env, out, sn, f1);
        lemma_value_depth(stages[0], env, out, sn, f1, f2);
        if s.res is Ok {
            lemma_stages_depth(stages.drop_first(), s.res->Ok_0, s.env, s.out, sn, f1, f2);
        }
    }
}

proof fn lemma_loop_depth(
    l: SLambda,
    callee: SValue,
    args: Seq<SValue>,
    out: Seq<Seq<char>>,
    f1: nat,
    f2: nat,
)
    requires
        f1 <= f2,
    ensures
        !call_out_of_depth(apply_loop(l, callee, args, out, f1))
            ==> apply_loop(l, callee, args, out, f2)
            == apply_loop(l, callee, args, out, f1),
    decreases f1, 1nat, 0nat,
{
    if f1 > 0 {
        let env = crate::semantics::call_bindings(l, callee, args);
        let s = ev(l.body, env, out, l.self_name, true, (f1 - 1) as nat);
        law_more_depth_same_result(
            l.body,
            env,
            out,
            l.self_name,
            true,
            (f1 - 1) as nat,
            (f2 - 1) as nat,
        );
        match s.res {
            Ok(crate::semantics::SControl::Tail(next)) => {
                lemma_loop_depth(l, callee, next, s.out, (f1 - 1) as nat, (f2 - 1) as nat);
            },
            _ => {},
        }
    }
}

pub proof fn lemma_apply_depth(
    callee: SValue,
    args: Seq<SValue>,
    out: Seq<Seq<char>>,
    f1: nat,
    f2: nat,
)
    requires
        f1 <= f2,
    ensures
        !call_out_of_depth(apply(callee, args, out, f1))
            ==> apply(callee, args, out, f2)
            == apply(callee, args, out, f1),
    decreases f1, 2nat, 0nat,
{
    match callee {
        SValue::Lambda(l) => {
            let full = match l.auto_acc_init {
                Some(f) => args.push(SValue::Num(f)),
                None => args,
            };
            lemma_loop_depth(l, callee, full, out, f1, f2);
        },
        _ => {},
    }
}

proof fn lemma_call_depth(
    items: Seq<SExpr>,
    env: Bindings,
    out: Seq<Seq<char>>,
    sn: Option<Seq<char>>,
    f1: nat,
    f2: nat,
)
    requires
        f1 <= f2,
    ensures
        !out_of_depth(ev_call(items, env, out, sn, f1))
            ==> ev_call(items, env, out, sn, f2)
            == ev_call(items, env, out, sn, f1),
    decreases f1, 3nat, 0nat,
{
    if items.len() > 0 {
        let c = ev_value(items[0], env, out, sn, f1);
        lemma_value_depth(items[0], env, out, sn, f1, f2);
        if c.res is Ok {
            let a = ev_args(items.drop_first(), c.env, c.out, sn, f1);
            lemma_args_depth(items.drop_first(), c.env, c.out, sn, f1, f2);
            if a.res is Ok {
                lemma_apply_depth(c.res->Ok_0, a.res->Ok_0, a.out, f1, f2);
            }
        }
    }
}

proof fn lemma_list_depth(
    items: Seq<SExpr>,
    env: Bindings,
    out: Seq<Seq<char>>,
    sn: Option<Seq<char>>,
    tail: bool,
    f1: nat,
    f2: nat,
)
    requires
        f1 <= f2,
    ensures
        !out_of_depth(ev_list(items, env, out, sn, tail, f1))
            ==> ev_list(items, env, out, sn, tail, f2)
            == ev_list(items, env, out, sn, tail, f1),
    decreases f1, 6nat, 0nat,
{
    if items.len() > 0 {
        let rest = items.drop_first();
        lemma_args_depth(rest, env, out, sn, f1, f2);
        lemma_arith_depth(items[0]->Sym_0, rest, env, out, sn, f1, f2);
        lemma_less_depth(rest, env, out, sn, f1, f2);
        lemma_pipe_depth(rest, env, out, sn, f1, f2);
        lemma_call_depth(items, env, out, sn, f1, f2);
        if rest.len() >= 1 {
            lemma_value_depth(rest[0], env, out, sn, f1, f2);
            let c = ev_value(rest[0], env, out, sn, f1);
            if rest.len() >= 2 {
                law_more_depth_same_result(rest[1], c.env, c.out, sn, tail, f1, f2);
                lemma_value_depth(rest[1], env, out, sn, f1, f2);
            }
            if rest.len() >= 3 {
                law_more_depth_same_result(rest[2], c.env, c.out, sn, tail, f1, f2);
            }
        }
    }
}

} // verus!
