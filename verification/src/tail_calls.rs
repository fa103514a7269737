//! A self-call in tail position, which the evaluator runs as a loop, behaves as an
//! ordinary call of the function.
use vstd::prelude::*;
use crate::syntax::{SExpr, SError};
use crate::eval::{SValue, SLambda};
use crate::semantics::{
    Bindings, Step, Called, SControl, ev, ev_value, ev_args, ev_list, ev_call, apply, apply_loop,
    as_control, call_bindings, bind_params,
};
use crate::depth::{out_of_depth, lemma_apply_depth};
use crate::accumulation::lemma_names;
use crate::laws::{kept, law_ev_keeps_bindings};

verus! {

/// How the tail-position evaluation `t` of an expression relates to its ordinary
/// evaluation `p`: where `t` yields the arguments of a self-call, `p` made that call
/// of `callee`; otherwise the two are the same.
pub open spec fn tail_related(t: Step<SControl>, p: Step<SControl>, callee: SValue, f: nat) -> bool {
    match t.res {
        Ok(SControl::Tail(vs)) => {
            let a = apply(callee, vs, t.out, f);
            p == (Step { res: as_control(a.res), env: t.env, out: a.out })
        },
        _ => p == t,
    }
}

/// In tail position and outside it, an expression evaluates alike, but for the
/// self-call that tail position hands back instead of making.
proof fn lemma_tail_flag(e: SExpr, env: Bindings, out: Seq<Seq<char>>, callee: SValue, f: nat)
    requires
        env.dom().contains("self"@),
        env["self"@] == callee,
    ensures
        !out_of_depth(ev(e, env, out, Some("self"@), false, f)) ==> tail_related(
            ev(e, env, out, Some("self"@), true, f),
            ev(e, env, out, Some("self"@), false, f),
            callee,
            f,
        ),
    decreases f, 0nat,
{
    if f > 0 {
        match e {
            SExpr::List(items) => {
                let g = (f - 1) as nat;
                let sn = Some("self"@);
                lemma_tail_flag_list(items, env, out, callee, g);
                let t = ev_list(items, env, out, sn, true, g);
                if t.res is Ok {
                    match t.res->Ok_0 {
                        SControl::Tail(vs) => {
                            lemma_apply_depth(callee, vs, t.out, g, f);
                        },
                        _ => {},
                    }
                }
            },
            _ => {},
        }
    }
}

/// `lemma_tail_flag` for a list form.
proof fn lemma_tail_flag_list(
    items: Seq<SExpr>,
    env: Bindings,
    out: Seq<Seq<char>>,
    callee: SValue,
    f: nat,
)
    requires
        env.dom().contains("self"@),
        env["self"@] == callee,
    ensures
        !out_of_depth(ev_list(items, env, out, Some("self"@), false, f)) ==> tail_related(
            ev_list(items, env, out, Some("self"@), true, f),
            ev_list(items, env, out, Some("self"@), false, f),
            callee,
            f,
        ),
    decreases f, 1nat,
{
    lemma_names();
    reveal_strlit("self");
    let sn = Some("self"@);
    if items.len() > 0 {
        let head = items[0];
        let rest = items.drop_first();
        if head == SExpr::Sym("self"@) {
            if f > 0 {
                assert(ev_value(head, env, out, sn, f) == crate::semantics::done(callee, env, out));
            }
            assert(ev_list(items, env, out, sn, false, f) == (Step {
                res: as_control(ev_call(items, env, out, sn, f).res),
                env: ev_call(items, env, out, sn, f).env,
                out: ev_call(items, env, out, sn, f).out,
            }));
        } else if head is Sym && head->Sym_0 == "if"@ {
            if 2 <= rest.len() <= 3 {
                let c = ev_value(rest[0], env, out, sn, f);
                law_ev_keeps_bindings(rest[0], env, out, sn, false, f);
                assert(kept(env, c.env));
                assert(c.env.dom().contains("self"@));
                if c.res is Ok {
                    lemma_tail_flag(rest[1], c.env, c.out, callee, f);
                    if rest.len() == 3 {
                        lemma_tail_flag(rest[2], c.env, c.out, callee, f);
                    }
                }
            }
        }
    }
}

/// Binding parameters leaves every other name as it was.
proof fn lemma_bind_params_other(
    base: Bindings,
    params: Seq<Seq<char>>,
    args: Seq<SValue>,
    k: nat,
    key: Seq<char>,
)
    requires
        k <= params.len(),
        !params.contains(key),
    ensures
        bind_params(base, params, args, k).dom().contains(key) == base.dom().contains(key),
        bind_params(base, params, args, k)[key] == base[key],
    decreases k,
{
    if k > 0 {
        lemma_bind_params_other(base, params, args, (k - 1) as nat, key);
        assert(params[k - 1] != key);
    }
}

/// Tail calls are calls: for a self-recursive function that was not rewritten into
/// accumulator form and has no parameter named `self`, calling it (which runs each
/// self-call in tail position as one more round of a loop) gives the result and
/// output of evaluating its body as an ordinary expression, in which the self-calls
/// are ordinary calls, whenever that evaluation stays within its depth bound.
pub proof fn law_tail_calls_are_calls(l: SLambda, args: Seq<SValue>, out: Seq<Seq<char>>, f: nat)
    requires
        l.self_name == Some("self"@),
        l.auto_acc_init is None,
        l.params.len() == l.public_arity,
        args.len() == l.public_arity,
        !l.params.contains("self"@),
    ensures
        ({
            let callee = SValue::Lambda(l);
            let direct = ev_value(l.body, call_bindings(l, callee, args), out, Some("self"@), f);
            !out_of_depth(direct) ==> apply(callee, args, out, f + 1) == (Called {
                res: direct.res,
                out: direct.out,
            })
        }),
{
    let callee = SValue::Lambda(l);
    let sn = Some("self"@);
    let base = l.captured.insert("self"@, callee);
    let env0 = call_bindings(l, callee, args);
    assert(env0 == bind_params(base, l.params, args, l.params.len()));
    lemma_bind_params_other(base, l.params, args, l.params.len(), "self"@);
    lemma_tail_flag(l.body, env0, out, callee, f);
    let t = ev(l.body, env0, out, sn, true, f);
    let p = ev(l.body, env0, out, sn, false, f);
    let direct = ev_value(l.body, env0, out, sn, f);
    if !out_of_depth(direct) {
        assert(!out_of_depth(p));
        assert(apply(callee, args, out, f + 1) == apply_loop(l, callee, args, out, f + 1));
        match t.res {
            Ok(SControl::Tail(vs)) => {
                let a = apply(callee, vs, t.out, f);
                if l.params.len() == vs.len() {
                    assert(a == apply_loop(l, callee, vs, t.out, f));
                }
            },
            _ => {},
        }
    }
}

} // verus!
