//! Properties of the special forms: arithmetic, pipelines, `fn` and the
//! accumulator rewrite's shape test.
use vstd::prelude::*;
use crate::number::{Frac, frac_neg, frac_sub, frac_mul};
use crate::syntax::{SExpr, SError};
use crate::eval::{SValue, SLambda};
use crate::semantics::{
    Bindings, Step, SControl, ev, ev_value, ev_numbers, ev_arith, ev_list, ev_pipe, pipe_stage,
    pipe_stages, combine, fold_add, fold_mul, frac_recip, is_arith_op, value_text, make_fn,
    auto_tail, accumulate_spec, self_call_arg, done, fail, relay, prepend, as_control,
    division_message, numeric_message,
};
use crate::depth::{out_of_depth, lemma_pipe_depth};

verus! {

/// The names of the forms are distinct.
proof fn lemma_form_names()
    ensures
        "+"@ != "-"@,
        "+"@ != "*"@,
        "+"@ != "/"@,
        "-"@ != "*"@,
        "-"@ != "/"@,
        "*"@ != "/"@,
        "|>"@ != "define"@ && !is_arith_op("|>"@) && "|>"@ != "<"@ && "|>"@ != "if"@,
        "fn"@ != "define"@ && !is_arith_op("fn"@) && "fn"@ != "<"@ && "fn"@ != "if"@ && "fn"@
            != "|>"@,
        !is_arith_op("print"@),
{
    reveal_strlit("+");
    reveal_strlit("-");
    reveal_strlit("*");
    reveal_strlit("/");
    reveal_strlit("|>");
    reveal_strlit("fn");
    reveal_strlit("define");
    reveal_strlit("<");
    reveal_strlit("if");
    reveal_strlit("print");
    assert("+"@.len() == 1 && "+"@[0] == '+');
    assert("-"@.len() == 1 && "-"@[0] == '-');
    assert("*"@.len() == 1 && "*"@[0] == '*');
    assert("/"@.len() == 1 && "/"@[0] == '/');
    assert("<"@.len() == 1);
    assert("|>"@.len() == 2 && "|>"@[0] == '|');
    assert("fn"@.len() == 2 && "fn"@[0] == 'f');
    assert("if"@.len() == 2 && "if"@[0] == 'i');
    assert("define"@.len() == 6);
    assert("print"@.len() == 5);
}

/// Arithmetic over evaluated numbers `xs` (at least one): `+` sums and `*`
/// multiplies them; `-` negates a single number, else subtracts the sum of the rest
/// from the first; `/` inverts a single number, else divides the first by the
/// product of the rest, and fails with "division by zero" exactly when that
/// divisor is zero.
pub proof fn law_arithmetic(op: Seq<char>, xs: Seq<Frac>)
    requires
        is_arith_op(op),
        xs.len() >= 1,
    ensures
        op == "+"@ ==> combine(op, xs) == Ok::<Frac, Seq<char>>(fold_add(xs)),
        op == "*"@ ==> combine(op, xs) == Ok::<Frac, Seq<char>>(fold_mul(xs)),
        op == "-"@ && xs.len() == 1 ==> combine(op, xs) == Ok::<Frac, Seq<char>>(frac_neg(xs[0])),
        op == "-"@ && xs.len() > 1 ==> combine(op, xs) == Ok::<Frac, Seq<char>>(
            frac_sub(xs[0], fold_add(xs.drop_first())),
        ),
        op == "/"@ && xs.len() == 1 ==> (combine(op, xs) == if xs[0].num == 0 {
            Err::<Frac, Seq<char>>(division_message())
        } else {
            Ok(frac_recip(xs[0]))
        }),
        op == "/"@ && xs.len() > 1 ==> (combine(op, xs) == if fold_mul(xs.drop_first()).num == 0 {
            Err::<Frac, Seq<char>>(division_message())
        } else {
            Ok(frac_mul(xs[0], frac_recip(fold_mul(xs.drop_first()))))
        }),
{
    lemma_form_names();
}

/// A pipeline stage `(op e1 .. ek)` applied to the number `x` is `(op x e1 .. ek)`:
/// the piped value is the first operand. Any other input is refused as not numeric.
pub proof fn law_pipe_stage_first_operand(
    op: Seq<char>,
    es: Seq<SExpr>,
    input: SValue,
    env: Bindings,
    out: Seq<Seq<char>>,
    sn: Option<Seq<char>>,
    fuel: nat,
)
    requires
        is_arith_op(op),
        fuel > 0,
    ensures
        input is Num ==> pipe_stage(
            SExpr::List(seq![SExpr::Sym(op)] + es),
            input,
            env,
            out,
            sn,
            fuel,
        ) == ev_arith(op, seq![SExpr::Num(input->Num_0)] + es, env, out, sn, fuel),
        !(input is Num) ==> pipe_stage(
            SExpr::List(seq![SExpr::Sym(op)] + es),
            input,
            env,
            out,
            sn,
            fuel,
        ) == fail::<SValue>(numeric_message(), env, out),
{
    let items = seq![SExpr::Sym(op)] + es;
    assert(items[0] == SExpr::Sym(op));
    assert(items.drop_first() =~= es);
    if input is Num {
        let x = input->Num_0;
        let args = seq![SExpr::Num(x)] + es;
        assert(args[0] == SExpr::Num(x));
        assert(args.drop_first() =~= es);
        assert(ev_value(SExpr::Num(x), env, out, sn, fuel) == done(SValue::Num(x), env, out));
        let inner = ev_numbers(es, env, out, sn, fuel);
        match inner.res {
            Ok(ns) => {
                assert(prepend(seq![x], inner).res == Ok::<Seq<Frac>, SError>(seq![x] + ns));
            },
            Err(_) => {},
        }
    }
}

/// The pipeline stage `(print)` prints its input and passes it on; `print` with
/// arguments is refused and prints nothing.
pub proof fn law_pipe_print(
    rest: Seq<SExpr>,
    input: SValue,
    env: Bindings,
    out: Seq<Seq<char>>,
    sn: Option<Seq<char>>,
    fuel: nat,
)
    ensures
        rest.len() == 0 ==> pipe_stage(
            SExpr::List(seq![SExpr::Sym("print"@)] + rest),
            input,
            env,
            out,
            sn,
            fuel,
        ) == done(input, env, out.push(value_text(input))),
        rest.len() > 0 ==> pipe_stage(
            SExpr::List(seq![SExpr::Sym("print"@)] + rest),
            input,
            env,
            out,
            sn,
            fuel,
        ) == fail::<SValue>("print in pipeline does not take explicit arguments"@, env, out),
{
    reveal_strlit("print");
    reveal_strlit("+");
    reveal_strlit("-");
    reveal_strlit("*");
    reveal_strlit("/");
    let items = seq![SExpr::Sym("print"@)] + rest;
    assert(items[0] == SExpr::Sym("print"@));
    assert(items.len() == rest.len() + 1);
    lemma_form_names();
}

/// Threading a value through stages `a` and then `s` is threading it through `a`,
/// then through `s`.
proof fn lemma_stages_split(
    a: Seq<SExpr>,
    s: SExpr,
    cur: SValue,
    env: Bindings,
    out: Seq<Seq<char>>,
    sn: Option<Seq<char>>,
    fuel: nat,
)
    ensures
        pipe_stages(a.push(s), cur, env, out, sn, fuel) == ({
            let p = pipe_stages(a, cur, env, out, sn, fuel);
            match p.res {
                Ok(w) => pipe_stages(seq![s], w, p.env, p.out, sn, fuel),
                Err(_) => p,
            }
        }),
    decreases a.len(),
{
    if a.len() == 0 {
        assert(a.push(s) =~= seq![s]);
    } else {
        let st = pipe_stage(a[0], cur, env, out, sn, fuel);
        assert(a.push(s)[0] == a[0]);
        assert(a.push(s).drop_first() =~= a.drop_first().push(s));
        if st.res is Ok {
            lemma_stages_split(a.drop_first(), s, st.res->Ok_0, st.env, st.out, sn, fuel);
        }
    }
}

/// Pipelines regroup to the left: `(|> x s1 .. sk)` gives what
/// `(|> (|> x s1 .. sk-1) sk)` gives, whenever the latter stays within its depth
/// bound.
pub proof fn law_pipe_regroups(
    x: SExpr,
    stages: Seq<SExpr>,
    last: SExpr,
    env: Bindings,
    out: Seq<Seq<char>>,
    sn: Option<Seq<char>>,
    fuel: nat,
)
    ensures
        ({
            let inner = SExpr::List(seq![SExpr::Sym("|>"@), x] + stages);
            let nested = ev_pipe(seq![inner, last], env, out, sn, fuel);
            !out_of_depth(nested) ==> ev_pipe((seq![x] + stages).push(last), env, out, sn, fuel)
                == nested
        }),
{
    reveal_strlit("|>");
    reveal_strlit("define");
    reveal_strlit("+");
    reveal_strlit("-");
    reveal_strlit("*");
    reveal_strlit("/");
    reveal_strlit("<");
    reveal_strlit("if");
    let inner_items = seq![SExpr::Sym("|>"@), x] + stages;
    let inner = SExpr::List(inner_items);
    let nested = ev_pipe(seq![inner, last], env, out, sn, fuel);
    let flat_stages = (seq![x] + stages).push(last);
    if !out_of_depth(nested) {
        assert(seq![inner, last][0] == inner);
        assert(seq![inner, last].drop_first() =~= seq![last]);
        let iv = ev_value(inner, env, out, sn, fuel);
        assert(fuel > 0);
        let g = (fuel - 1) as nat;
        assert(inner_items[0] == SExpr::Sym("|>"@));
        assert(inner_items.drop_first() =~= seq![x] + stages);
        lemma_form_names();
        let ip = ev_pipe(seq![x] + stages, env, out, sn, g);
        assert(ev(inner, env, out, sn, false, fuel) == ev_list(inner_items, env, out, sn, false, g));
        assert(ev_list(inner_items, env, out, sn, false, g) == (Step {
            res: as_control(ip.res),
            env: ip.env,
            out: ip.out,
        }));
        assert(!out_of_depth(ip));
        lemma_pipe_depth(seq![x] + stages, env, out, sn, g, fuel);
        let fp = ev_pipe(seq![x] + stages, env, out, sn, fuel);
        assert(fp == ip);
        assert((seq![x] + stages)[0] == x);
        assert((seq![x] + stages).drop_first() =~= stages);
        assert(flat_stages[0] == x);
        assert(flat_stages.drop_first() =~= stages.push(last));
        let xv = ev_value(x, env, out, sn, fuel);
        if xv.res is Ok {
            lemma_stages_split(stages, last, xv.res->Ok_0, xv.env, xv.out, sn, fuel);
        }
    }
}

/// Whether a self-recursive body of one parameter has the shape the accumulator
/// rewrite applies to: `(if c base (op x y))` with `op` one of `+` and `*` and `y`,
/// or else `x`, a call `(name arg)`.
pub open spec fn accumulator_shape(body: SExpr, name: Seq<char>) -> bool {
    &&& body is List
    &&& body->List_0.len() == 4
    &&& body->List_0[0] == SExpr::Sym("if"@)
    &&& body->List_0[3] is List
    &&& body->List_0[3]->List_0.len() == 3
    &&& (body->List_0[3]->List_0[0] == SExpr::Sym("+"@) || body->List_0[3]->List_0[0]
        == SExpr::Sym("*"@))
    &&& (self_call_arg(body->List_0[3]->List_0[2], name) is Some || self_call_arg(
        body->List_0[3]->List_0[1],
        name,
    ) is Some)
}

/// The accumulator rewrite leaves a function as it is (parameters, body, and no
/// accumulator) unless it is self-recursive with one parameter and a body of the
/// accumulator shape; in that case it rewrites it.
pub proof fn law_rewrite_only_on_shape(params: Seq<Seq<char>>, body: SExpr, sn: Option<Seq<char>>)
    ensures
        (sn is None || params.len() != 1 || !accumulator_shape(body, sn->Some_0)) ==> auto_tail(
            params,
            body,
            sn,
        ) == (params, body, None::<Frac>),
        (sn is Some && params.len() == 1 && accumulator_shape(body, sn->Some_0)) ==> auto_tail(
            params,
            body,
            sn,
        ).2 is Some,
{
}

/// `(fn params body)` changes no binding and prints nothing; the function it makes
/// closes over the bindings as they are at that moment (bindings made later are
/// not seen by it).
pub proof fn law_fn_captures_current_bindings(
    rest: Seq<SExpr>,
    env: Bindings,
    out: Seq<Seq<char>>,
    sn: Option<Seq<char>>,
    tail: bool,
    fuel: nat,
)
    ensures
        ({
            let s = ev_list(seq![SExpr::Sym("fn"@)] + rest, env, out, sn, tail, fuel);
            &&& sn != Some("fn"@) ==> s.env == env && s.out == out
            &&& sn != Some("fn"@) ==> s.res == as_control(make_fn(rest, env))
            &&& make_fn(rest, env) is Ok ==> make_fn(rest, env)->Ok_0 is Lambda && make_fn(
                rest,
                env,
            )->Ok_0->Lambda_0.captured == env
        }),
{
    reveal_strlit("fn");
    reveal_strlit("define");
    reveal_strlit("+");
    reveal_strlit("-");
    reveal_strlit("*");
    reveal_strlit("/");
    reveal_strlit("<");
    reveal_strlit("if");
    reveal_strlit("|>");
    let items = seq![SExpr::Sym("fn"@)] + rest;
    assert(items[0] == SExpr::Sym("fn"@));
    assert(items.drop_first() =~= rest);
    lemma_form_names();
}

} // verus!
