//! The accumulator rewrite of self-recursive functions computes what the plain
//! recursion computes.
//!
//! A function `(fn (self n) (if c base (op step (self next))))` with `op` one of
//! `+` and `*` (or with the self-call on the left) is stored with the body
//! `(if c (op base acc) (self next (op acc step)))` and an accumulator starting at
//! the identity of `op`. The law below states that, whenever the function without
//! the rewrite returns a number, the rewritten one returns the same rational, for
//! parts that define and print nothing themselves and do not make functions or call
//! the function itself (they may call other functions in scope).
use vstd::prelude::*;
use crate::number::{Frac, frac_add, frac_mul, frac_neg, frac_sub, frac_eq, frac_from_parts};
use crate::syntax::{SExpr, SError};
use crate::eval::{SValue, SLambda};
use crate::semantics::{
    Bindings, Step, SControl, ev, ev_value, ev_numbers, ev_arith, ev_less, ev_list, combine, fold_add,
    fold_mul, frac_recip, is_arith_op,
};

verus! {

/// The name of the accumulator parameter that the rewrite introduces.
pub open spec fn acc_name() -> Seq<char> {
    "__fnr_acc"@
}

/// The heads a side-effect-free arithmetic expression may use.
pub open spec fn plain_head(h: SExpr) -> bool {
    match h {
        SExpr::Sym(op) => is_arith_op(op) || op == "<"@ || op == "if"@,
        _ => false,
    }
}

/// The names of the special forms.
pub open spec fn special_name(x: Seq<char>) -> bool {
    x == "define"@ || is_arith_op(x) || x == "<"@ || x == "if"@ || x == "|>"@ || x == "fn"@ || x
        == "print"@
}

/// Whether `h` heads a call of a function bound in scope: a name that is no special
/// form, not `self`, not the accumulator and not the parameter `n`.
pub open spec fn call_head(h: SExpr, n: Seq<char>) -> bool {
    match h {
        SExpr::Sym(g) => !special_name(g) && g != "self"@ && g != acc_name() && g != n,
        _ => false,
    }
}

/// An expression that defines nothing and prints nothing itself: numbers with
/// positive denominators, symbols other than `self` and the accumulator, the forms
/// `+ - * / < if`, pipelines `|>` of arithmetic stages, and calls of functions bound
/// in scope under names other than `self`, the accumulator and the parameter `n`.
pub open spec fn plain(e: SExpr, n: Seq<char>) -> bool
    decreases e,
{
    match e {
        SExpr::Num(f) => f.den > 0,
        SExpr::Sym(x) => x != "self"@ && x != acc_name(),
        SExpr::List(items) => items.len() >= 1 && (((plain_head(items[0]) || call_head(
            items[0],
            n,
        )) && plain_all(items.subrange(1, items.len() as int), n)) || (items[0] == SExpr::Sym(
            "|>"@,
        ) && items.len() >= 2 && plain(items[1], n) && plain_stages(
            items.subrange(2, items.len() as int),
            n,
        ))),
    }
}

/// A pipeline stage `(op e1 .. ek)` with `op` one of `+ - * /` and `plain` operands.
pub open spec fn plain_stage(e: SExpr, n: Seq<char>) -> bool
    decreases e,
{
    match e {
        SExpr::List(st) => st.len() >= 1 && st[0] is Sym && is_arith_op(st[0]->Sym_0) && plain_all(
            st.subrange(1, st.len() as int),
            n,
        ),
        _ => false,
    }
}

/// Every stage of the sequence is a `plain_stage`.
pub open spec fn plain_stages(s: Seq<SExpr>, n: Seq<char>) -> bool
    decreases s,
{
    if s.len() == 0 {
        true
    } else {
        plain_stage(s[0], n) && plain_stages(s.subrange(1, s.len() as int), n)
    }
}

/// Every expression of the sequence is `plain`.
pub open spec fn plain_all(s: Seq<SExpr>, n: Seq<char>) -> bool
    decreases s,
{
    if s.len() == 0 {
        true
    } else {
        plain(s[0], n) && plain_all(s.subrange(1, s.len() as int), n)
    }
}

/// A function value that, given arguments whose numbers are well formed, returns
/// (when it returns) a well-formed number or no number. Every function a program
/// builds is of this kind; the property is needed of the functions in scope.
pub open spec fn good_fn(v: SValue) -> bool {
    forall|args: Seq<SValue>, o: Seq<Seq<char>>, k: nat|
        #![trigger crate::semantics::apply(v, args, o, k)]
        (forall|i: int| 0 <= i < args.len() ==> value_ok(#[trigger] args[i]))
            && crate::semantics::apply(v, args, o, k).res is Ok ==> value_ok(
            crate::semantics::apply(v, args, o, k).res->Ok_0,
        )
}

/// Every binding that a `plain` expression may call is a `good_fn`.
pub open spec fn callable(env: Bindings, n: Seq<char>) -> bool {
    forall|x: Seq<char>|
        #[trigger] env.dom().contains(x) && x != "self"@ && x != acc_name() && x != n ==> good_fn(
            env[x],
        )
}

/// Every number bound in `env` has a positive denominator.
pub open spec fn nums_ok(env: Bindings) -> bool {
    forall|k: Seq<char>| #[trigger]
        env.dom().contains(k) ==> (env[k] is Num ==> env[k]->Num_0.den > 0)
}

/// A value that is a number has a positive denominator.
pub open spec fn value_ok(v: SValue) -> bool {
    v is Num ==> v->Num_0.den > 0
}

/// `a` and `b` bind every name other than `self` and the accumulator alike.
pub open spec fn agree(a: Bindings, b: Bindings) -> bool {
    forall|x: Seq<char>|
        x != "self"@ && x != acc_name() ==> (#[trigger] a.dom().contains(x) <==> b.dom().contains(
            x,
        )) && (a.dom().contains(x) ==> a[x] == b[x])
}

proof fn lemma_plain_all_index(s: Seq<SExpr>, n: Seq<char>)
    requires
        plain_all(s, n),
    ensures
        forall|i: int| 0 <= i < s.len() ==> #[trigger] plain(s[i], n),
    decreases s.len(),
{
    if s.len() > 0 {
        let t = s.subrange(1, s.len() as int);
        lemma_plain_all_index(t, n);
        assert forall|i: int| 0 <= i < s.len() implies #[trigger] plain(s[i], n) by {
            if i > 0 {
                assert(s[i] == t[i - 1]);
            }
        }
    }
}

/// The sum before the zero numerator is normalised away.
pub open spec fn raw_add(a: Frac, b: Frac) -> Frac {
    Frac { num: a.num * b.den + b.num * a.den, den: a.den * b.den }
}

/// The product before the zero numerator is normalised away.
pub open spec fn raw_mul(a: Frac, b: Frac) -> Frac {
    Frac { num: a.num * b.num, den: a.den * b.den }
}

proof fn lemma_add_pos(a: Frac, b: Frac)
    requires
        a.den > 0,
        b.den > 0,
    ensures
        frac_add(a, b).den > 0,
        raw_add(a, b).den > 0,
        frac_eq(frac_add(a, b), raw_add(a, b)),
{
    let r = raw_add(a, b);
    assert(r.den > 0) by (nonlinear_arith)
        requires
            r.den == a.den * b.den,
            a.den > 0,
            b.den > 0,
    ;
    if r.num == 0 {
        assert(frac_add(a, b) == Frac { num: 0, den: 1 });
        assert(0 * r.den == r.num * 1);
    } else {
        assert(frac_add(a, b) == r);
    }
}

proof fn lemma_mul_pos(a: Frac, b: Frac)
    requires
        a.den > 0,
        b.den > 0,
    ensures
        frac_mul(a, b).den > 0,
        raw_mul(a, b).den > 0,
        frac_eq(frac_mul(a, b), raw_mul(a, b)),
{
    let r = raw_mul(a, b);
    assert(r.den > 0) by (nonlinear_arith)
        requires
            r.den == a.den * b.den,
            a.den > 0,
            b.den > 0,
    ;
    if r.num == 0 {
        assert(frac_mul(a, b) == Frac { num: 0, den: 1 });
        assert(0 * r.den == r.num * 1);
    } else {
        assert(frac_mul(a, b) == r);
    }
}

proof fn lemma_fold_pos(s: Seq<Frac>)
    requires
        forall|i: int| 0 <= i < s.len() ==> #[trigger] s[i].den > 0,
    ensures
        fold_add(s).den > 0,
        fold_mul(s).den > 0,
    decreases s.len(),
{
    if s.len() > 0 {
        let t = s.drop_last();
        assert forall|i: int| 0 <= i < t.len() implies #[trigger] t[i].den > 0 by {
            assert(t[i] == s[i]);
        }
        lemma_fold_pos(t);
        lemma_add_pos(fold_add(t), s.last());
        lemma_mul_pos(fold_mul(t), s.last());
    }
}

proof fn lemma_combine_pos(op: Seq<char>, ns: Seq<Frac>)
    requires
        ns.len() >= 1,
        forall|i: int| 0 <= i < ns.len() ==> #[trigger] ns[i].den > 0,
    ensures
        combine(op, ns) is Ok ==> combine(op, ns)->Ok_0.den > 0,
{
    let rest = ns.drop_first();
    assert forall|i: int| 0 <= i < rest.len() implies #[trigger] rest[i].den > 0 by {
        assert(rest[i] == ns[i + 1]);
    }
    lemma_fold_pos(ns);
    lemma_fold_pos(rest);
    assert(ns[0].den > 0);
    lemma_add_pos(ns[0], frac_neg(fold_add(rest)));
    let d = fold_mul(rest);
    if d.num != 0 {
        assert(frac_recip(d).den > 0);
        lemma_mul_pos(ns[0], frac_recip(d));
    }
    if ns[0].num != 0 {
        assert(frac_recip(ns[0]).den > 0);
    }
}

/// The names the evaluator tells apart are distinct.
pub proof fn lemma_names()
    ensures
        "self"@ != "+"@,
        "self"@ != "-"@,
        "self"@ != "*"@,
        "self"@ != "/"@,
        "self"@ != "<"@,
        "self"@ != "if"@,
        "define"@ != "+"@,
        "define"@ != "-"@,
        "define"@ != "*"@,
        "define"@ != "/"@,
        "define"@ != "<"@,
        "define"@ != "if"@,
        !is_arith_op("<"@),
        !is_arith_op("if"@),
        "<"@ != "if"@,
        "self"@ != "define"@,
        !is_arith_op("self"@),
        "self"@ != "|>"@,
        "self"@ != "fn"@,
        "self"@ != "print"@,
        "self"@ != "true"@,
        "self"@ != "false"@,
        "self"@ != "nil"@,
        "self"@[0] != ':',
        acc_name() != "true"@,
        acc_name() != "false"@,
        acc_name() != "nil"@,
        acc_name()[0] != ':',
        acc_name().len() > 1,
        "self"@ != acc_name(),
        "|>"@ != "define"@,
        !is_arith_op("|>"@),
        "|>"@ != "<"@,
        "|>"@ != "if"@,
{
    reveal_strlit("self");
    reveal_strlit("define");
    reveal_strlit("+");
    reveal_strlit("-");
    reveal_strlit("*");
    reveal_strlit("/");
    reveal_strlit("<");
    reveal_strlit("if");
    reveal_strlit("|>");
    reveal_strlit("fn");
    reveal_strlit("print");
    reveal_strlit("true");
    reveal_strlit("false");
    reveal_strlit("nil");
    reveal_strlit("__fnr_acc");
    assert("self"@.len() == 4 && "self"@[0] == 's');
    assert("define"@.len() == 6);
    assert("+"@.len() == 1 && "+"@[0] == '+');
    assert("-"@.len() == 1 && "-"@[0] == '-');
    assert("*"@.len() == 1 && "*"@[0] == '*');
    assert("/"@.len() == 1 && "/"@[0] == '/');
    assert("<"@.len() == 1 && "<"@[0] == '<');
    assert("if"@.len() == 2 && "if"@[0] == 'i');
    assert("|>"@.len() == 2 && "|>"@[0] == '|');
    assert("fn"@.len() == 2);
    assert("print"@.len() == 5);
    assert("true"@.len() == 4 && "true"@[0] == 't');
    assert("false"@.len() == 5);
    assert("nil"@.len() == 3);
    assert("__fnr_acc"@.len() == 9 && "__fnr_acc"@[0] == '_');
}

/// Evaluating a `plain` expression changes no binding and gives a value, whose
/// number (if it is one) has a positive denominator.
proof fn lemma_plain_frame(
    e: SExpr,
    n: Seq<char>,
    env: Bindings,
    out: Seq<Seq<char>>,
    sn: Option<Seq<char>>,
    t: bool,
    f: nat,
)
    requires
        plain(e, n),
        nums_ok(env),
        callable(env, n),
        sn is Some ==> sn->Some_0 == "self"@,
    ensures
        ev(e, env, out, sn, t, f).env == env,
        ev(e, env, out, sn, t, f).res is Ok ==> ev(e, env, out, sn, t, f).res->Ok_0 is Val
            && value_ok(ev(e, env, out, sn, t, f).res->Ok_0->Val_0),
    decreases f, 1nat, 0nat,
{
    if f > 0 {
        match e {
            SExpr::List(items) => {
                let g = (f - 1) as nat;
                let rest = items.drop_first();
                let op = items[0]->Sym_0;
                lemma_names();
                assert(ev(e, env, out, sn, t, f) == ev_list(items, env, out, sn, t, g));
                if items[0] == SExpr::Sym("|>"@) {
                    assert(rest[0] == items[1]);
                    assert(rest.drop_first() =~= items.subrange(2, items.len() as int));
                    lemma_frame_pipe(rest, n, env, out, sn, g);
                } else if call_head(items[0], n) {
                    lemma_plain_all_index(rest, n);
                    lemma_frame_call(items, n, env, out, sn, g);
                } else if is_arith_op(op) {
                    lemma_plain_all_index(rest, n);
                    if rest.len() > 0 {
                        lemma_plain_frame_numbers(rest, n, env, out, sn, g);
                        let s = ev_numbers(rest, env, out, sn, g);
                        if s.res is Ok {
                            lemma_combine_pos(op, s.res->Ok_0);
                        }
                    }
                    assert(ev_arith(op, rest, env, out, sn, g).env == env);
                    assert(ev_list(items, env, out, sn, t, g).env == env);
                } else if op == "<"@ {
                    lemma_plain_all_index(rest, n);
                    if rest.len() == 2 {
                        lemma_plain_frame(rest[0], n, env, out, sn, false, g);
                        let l = ev_value(rest[0], env, out, sn, g);
                        lemma_plain_frame(rest[1], n, env, l.out, sn, false, g);
                    }
                    assert(ev_less(rest, env, out, sn, g).env == env);
                    assert(ev_list(items, env, out, sn, t, g).env == env);
                } else {
                    lemma_plain_all_index(rest, n);
                    if 2 <= rest.len() <= 3 {
                        lemma_plain_frame(rest[0], n, env, out, sn, false, g);
                        let c = ev_value(rest[0], env, out, sn, g);
                        lemma_plain_frame(rest[1], n, env, c.out, sn, t, g);
                        if rest.len() == 3 {
                            lemma_plain_frame(rest[2], n, env, c.out, sn, t, g);
                        }
                    }
                }
            },
            _ => {},
        }
    }
}

/// `lemma_plain_frame` for a call of a function in scope.
proof fn lemma_frame_call(
    items: Seq<SExpr>,
    n: Seq<char>,
    env: Bindings,
    out: Seq<Seq<char>>,
    sn: Option<Seq<char>>,
    g: nat,
)
    requires
        items.len() >= 1,
        call_head(items[0], n),
        plain_all(items.drop_first(), n),
        nums_ok(env),
        callable(env, n),
        sn is Some ==> sn->Some_0 == "self"@,
    ensures
        ev_list(items, env, out, sn, false, g) == ev_list(items, env, out, sn, true, g),
        ev_list(items, env, out, sn, true, g).env == env,
        ev_list(items, env, out, sn, true, g).res is Ok ==> ev_list(
            items,
            env,
            out,
            sn,
            true,
            g,
        ).res->Ok_0 is Val && value_ok(ev_list(items, env, out, sn, true, g).res->Ok_0->Val_0),
    decreases g, 3nat, 0nat,
{
    lemma_names();
    let h = items[0]->Sym_0;
    let rest = items.drop_first();
    let c = ev_value(items[0], env, out, sn, g);
    assert(c.env == env);
    let cl = crate::semantics::ev_call(items, env, out, sn, g);
    assert(ev_list(items, env, out, sn, true, g) == (Step {
        res: crate::semantics::as_control(cl.res),
        env: cl.env,
        out: cl.out,
    }));
    if c.res is Ok {
        lemma_plain_frame_args(rest, n, env, c.out, sn, g);
        let a = crate::semantics::ev_args(rest, env, c.out, sn, g);
        if a.res is Ok {
            let callee = c.res->Ok_0;
            let vs = a.res->Ok_0;
            let r = crate::semantics::apply(callee, vs, a.out, g);
            if env.dom().contains(h) && callee == env[h] {
                assert(good_fn(env[h]));
                assert(forall|i: int| 0 <= i < vs.len() ==> value_ok(#[trigger] vs[i]));
            }
            if r.res is Ok {
                assert(callee is Lambda);
                assert(env.dom().contains(h) && callee == env[h]);
            }
        }
    }
}

/// `lemma_plain_frame` for a sequence evaluated to numbers.
proof fn lemma_plain_frame_numbers(
    exprs: Seq<SExpr>,
    n: Seq<char>,
    env: Bindings,
    out: Seq<Seq<char>>,
    sn: Option<Seq<char>>,
    f: nat,
)
    requires
        plain_all(exprs, n),
        nums_ok(env),
        callable(env, n),
        sn is Some ==> sn->Some_0 == "self"@,
    ensures
        ev_numbers(exprs, env, out, sn, f).env == env,
        ev_numbers(exprs, env, out, sn, f).res is Ok ==> ev_numbers(
            exprs,
            env,
            out,
            sn,
            f,
        ).res->Ok_0.len() == exprs.len() && forall|i: int|
            0 <= i < exprs.len() ==> #[trigger] ev_numbers(exprs, env, out, sn, f).res->Ok_0[i].den
                > 0,
    decreases f, 2nat, exprs.len(),
{
    if exprs.len() > 0 {
        lemma_plain_all_index(exprs, n);
        lemma_plain_frame(exprs[0], n, env, out, sn, false, f);
        let rest = exprs.drop_first();
        let s = ev_value(exprs[0], env, out, sn, f);
        lemma_plain_frame_numbers(rest, n, env, s.out, sn, f);
        let whole = ev_numbers(exprs, env, out, sn, f);
        if whole.res is Ok {
            let f0 = s.res->Ok_0->Num_0;
            let tl = ev_numbers(rest, env, s.out, sn, f).res->Ok_0;
            assert(whole.res->Ok_0 == seq![f0] + tl);
            assert forall|i: int| 0 <= i < exprs.len() implies #[trigger] whole.res->Ok_0[i].den
                > 0 by {
                if i > 0 {
                    assert(whole.res->Ok_0[i] == tl[i - 1]);
                }
            }
        }
    }
}

/// `lemma_plain_frame` for a sequence of arguments.
proof fn lemma_plain_frame_args(
    exprs: Seq<SExpr>,
    n: Seq<char>,
    env: Bindings,
    out: Seq<Seq<char>>,
    sn: Option<Seq<char>>,
    f: nat,
)
    requires
        plain_all(exprs, n),
        nums_ok(env),
        callable(env, n),
        sn is Some ==> sn->Some_0 == "self"@,
    ensures
        crate::semantics::ev_args(exprs, env, out, sn, f).env == env,
        crate::semantics::ev_args(exprs, env, out, sn, f).res is Ok ==> forall|i: int|
            0 <= i < crate::semantics::ev_args(exprs, env, out, sn, f).res->Ok_0.len()
                ==> value_ok(#[trigger] crate::semantics::ev_args(exprs, env, out, sn, f).res->Ok_0[i]),
    decreases f, 2nat, exprs.len(),
{
    if exprs.len() > 0 {
        lemma_plain_all_index(exprs, n);
        lemma_plain_frame(exprs[0], n, env, out, sn, false, f);
        let rest = exprs.drop_first();
        let s = ev_value(exprs[0], env, out, sn, f);
        lemma_plain_frame_args(rest, n, env, s.out, sn, f);
        let whole = crate::semantics::ev_args(exprs, env, out, sn, f);
        if whole.res is Ok {
            let v0 = s.res->Ok_0;
            let tl = crate::semantics::ev_args(rest, env, s.out, sn, f).res->Ok_0;
            assert(whole.res->Ok_0 == seq![v0] + tl);
            assert forall|i: int| 0 <= i < whole.res->Ok_0.len() implies value_ok(
                #[trigger] whole.res->Ok_0[i],
            ) by {
                if i > 0 {
                    assert(whole.res->Ok_0[i] == tl[i - 1]);
                }
            }
        }
    }
}

/// A `plain` expression that succeeds gives the same result in bindings that agree
/// with its own, with more fuel, and whatever was printed before.
proof fn lemma_plain_agree(
    e: SExpr,
    n: Seq<char>,
    env1: Bindings,
    env2: Bindings,
    out1: Seq<Seq<char>>,
    out2: Seq<Seq<char>>,
    sn1: Option<Seq<char>>,
    sn2: Option<Seq<char>>,
    t1: bool,
    t2: bool,
    f1: nat,
    f2: nat,
)
    requires
        plain(e, n),
        nums_ok(env1),
        nums_ok(env2),
        callable(env1, n),
        callable(env2, n),
        agree(env1, env2),
        f1 <= f2,
        sn1 is Some ==> sn1->Some_0 == "self"@,
        sn2 is Some ==> sn2->Some_0 == "self"@,
    ensures
        ev(e, env1, out1, sn1, t1, f1).res is Ok ==> ev(e, env2, out2, sn2, t2, f2).res == ev(
            e,
            env1,
            out1,
            sn1,
            t1,
            f1,
        ).res,
    decreases f1, 1nat, 0nat,
{
    if f1 > 0 {
        lemma_names();
        match e {
            SExpr::Sym(x) => {
                assert(env1.dom().contains(x) <==> env2.dom().contains(x));
            },
            SExpr::List(items) => {
                lemma_agree_list(
                    items,
                    n,
                    env1,
                    env2,
                    out1,
                    out2,
                    sn1,
                    sn2,
                    t1,
                    t2,
                    (f1 - 1) as nat,
                    (f2 - 1) as nat,
                );
            },
            _ => {},
        }
    }
}

/// `lemma_plain_agree` for the list form.
proof fn lemma_agree_list(
    items: Seq<SExpr>,
    n: Seq<char>,
    env1: Bindings,
    env2: Bindings,
    out1: Seq<Seq<char>>,
    out2: Seq<Seq<char>>,
    sn1: Option<Seq<char>>,
    sn2: Option<Seq<char>>,
    t1: bool,
    t2: bool,
    g1: nat,
    g2: nat,
)
    requires
        plain(SExpr::List(items), n),
        nums_ok(env1),
        nums_ok(env2),
        callable(env1, n),
        callable(env2, n),
        agree(env1, env2),
        g1 <= g2,
        sn1 is Some ==> sn1->Some_0 == "self"@,
        sn2 is Some ==> sn2->Some_0 == "self"@,
    ensures
        ev_list(items, env1, out1, sn1, t1, g1).res is Ok ==> ev_list(
            items,
            env2,
            out2,
            sn2,
            t2,
            g2,
        ).res == ev_list(items, env1, out1, sn1, t1, g1).res,
    decreases g1, 4nat, 0nat,
{
    lemma_names();
    let rest = items.drop_first();
    let op = items[0]->Sym_0;
    if items[0] == SExpr::Sym("|>"@) {
        assert(rest[0] == items[1]);
        assert(rest.drop_first() =~= items.subrange(2, items.len() as int));
        lemma_agree_pipe(rest, n, env1, env2, out1, out2, sn1, sn2, g1, g2);
    } else if call_head(items[0], n) {
        lemma_agree_call(items, n, env1, env2, out1, out2, sn1, sn2, g1, g2);
    } else if is_arith_op(op) {
        if rest.len() > 0 {
            lemma_plain_agree_numbers(rest, n, env1, env2, out1, out2, sn1, sn2, g1, g2);
        }
    } else if op == "<"@ {
        lemma_agree_less(rest, n, env1, env2, out1, out2, sn1, sn2, g1, g2);
    } else if 2 <= rest.len() <= 3 {
        lemma_agree_if(rest, n, env1, env2, out1, out2, sn1, sn2, t1, t2, g1, g2);
        let c1 = ev_value(rest[0], env1, out1, sn1, g1);
        let c2 = ev_value(rest[0], env2, out2, sn2, g2);
        if c1.res is Ok {
            let o1 = c1.out;
            let o2 = c2.out;
            assert(ev(rest[1], env1, o1, sn1, t1, g1).res is Ok ==> ev(
                rest[1],
                env2,
                o2,
                sn2,
                t2,
                g2,
            ).res == ev(rest[1], env1, o1, sn1, t1, g1).res);
            if rest.len() == 3 {
                assert(ev(rest[2], env1, o1, sn1, t1, g1).res is Ok ==> ev(
                    rest[2],
                    env2,
                    o2,
                    sn2,
                    t2,
                    g2,
                ).res == ev(rest[2], env1, o1, sn1, t1, g1).res);
            }
        }
    }
}

/// `lemma_plain_frame` for a pipeline `(|> x stages..)`.
proof fn lemma_frame_pipe(
    rest: Seq<SExpr>,
    n: Seq<char>,
    env: Bindings,
    out: Seq<Seq<char>>,
    sn: Option<Seq<char>>,
    g: nat,
)
    requires
        rest.len() >= 1,
        plain(rest[0], n),
        plain_stages(rest.drop_first(), n),
        nums_ok(env),
        callable(env, n),
        sn is Some ==> sn->Some_0 == "self"@,
    ensures
        crate::semantics::ev_pipe(rest, env, out, sn, g).env == env,
        crate::semantics::ev_pipe(rest, env, out, sn, g).res is Ok ==> value_ok(
            crate::semantics::ev_pipe(rest, env, out, sn, g).res->Ok_0,
        ),
    decreases g, 5nat, 0nat,
{
    lemma_plain_frame(rest[0], n, env, out, sn, false, g);
    let s = ev_value(rest[0], env, out, sn, g);
    if s.res is Ok {
        lemma_frame_stages(rest.drop_first(), s.res->Ok_0, n, env, s.out, sn, g);
    }
}

/// `lemma_plain_frame` for the stages of a pipeline.
#[verifier::rlimit(100)]
proof fn lemma_frame_stages(
    stages: Seq<SExpr>,
    cur: SValue,
    n: Seq<char>,
    env: Bindings,
    out: Seq<Seq<char>>,
    sn: Option<Seq<char>>,
    g: nat,
)
    requires
        plain_stages(stages, n),
        value_ok(cur),
        nums_ok(env),
        callable(env, n),
        sn is Some ==> sn->Some_0 == "self"@,
    ensures
        crate::semantics::pipe_stages(stages, cur, env, out, sn, g).env == env,
        crate::semantics::pipe_stages(stages, cur, env, out, sn, g).res is Ok ==> value_ok(
            crate::semantics::pipe_stages(stages, cur, env, out, sn, g).res->Ok_0,
        ),
    decreases g, 4nat, stages.len(),
{
    if stages.len() > 0 {
        assert(plain_stage(stages[0], n));
        assert(plain_stages(stages.drop_first(), n));
        let st = stages[0]->List_0;
        let es = st.drop_first();
        assert(es =~= st.subrange(1, st.len() as int));
        let op = st[0]->Sym_0;
        assert(is_arith_op(op));
        let p = crate::semantics::pipe_stage(stages[0], cur, env, out, sn, g);
        lemma_plain_frame_numbers(es, n, env, out, sn, g);
        if cur is Num {
            let ns = ev_numbers(es, env, out, sn, g);
            if ns.res is Ok {
                let all = seq![cur->Num_0] + ns.res->Ok_0;
                assert forall|i: int| 0 <= i < all.len() implies #[trigger] all[i].den > 0 by {
                    if i > 0 {
                        assert(all[i] == ns.res->Ok_0[i - 1]);
                    }
                }
                lemma_combine_pos(st[0]->Sym_0, all);
            }
        }
        assert(p.env == env);
        if p.res is Ok {
            lemma_frame_stages(stages.drop_first(), p.res->Ok_0, n, env, p.out, sn, g);
        }
    }
}

/// `lemma_plain_agree` for a pipeline `(|> x stages..)`.
proof fn lemma_agree_pipe(
    rest: Seq<SExpr>,
    n: Seq<char>,
    env1: Bindings,
    env2: Bindings,
    out1: Seq<Seq<char>>,
    out2: Seq<Seq<char>>,
    sn1: Option<Seq<char>>,
    sn2: Option<Seq<char>>,
    g1: nat,
    g2: nat,
)
    requires
        rest.len() >= 1,
        plain(rest[0], n),
        plain_stages(rest.drop_first(), n),
        nums_ok(env1),
        nums_ok(env2),
        callable(env1, n),
        callable(env2, n),
        agree(env1, env2),
        g1 <= g2,
        sn1 is Some ==> sn1->Some_0 == "self"@,
        sn2 is Some ==> sn2->Some_0 == "self"@,
    ensures
        crate::semantics::ev_pipe(rest, env1, out1, sn1, g1).res is Ok
            ==> crate::semantics::ev_pipe(rest, env2, out2, sn2, g2).res
            == crate::semantics::ev_pipe(rest, env1, out1, sn1, g1).res,
    decreases g1, 3nat, rest.len(),
{
    lemma_plain_frame(rest[0], n, env1, out1, sn1, false, g1);
    lemma_plain_frame(rest[0], n, env2, out2, sn2, false, g2);
    lemma_plain_agree(rest[0], n, env1, env2, out1, out2, sn1, sn2, false, false, g1, g2);
    let s1 = ev_value(rest[0], env1, out1, sn1, g1);
    let s2 = ev_value(rest[0], env2, out2, sn2, g2);
    if s1.res is Ok {
        lemma_agree_stages(
            rest.drop_first(),
            s1.res->Ok_0,
            n,
            env1,
            env2,
            s1.out,
            s2.out,
            sn1,
            sn2,
            g1,
            g2,
        );
    }
}

/// `lemma_plain_agree` for the stages of a pipeline.
#[verifier::rlimit(100)]
proof fn lemma_agree_stages(
    stages: Seq<SExpr>,
    cur: SValue,
    n: Seq<char>,
    env1: Bindings,
    env2: Bindings,
    out1: Seq<Seq<char>>,
    out2: Seq<Seq<char>>,
    sn1: Option<Seq<char>>,
    sn2: Option<Seq<char>>,
    g1: nat,
    g2: nat,
)
    requires
        plain_stages(stages, n),
        value_ok(cur),
        nums_ok(env1),
        nums_ok(env2),
        callable(env1, n),
        callable(env2, n),
        agree(env1, env2),
        g1 <= g2,
        sn1 is Some ==> sn1->Some_0 == "self"@,
        sn2 is Some ==> sn2->Some_0 == "self"@,
    ensures
        crate::semantics::pipe_stages(stages, cur, env1, out1, sn1, g1).res is Ok
            ==> crate::semantics::pipe_stages(stages, cur, env2, out2, sn2, g2).res
            == crate::semantics::pipe_stages(stages, cur, env1, out1, sn1, g1).res,
    decreases g1, 3nat, stages.len(),
{
    if stages.len() > 0 {
        assert(plain_stage(stages[0], n));
        assert(plain_stages(stages.drop_first(), n));
        let st = stages[0]->List_0;
        let es = st.drop_first();
        assert(es =~= st.subrange(1, st.len() as int));
        let op = st[0]->Sym_0;
        assert(is_arith_op(op));
        lemma_plain_frame_numbers(es, n, env1, out1, sn1, g1);
        lemma_plain_frame_numbers(es, n, env2, out2, sn2, g2);
        lemma_plain_agree_numbers(es, n, env1, env2, out1, out2, sn1, sn2, g1, g2);
        lemma_frame_stages(stages, cur, n, env1, out1, sn1, g1);
        let p1 = crate::semantics::pipe_stage(stages[0], cur, env1, out1, sn1, g1);
        let p2 = crate::semantics::pipe_stage(stages[0], cur, env2, out2, sn2, g2);
        if p1.res is Ok {
            assert(p2.res == p1.res);
            assert(p1.env == env1 && p2.env == env2);
            if cur is Num {
                let ns = ev_numbers(es, env1, out1, sn1, g1);
                let all = seq![cur->Num_0] + ns.res->Ok_0;
                assert forall|i: int| 0 <= i < all.len() implies #[trigger] all[i].den > 0 by {
                    if i > 0 {
                        assert(all[i] == ns.res->Ok_0[i - 1]);
                    }
                }
                lemma_combine_pos(st[0]->Sym_0, all);
            }
            assert(value_ok(p1.res->Ok_0));
            lemma_agree_stages(
                stages.drop_first(),
                p1.res->Ok_0,
                n,
                env1,
                env2,
                p1.out,
                p2.out,
                sn1,
                sn2,
                g1,
                g2,
            );
        }
    }
}

/// `lemma_plain_agree` for a call of a function in scope.
proof fn lemma_agree_call(
    items: Seq<SExpr>,
    n: Seq<char>,
    env1: Bindings,
    env2: Bindings,
    out1: Seq<Seq<char>>,
    out2: Seq<Seq<char>>,
    sn1: Option<Seq<char>>,
    sn2: Option<Seq<char>>,
    g1: nat,
    g2: nat,
)
    requires
        items.len() >= 1,
        call_head(items[0], n),
        plain_all(items.drop_first(), n),
        nums_ok(env1),
        nums_ok(env2),
        callable(env1, n),
        callable(env2, n),
        agree(env1, env2),
        g1 <= g2,
        sn1 is Some ==> sn1->Some_0 == "self"@,
        sn2 is Some ==> sn2->Some_0 == "self"@,
    ensures
        crate::semantics::ev_call(items, env1, out1, sn1, g1).res is Ok ==> crate::semantics::ev_call(
            items,
            env2,
            out2,
            sn2,
            g2,
        ).res == crate::semantics::ev_call(items, env1, out1, sn1, g1).res,
    decreases g1, 3nat, 0nat,
{
    lemma_names();
    let rest = items.drop_first();
    let h = items[0]->Sym_0;
    assert(plain(items[0], n));
    lemma_plain_agree(items[0], n, env1, env2, out1, out2, sn1, sn2, false, false, g1, g2);
    let c1 = ev_value(items[0], env1, out1, sn1, g1);
    let c2 = ev_value(items[0], env2, out2, sn2, g2);
    if c1.res is Ok {
        assert(c1.env == env1 && c2.env == env2);
        lemma_plain_agree_args(rest, n, env1, env2, c1.out, c2.out, sn1, sn2, g1, g2);
        let a1 = crate::semantics::ev_args(rest, env1, c1.out, sn1, g1);
        let a2 = crate::semantics::ev_args(rest, env2, c2.out, sn2, g2);
        if a1.res is Ok {
            let callee = c1.res->Ok_0;
            let vs = a1.res->Ok_0;
            let r1 = crate::semantics::apply(callee, vs, a1.out, g1);
            if r1.res is Ok {
                crate::depth::lemma_apply_depth(callee, vs, a1.out, g1, g2);
                crate::outputs::lemma_apply_out(callee, vs, a1.out, a2.out, g2);
            }
        }
    }
}

/// `lemma_plain_agree` for `(< a b)`.
proof fn lemma_agree_less(
    rest: Seq<SExpr>,
    n: Seq<char>,
    env1: Bindings,
    env2: Bindings,
    out1: Seq<Seq<char>>,
    out2: Seq<Seq<char>>,
    sn1: Option<Seq<char>>,
    sn2: Option<Seq<char>>,
    g1: nat,
    g2: nat,
)
    requires
        plain_all(rest, n),
        nums_ok(env1),
        nums_ok(env2),
        callable(env1, n),
        callable(env2, n),
        agree(env1, env2),
        g1 <= g2,
        sn1 is Some ==> sn1->Some_0 == "self"@,
        sn2 is Some ==> sn2->Some_0 == "self"@,
    ensures
        ev_less(rest, env1, out1, sn1, g1).res is Ok ==> ev_less(rest, env2, out2, sn2, g2).res
            == ev_less(rest, env1, out1, sn1, g1).res,
    decreases g1, 3nat, 0nat,
{
    if rest.len() == 2 {
        lemma_plain_all_index(rest, n);
        lemma_plain_frame(rest[0], n, env1, out1, sn1, false, g1);
        lemma_plain_frame(rest[0], n, env2, out2, sn2, false, g2);
        lemma_plain_agree(rest[0], n, env1, env2, out1, out2, sn1, sn2, false, false, g1, g2);
        let l1 = ev_value(rest[0], env1, out1, sn1, g1);
        let l2 = ev_value(rest[0], env2, out2, sn2, g2);
        lemma_plain_agree(rest[1], n, env1, env2, l1.out, l2.out, sn1, sn2, false, false, g1, g2);
    }
}

/// `lemma_plain_agree` for `(if c a b)`.
proof fn lemma_agree_if(
    rest: Seq<SExpr>,
    n: Seq<char>,
    env1: Bindings,
    env2: Bindings,
    out1: Seq<Seq<char>>,
    out2: Seq<Seq<char>>,
    sn1: Option<Seq<char>>,
    sn2: Option<Seq<char>>,
    t1: bool,
    t2: bool,
    g1: nat,
    g2: nat,
)
    requires
        plain_all(rest, n),
        nums_ok(env1),
        nums_ok(env2),
        callable(env1, n),
        callable(env2, n),
        agree(env1, env2),
        g1 <= g2,
        sn1 is Some ==> sn1->Some_0 == "self"@,
        sn2 is Some ==> sn2->Some_0 == "self"@,
        2 <= rest.len() <= 3,
    ensures
        ({
            let c1 = ev_value(rest[0], env1, out1, sn1, g1);
            let c2 = ev_value(rest[0], env2, out2, sn2, g2);
            c1.res is Ok ==> c2.res == c1.res && c1.env == env1 && c2.env == env2
        }),
        forall|o1: Seq<Seq<char>>, o2: Seq<Seq<char>>|
            #![trigger ev(rest[1], env1, o1, sn1, t1, g1), ev(rest[1], env2, o2, sn2, t2, g2)]
            ev(rest[1], env1, o1, sn1, t1, g1).res is Ok ==> ev(rest[1], env2, o2, sn2, t2, g2).res
                == ev(rest[1], env1, o1, sn1, t1, g1).res,
        rest.len() == 3 ==> forall|o1: Seq<Seq<char>>, o2: Seq<Seq<char>>|
            #![trigger ev(rest[2], env1, o1, sn1, t1, g1), ev(rest[2], env2, o2, sn2, t2, g2)]
            ev(rest[2], env1, o1, sn1, t1, g1).res is Ok ==> ev(rest[2], env2, o2, sn2, t2, g2).res
                == ev(rest[2], env1, o1, sn1, t1, g1).res,
    decreases g1, 3nat, 0nat,
{
    lemma_plain_all_index(rest, n);
    lemma_plain_frame(rest[0], n, env1, out1, sn1, false, g1);
    lemma_plain_frame(rest[0], n, env2, out2, sn2, false, g2);
    lemma_plain_agree(rest[0], n, env1, env2, out1, out2, sn1, sn2, false, false, g1, g2);
    assert forall|o1: Seq<Seq<char>>, o2: Seq<Seq<char>>|
        ev(rest[1], env1, o1, sn1, t1, g1).res is Ok implies ev(
            rest[1],
            env2,
            o2,
            sn2,
            t2,
            g2,
        ).res == ev(rest[1], env1, o1, sn1, t1, g1).res by {
        lemma_plain_agree(rest[1], n, env1, env2, o1, o2, sn1, sn2, t1, t2, g1, g2);
    }
    if rest.len() == 3 {
        assert forall|o1: Seq<Seq<char>>, o2: Seq<Seq<char>>|
            ev(rest[2], env1, o1, sn1, t1, g1).res is Ok implies ev(
                rest[2],
                env2,
                o2,
                sn2,
                t2,
                g2,
            ).res == ev(rest[2], env1, o1, sn1, t1, g1).res by {
            lemma_plain_agree(rest[2], n, env1, env2, o1, o2, sn1, sn2, t1, t2, g1, g2);
        }
    }
}

/// `lemma_plain_agree` for a sequence evaluated to numbers.
proof fn lemma_plain_agree_numbers(
    exprs: Seq<SExpr>,
    n: Seq<char>,
    env1: Bindings,
    env2: Bindings,
    out1: Seq<Seq<char>>,
    out2: Seq<Seq<char>>,
    sn1: Option<Seq<char>>,
    sn2: Option<Seq<char>>,
    f1: nat,
    f2: nat,
)
    requires
        plain_all(exprs, n),
        nums_ok(env1),
        nums_ok(env2),
        callable(env1, n),
        callable(env2, n),
        agree(env1, env2),
        f1 <= f2,
        sn1 is Some ==> sn1->Some_0 == "self"@,
        sn2 is Some ==> sn2->Some_0 == "self"@,
    ensures
        ev_numbers(exprs, env1, out1, sn1, f1).res is Ok ==> ev_numbers(
            exprs,
            env2,
            out2,
            sn2,
            f2,
        ).res == ev_numbers(exprs, env1, out1, sn1, f1).res,
    decreases f1, 2nat, exprs.len(),
{
    if exprs.len() > 0 {
        lemma_plain_all_index(exprs, n);
        lemma_plain_frame(exprs[0], n, env1, out1, sn1, false, f1);
        lemma_plain_frame(exprs[0], n, env2, out2, sn2, false, f2);
        lemma_plain_agree(exprs[0], n, env1, env2, out1, out2, sn1, sn2, false, false, f1, f2);
        let s1 = ev_value(exprs[0], env1, out1, sn1, f1);
        let s2 = ev_value(exprs[0], env2, out2, sn2, f2);
        if s1.res is Ok {
            assert(s2.res == s1.res);
            assert(s1.env == env1);
            assert(s2.env == env2);
        }
        lemma_plain_agree_numbers(
            exprs.drop_first(),
            n,
            env1,
            env2,
            s1.out,
            s2.out,
            sn1,
            sn2,
            f1,
            f2,
        );
    }
}

/// `lemma_plain_agree` for a sequence of arguments.
proof fn lemma_plain_agree_args(
    exprs: Seq<SExpr>,
    n: Seq<char>,
    env1: Bindings,
    env2: Bindings,
    out1: Seq<Seq<char>>,
    out2: Seq<Seq<char>>,
    sn1: Option<Seq<char>>,
    sn2: Option<Seq<char>>,
    f1: nat,
    f2: nat,
)
    requires
        plain_all(exprs, n),
        nums_ok(env1),
        nums_ok(env2),
        callable(env1, n),
        callable(env2, n),
        agree(env1, env2),
        f1 <= f2,
        sn1 is Some ==> sn1->Some_0 == "self"@,
        sn2 is Some ==> sn2->Some_0 == "self"@,
    ensures
        crate::semantics::ev_args(exprs, env1, out1, sn1, f1).res is Ok
            ==> crate::semantics::ev_args(exprs, env2, out2, sn2, f2).res
            == crate::semantics::ev_args(exprs, env1, out1, sn1, f1).res,
    decreases f1, 2nat, exprs.len(),
{
    if exprs.len() > 0 {
        lemma_plain_all_index(exprs, n);
        lemma_plain_frame(exprs[0], n, env1, out1, sn1, false, f1);
        lemma_plain_frame(exprs[0], n, env2, out2, sn2, false, f2);
        lemma_plain_agree(exprs[0], n, env1, env2, out1, out2, sn1, sn2, false, false, f1, f2);
        let s1 = ev_value(exprs[0], env1, out1, sn1, f1);
        let s2 = ev_value(exprs[0], env2, out2, sn2, f2);
        lemma_plain_agree_args(
            exprs.drop_first(),
            n,
            env1,
            env2,
            s1.out,
            s2.out,
            sn1,
            sn2,
            f1,
            f2,
        );
    }
}

/// The sum (`plus`) or product of two fractions, before normalisation.
pub open spec fn raw_op(plus: bool, a: Frac, b: Frac) -> Frac {
    if plus {
        raw_add(a, b)
    } else {
        raw_mul(a, b)
    }
}

proof fn lemma_raw_pos(plus: bool, a: Frac, b: Frac)
    requires
        a.den > 0,
        b.den > 0,
    ensures
        raw_op(plus, a, b).den > 0,
{
    lemma_add_pos(a, b);
    lemma_mul_pos(a, b);
}

proof fn lemma_raw_comm(plus: bool, a: Frac, b: Frac)
    ensures
        raw_op(plus, a, b) == raw_op(plus, b, a),
{
    assert(a.den * b.den == b.den * a.den) by (nonlinear_arith);
    assert(a.num * b.num == b.num * a.num) by (nonlinear_arith);
    assert(a.num * b.den + b.num * a.den == b.num * a.den + a.num * b.den);
}

proof fn lemma_raw_assoc(plus: bool, x: Frac, y: Frac, z: Frac)
    ensures
        raw_op(plus, raw_op(plus, x, y), z) == raw_op(plus, x, raw_op(plus, y, z)),
{
    lemma_ring_assoc(x.num, x.den, y.num, y.den, z.num, z.den);
}

proof fn lemma_ring_assoc(a: int, b: int, c: int, d: int, e: int, f: int)
    ensures
        (b * d) * f == b * (d * f),
        (a * c) * e == a * (c * e),
        (a * d + c * b) * f + e * (b * d) == a * (d * f) + (c * f + e * d) * b,
{
    assert((b * d) * f == b * (d * f)) by (nonlinear_arith);
    assert((a * c) * e == a * (c * e)) by (nonlinear_arith);
    assert((a * d + c * b) * f == a * d * f + c * b * f) by (nonlinear_arith);
    assert((c * f + e * d) * b == c * f * b + e * d * b) by (nonlinear_arith);
    assert(a * (d * f) == a * d * f) by (nonlinear_arith);
    assert(e * (b * d) == e * d * b) by (nonlinear_arith);
    assert(c * b * f == c * f * b) by (nonlinear_arith);
}

proof fn lemma_ring_cong(a: int, b: int, a2: int, b2: int, c: int, d: int)
    requires
        a * b2 == a2 * b,
    ensures
        (a * d + c * b) * (b2 * d) == (a2 * d + c * b2) * (b * d),
        (a * c) * (b2 * d) == (a2 * c) * (b * d),
{
    assert((a * d + c * b) * (b2 * d) == (a * b2) * (d * d) + c * b * b2 * d) by (nonlinear_arith);
    assert((a2 * d + c * b2) * (b * d) == (a2 * d) * (b * d) + (c * b2) * (b * d))
        by (nonlinear_arith);
    assert((a2 * d) * (b * d) == (a2 * b) * (d * d)) by (nonlinear_arith);
    assert((c * b2) * (b * d) == c * b * b2 * d) by (nonlinear_arith);
    assert((a * c) * (b2 * d) == (a * b2) * (c * d)) by (nonlinear_arith);
    assert((a2 * c) * (b * d) == (a2 * b) * (c * d)) by (nonlinear_arith);
}

proof fn lemma_raw_cong(plus: bool, x: Frac, x2: Frac, y: Frac)
    requires
        frac_eq(x, x2),
    ensures
        frac_eq(raw_op(plus, x, y), raw_op(plus, x2, y)),
        frac_eq(raw_op(plus, y, x), raw_op(plus, y, x2)),
{
    lemma_ring_cong(x.num, x.den, x2.num, x2.den, y.num, y.den);
    lemma_raw_comm(plus, x, y);
    lemma_raw_comm(plus, x2, y);
}

/// Two-argument `+` and `*` give the raw sum or product, up to representation.
proof fn lemma_combine_two(op: Seq<char>, x: Frac, y: Frac)
    requires
        op == "+"@ || op == "*"@,
        x.den > 0,
        y.den > 0,
    ensures
        combine(op, seq![x, y]) is Ok,
        combine(op, seq![x, y])->Ok_0.den > 0,
        frac_eq(combine(op, seq![x, y])->Ok_0, raw_op(op == "+"@, x, y)),
{
    let s = seq![x, y];
    assert(s.drop_last() =~= seq![x]);
    assert(seq![x].drop_last() =~= Seq::<Frac>::empty());
    let zero = Frac { num: 0, den: 1 };
    let one = Frac { num: 1, den: 1 };
    assert(fold_add(Seq::<Frac>::empty()) == zero);
    assert(fold_mul(Seq::<Frac>::empty()) == one);
    assert(seq![x].last() == x);
    assert(s.last() == y);
    assert(fold_add(seq![x]) == frac_add(zero, x));
    assert(fold_mul(seq![x]) == frac_mul(one, x));
    assert(fold_add(s) == frac_add(frac_add(zero, x), y));
    assert(fold_mul(s) == frac_mul(frac_mul(one, x), y));
    lemma_add_pos(zero, x);
    lemma_mul_pos(one, x);
    assert(raw_add(zero, x) == x) by (nonlinear_arith)
        requires
            zero.num == 0,
            zero.den == 1,
    ;
    assert(raw_mul(one, x) == x) by (nonlinear_arith)
        requires
            one.num == 1,
            one.den == 1,
    ;
    let z = if op == "+"@ {
        frac_add(zero, x)
    } else {
        frac_mul(one, x)
    };
    assert(frac_eq(z, x));
    lemma_add_pos(z, y);
    lemma_mul_pos(z, y);
    lemma_raw_cong(op == "+"@, z, x, y);
    lemma_raw_pos(op == "+"@, z, y);
    lemma_raw_pos(op == "+"@, x, y);
    let c = combine(op, s)->Ok_0;
    assert(frac_eq(c, raw_op(op == "+"@, z, y)));
    crate::laws::law_frac_eq_equivalence(c, raw_op(op == "+"@, z, y), raw_op(op == "+"@, x, y));
}

/// `(self next)`.
pub open spec fn self_call(next: SExpr) -> SExpr {
    SExpr::List(seq![SExpr::Sym("self"@), next])
}

/// `(if c base (op step (self next)))` when `left`, else
/// `(if c base (op (self next) step))`.
pub open spec fn recursive_body(
    c: SExpr,
    base: SExpr,
    op: Seq<char>,
    step: SExpr,
    next: SExpr,
    left: bool,
) -> SExpr {
    let rec = if left {
        SExpr::List(seq![SExpr::Sym(op), step, self_call(next)])
    } else {
        SExpr::List(seq![SExpr::Sym(op), self_call(next), step])
    };
    SExpr::List(seq![SExpr::Sym("if"@), c, base, rec])
}

/// `(if c (op base acc) (self next (op acc step)))`.
pub open spec fn accumulated_body(
    c: SExpr,
    base: SExpr,
    op: Seq<char>,
    step: SExpr,
    next: SExpr,
) -> SExpr {
    let acc = SExpr::Sym(acc_name());
    let acc_base = SExpr::List(seq![SExpr::Sym(op), base, acc]);
    let next_acc = SExpr::List(seq![SExpr::Sym(op), acc, step]);
    let recur = SExpr::List(seq![SExpr::Sym("self"@), next, next_acc]);
    SExpr::List(seq![SExpr::Sym("if"@), c, acc_base, recur])
}

/// The identity of `+` or `*`.
pub open spec fn identity_of(op: Seq<char>) -> Frac {
    if op == "+"@ {
        Frac { num: 0, den: 1 }
    } else {
        Frac { num: 1, den: 1 }
    }
}

/// The self-recursive function `(fn (self n) body)` over `env`, as it would be
/// without the accumulator rewrite.
pub open spec fn direct_fn(n: Seq<char>, body: SExpr, env: Bindings) -> SLambda {
    SLambda {
        params: seq![n],
        body,
        captured: env,
        self_name: Some("self"@),
        public_arity: 1,
        auto_acc_init: None,
    }
}

/// The function with the accumulator rewrite applied.
pub open spec fn accumulated_fn(
    n: Seq<char>,
    c: SExpr,
    base: SExpr,
    op: Seq<char>,
    step: SExpr,
    next: SExpr,
    env: Bindings,
) -> SLambda {
    SLambda {
        params: seq![n, acc_name()],
        body: accumulated_body(c, base, op, step, next),
        captured: env,
        self_name: Some("self"@),
        public_arity: 1,
        auto_acc_init: Some(identity_of(op)),
    }
}

/// The bindings of one round of either function agree, and hold well-formed numbers.
proof fn lemma_round_bindings(
    n: Seq<char>,
    lo: SLambda,
    lt: SLambda,
    v: SValue,
    a: Frac,
    env: Bindings,
)
    requires
        lo.params == seq![n],
        lt.params == seq![n, acc_name()],
        lo.captured == env,
        lt.captured == env,
        lo.self_name == Some("self"@),
        lt.self_name == Some("self"@),
        n != "self"@,
        nums_ok(env),
        callable(env, n),
        value_ok(v),
        a.den > 0,
    ensures
        callable(env.insert("self"@, SValue::Lambda(lo)).insert(n, v), n),
        callable(
            env.insert("self"@, SValue::Lambda(lt)).insert(n, v).insert(
                acc_name(),
                SValue::Num(a),
            ),
            n,
        ),
        crate::semantics::call_bindings(lo, SValue::Lambda(lo), seq![v]) == env.insert(
            "self"@,
            SValue::Lambda(lo),
        ).insert(n, v),
        crate::semantics::call_bindings(lt, SValue::Lambda(lt), seq![v, SValue::Num(a)])
            == env.insert("self"@, SValue::Lambda(lt)).insert(n, v).insert(
            acc_name(),
            SValue::Num(a),
        ),
        nums_ok(env.insert("self"@, SValue::Lambda(lo)).insert(n, v)),
        nums_ok(
            env.insert("self"@, SValue::Lambda(lt)).insert(n, v).insert(
                acc_name(),
                SValue::Num(a),
            ),
        ),
        agree(
            env.insert("self"@, SValue::Lambda(lo)).insert(n, v),
            env.insert("self"@, SValue::Lambda(lt)).insert(n, v).insert(
                acc_name(),
                SValue::Num(a),
            ),
        ),
        env.insert("self"@, SValue::Lambda(lo)).insert(n, v)["self"@] == SValue::Lambda(lo),
{
    let d = env.insert("self"@, SValue::Lambda(lo)).insert(n, v);
    let t = env.insert("self"@, SValue::Lambda(lt)).insert(n, v).insert(acc_name(), SValue::Num(a));
    let args_o = seq![v];
    let args_t = seq![v, SValue::Num(a)];
    assert(crate::semantics::bind_params(
        env.insert("self"@, SValue::Lambda(lo)),
        lo.params,
        args_o,
        0,
    ) == env.insert("self"@, SValue::Lambda(lo)));
    assert(crate::semantics::bind_params(
        env.insert("self"@, SValue::Lambda(lt)),
        lt.params,
        args_t,
        0,
    ) == env.insert("self"@, SValue::Lambda(lt)));
    assert(crate::semantics::bind_params(
        env.insert("self"@, SValue::Lambda(lt)),
        lt.params,
        args_t,
        1,
    ) == env.insert("self"@, SValue::Lambda(lt)).insert(n, v));
    assert forall|x: Seq<char>|
        #[trigger] d.dom().contains(x) && x != "self"@ && x != acc_name() && x != n implies good_fn(
        d[x],
    ) by {
        assert(env.dom().contains(x));
    }
    assert forall|x: Seq<char>|
        #[trigger] t.dom().contains(x) && x != "self"@ && x != acc_name() && x != n implies good_fn(
        t[x],
    ) by {
        assert(env.dom().contains(x));
    }
    assert forall|k: Seq<char>| #[trigger] d.dom().contains(k) implies (d[k] is Num
        ==> d[k]->Num_0.den > 0) by {
        if k != n && k != "self"@ {
            assert(env.dom().contains(k));
        }
    }
    assert forall|k: Seq<char>| #[trigger] t.dom().contains(k) implies (t[k] is Num
        ==> t[k]->Num_0.den > 0) by {
        if k != n && k != "self"@ && k != acc_name() {
            assert(env.dom().contains(k));
        }
    }
}

/// The bindings of a round of the direct function.
pub open spec fn direct_env(n: Seq<char>, body: SExpr, env: Bindings, v: SValue) -> Bindings {
    env.insert("self"@, SValue::Lambda(direct_fn(n, body, env))).insert(n, v)
}

/// The bindings of a round of the rewritten function.
pub open spec fn acc_env(lt: SLambda, n: Seq<char>, env: Bindings, v: SValue, a: Frac) -> Bindings {
    env.insert("self"@, SValue::Lambda(lt)).insert(n, v).insert(acc_name(), SValue::Num(a))
}

/// `(op step (self next))` or `(op (self next) step)`.
pub open spec fn rec_form(op: Seq<char>, step: SExpr, next: SExpr, left: bool) -> SExpr {
    if left {
        SExpr::List(seq![SExpr::Sym(op), step, self_call(next)])
    } else {
        SExpr::List(seq![SExpr::Sym(op), self_call(next), step])
    }
}

/// The two numbers `op` combines in a round of the direct function.
pub open spec fn rec_pair(fs: Frac, r: Frac, left: bool) -> Seq<Frac> {
    if left {
        seq![fs, r]
    } else {
        seq![r, fs]
    }
}

/// The self-call `(self next)` in a round of the direct function: it evaluates
/// `next` (to the same value whatever was printed before) and calls the function
/// with it.
proof fn lemma_self_call(
    lo: SLambda,
    n: Seq<char>,
    next: SExpr,
    envd: Bindings,
    o: Seq<Seq<char>>,
    out: Seq<Seq<char>>,
    f3: nat,
)
    requires
        lo.auto_acc_init is None,
        lo.public_arity == 1,
        envd.dom().contains("self"@),
        envd["self"@] == SValue::Lambda(lo),
        plain(next, n),
        nums_ok(envd),
        callable(envd, n),
    ensures
        ({
            let sn = Some("self"@);
            let cv = ev_value(self_call(next), envd, o, sn, f3);
            let dn = ev_value(next, envd, out, sn, (f3 - 1) as nat);
            &&& cv.env == envd
            &&& cv.res is Ok ==> f3 >= 2 && dn.res is Ok && value_ok(dn.res->Ok_0) && cv.res
                == crate::semantics::apply_loop(
                lo,
                SValue::Lambda(lo),
                seq![dn.res->Ok_0],
                out,
                (f3 - 1) as nat,
            ).res
        }),
{
    lemma_names();
    let sn = Some("self"@);
    let lov = SValue::Lambda(lo);
    let call = self_call(next);
    let call_items = seq![SExpr::Sym("self"@), next];
    assert(call_items.drop_first() =~= seq![next]);
    assert(seq![next].drop_first() =~= Seq::<SExpr>::empty());
    assert(seq![next][0] == next);
    let cv = ev_value(call, envd, o, sn, f3);
    if f3 > 0 {
        let f4 = (f3 - 1) as nat;
        assert(ev(call, envd, o, sn, false, f3) == ev_list(call_items, envd, o, sn, false, f4));
        let cl = crate::semantics::ev_call(call_items, envd, o, sn, f4);
        assert(ev_list(call_items, envd, o, sn, false, f4) == (Step {
            res: crate::semantics::as_control(cl.res),
            env: cl.env,
            out: cl.out,
        }));
        let hv = ev_value(SExpr::Sym("self"@), envd, o, sn, f4);
        if f4 > 0 {
            assert(hv == crate::semantics::done(lov, envd, o));
            lemma_plain_frame(next, n, envd, o, sn, false, f4);
            lemma_plain_frame(next, n, envd, out, sn, false, f4);
            crate::outputs::law_output_does_not_matter(next, envd, sn, false, o, out, f4);
            let dno = ev_value(next, envd, o, sn, f4);
            let dn = ev_value(next, envd, out, sn, f4);
            assert(dno.res == dn.res);
            if dno.res is Ok {
                let vp = dno.res->Ok_0;
                assert(crate::semantics::ev_args(Seq::<SExpr>::empty(), envd, dno.out, sn, f4)
                    == crate::semantics::done(Seq::<SValue>::empty(), envd, dno.out));
                assert(seq![vp] + Seq::<SValue>::empty() =~= seq![vp]);
                assert(crate::semantics::ev_args(seq![next], envd, o, sn, f4)
                    == crate::semantics::done(seq![vp], envd, dno.out));
                assert(crate::semantics::apply(lov, seq![vp], dno.out, f4)
                    == crate::semantics::apply_loop(lo, lov, seq![vp], dno.out, f4));
                crate::outputs::lemma_apply_out(lov, seq![vp], dno.out, out, f4);
                assert(crate::semantics::apply(lov, seq![vp], out, f4)
                    == crate::semantics::apply_loop(lo, lov, seq![vp], out, f4));
            }
        }
    }
}

/// A successful recursive round of the direct function: `next` gives `vp`, `step`
/// gives `fs`, the inner call returns a number, and the round returns `op` of the two.
#[verifier::rlimit(100)]
proof fn lemma_direct_round(
    n: Seq<char>,
    c: SExpr,
    base: SExpr,
    op: Seq<char>,
    step: SExpr,
    next: SExpr,
    left: bool,
    env: Bindings,
    v: SValue,
    out: Seq<Seq<char>>,
    f2: nat,
) -> (r: (SValue, Frac))
    requires
        plain(step, n),
        plain(next, n),
        op == "+"@ || op == "*"@,
        n != "self"@,
        nums_ok(direct_env(n, recursive_body(c, base, op, step, next, left), env, v)),
        callable(direct_env(n, recursive_body(c, base, op, step, next, left), env, v), n),
        direct_env(n, recursive_body(c, base, op, step, next, left), env, v)["self"@]
            == SValue::Lambda(direct_fn(n, recursive_body(c, base, op, step, next, left), env)),
        ev(
            rec_form(op, step, next, left),
            direct_env(n, recursive_body(c, base, op, step, next, left), env, v),
            out,
            Some("self"@),
            true,
            f2,
        ).res is Ok,
    ensures
        ({
            let lo = direct_fn(n, recursive_body(c, base, op, step, next, left), env);
            let envd = direct_env(n, recursive_body(c, base, op, step, next, left), env, v);
            let sn = Some("self"@);
            let dprime = crate::semantics::apply_loop(
                lo,
                SValue::Lambda(lo),
                seq![r.0],
                out,
                (f2 - 2) as nat,
            );
            let res = ev(rec_form(op, step, next, left), envd, out, sn, true, f2);
            &&& f2 >= 2
            &&& ev(next, envd, out, sn, false, (f2 - 2) as nat).res == Ok::<SControl, SError>(
                SControl::Val(r.0),
            )
            &&& value_ok(r.0)
            &&& ev(step, envd, out, sn, false, (f2 - 1) as nat).res == Ok::<SControl, SError>(
                SControl::Val(SValue::Num(r.1)),
            )
            &&& r.1.den > 0
            &&& dprime.res is Ok
            &&& dprime.res->Ok_0 is Num
            &&& combine(op, rec_pair(r.1, dprime.res->Ok_0->Num_0, left)) is Ok
            &&& res.res == Ok::<SControl, SError>(
                SControl::Val(
                    SValue::Num(combine(op, rec_pair(r.1, dprime.res->Ok_0->Num_0, left))->Ok_0),
                ),
            )
        }),
{
    let body = recursive_body(c, base, op, step, next, left);
    let lo = direct_fn(n, body, env);
    let lov = SValue::Lambda(lo);
    let envd = direct_env(n, body, env, v);
    let sn = Some("self"@);
    lemma_names();
    let rec = rec_form(op, step, next, left);
    let f3 = (f2 - 1) as nat;
    let call = self_call(next);
    let rec_items = if left {
        seq![SExpr::Sym(op), step, call]
    } else {
        seq![SExpr::Sym(op), call, step]
    };
    let args = if left {
        seq![step, call]
    } else {
        seq![call, step]
    };
    assert(rec_items.drop_first() =~= args);
    assert(args.drop_first() =~= seq![args[1]]);
    assert(seq![args[1]].drop_first() =~= Seq::<SExpr>::empty());
    assert(f2 > 0);
    assert(ev(rec, envd, out, sn, true, f2) == ev_list(rec_items, envd, out, sn, true, f3));
    let nsd = ev_numbers(args, envd, out, sn, f3);
    assert(ev_arith(op, args, envd, out, sn, f3).res is Ok);
    assert(nsd.res is Ok);
    let s0 = ev_value(args[0], envd, out, sn, f3);
    assert(s0.res is Ok);
    let s1 = ev_value(args[1], s0.env, s0.out, sn, f3);
    // the step, wherever it stands, gives what it gives from `out`
    lemma_plain_frame(step, n, envd, out, sn, false, f3);
    let stepd = ev_value(step, envd, out, sn, f3);
    let o_call = if left {
        s0.out
    } else {
        out
    };
    lemma_self_call(lo, n, next, envd, o_call, out, f3);
    if left {
        crate::outputs::law_output_does_not_matter(step, envd, sn, false, out, out, f3);
        assert(s0.env == envd);
        assert(s1.res is Ok);
    } else {
        assert(s0.env == envd);
        lemma_plain_frame(step, n, envd, s0.out, sn, false, f3);
        crate::outputs::law_output_does_not_matter(step, envd, sn, false, s0.out, out, f3);
        assert(s1.res == stepd.res);
    }
    let f4 = (f3 - 1) as nat;
    let dn = ev_value(next, envd, out, sn, f4);
    let vp = dn.res->Ok_0;
    let dprime = crate::semantics::apply_loop(lo, lov, seq![vp], out, f4);
    assert(stepd.res is Ok);
    assert(stepd.res->Ok_0 is Num);
    let fs = stepd.res->Ok_0->Num_0;
    assert(dprime.res is Ok);
    assert(dprime.res->Ok_0 is Num);
    let rp = dprime.res->Ok_0->Num_0;
    assert(seq![fs] + Seq::<Frac>::empty() =~= seq![fs]);
    assert(seq![rp] + Seq::<Frac>::empty() =~= seq![rp]);
    if left {
        assert(nsd.res == Ok::<Seq<Frac>, SError>(seq![fs] + seq![rp]));
        assert(seq![fs] + seq![rp] =~= seq![fs, rp]);
    } else {
        assert(nsd.res == Ok::<Seq<Frac>, SError>(seq![rp] + seq![fs]));
        assert(seq![rp] + seq![fs] =~= seq![rp, fs]);
    }
    (vp, fs)
}

/// `(op base acc)` of the rewritten function, where `base` gave `fb` in the direct one.
proof fn lemma_acc_base_round(
    base: SExpr,
    n: Seq<char>,
    op: Seq<char>,
    envd: Bindings,
    envt: Bindings,
    a: Frac,
    outd: Seq<Seq<char>>,
    outt: Seq<Seq<char>>,
    f2: nat,
    g2: nat,
    fb: Frac,
)
    requires
        plain(base, n),
        op == "+"@ || op == "*"@,
        nums_ok(envd),
        nums_ok(envt),
        callable(envd, n),
        callable(envt, n),
        agree(envd, envt),
        envt.dom().contains(acc_name()),
        envt[acc_name()] == SValue::Num(a),
        a.den > 0,
        fb.den > 0,
        ev(base, envd, outd, Some("self"@), true, f2).res == Ok::<SControl, SError>(
            SControl::Val(SValue::Num(fb)),
        ),
        f2 + 1 <= g2,
    ensures
        combine(op, seq![fb, a]) is Ok,
        ev(
            SExpr::List(seq![SExpr::Sym(op), base, SExpr::Sym(acc_name())]),
            envt,
            outt,
            Some("self"@),
            true,
            g2,
        ).res == Ok::<SControl, SError>(
            SControl::Val(SValue::Num(combine(op, seq![fb, a])->Ok_0)),
        ),
{
    lemma_names();
    let sn = Some("self"@);
    let acc = SExpr::Sym(acc_name());
    let items = seq![SExpr::Sym(op), base, acc];
    let g3 = (g2 - 1) as nat;
    assert(f2 > 0);
    assert(items.drop_first() =~= seq![base, acc]);
    assert(ev(SExpr::List(items), envt, outt, sn, true, g2) == ev_list(items, envt, outt, sn, true, g3));
    lemma_plain_agree(base, n, envd, envt, outd, outt, sn, sn, true, false, f2, g3);
    lemma_plain_frame(base, n, envt, outt, sn, false, g3);
    let bv = ev_value(base, envt, outt, sn, g3);
    assert(bv.res == Ok::<SValue, SError>(SValue::Num(fb)) && bv.env == envt);
    assert(seq![base, acc].drop_first() =~= seq![acc]);
    assert(seq![acc].drop_first() =~= Seq::<SExpr>::empty());
    assert(ev_value(acc, envt, bv.out, sn, g3) == crate::semantics::done(SValue::Num(a), envt, bv.out));
    assert(seq![a] + Seq::<Frac>::empty() =~= seq![a]);
    assert(seq![acc][0] == acc);
    assert(ev_numbers(Seq::<SExpr>::empty(), envt, bv.out, sn, g3) == crate::semantics::done(
        Seq::<Frac>::empty(),
        envt,
        bv.out,
    ));
    assert(ev_numbers(seq![acc], envt, bv.out, sn, g3) == crate::semantics::done(
        seq![a],
        envt,
        bv.out,
    ));
    assert(ev_numbers(seq![base, acc], envt, outt, sn, g3).res == Ok::<Seq<Frac>, SError>(
        seq![fb] + seq![a],
    ));
    assert(seq![fb] + seq![a] =~= seq![fb, a]);
    lemma_combine_two(op, fb, a);
}

/// `(self next (op acc step))` of the rewritten function, where `next` gave `vp` and
/// `step` gave `fs` in the direct one: a self-call with `vp` and `acc op fs`.
proof fn lemma_acc_rec_round(
    op: Seq<char>,
    n: Seq<char>,
    step: SExpr,
    next: SExpr,
    envd: Bindings,
    envt: Bindings,
    a: Frac,
    outd: Seq<Seq<char>>,
    outt: Seq<Seq<char>>,
    f3: nat,
    g2: nat,
    vp: SValue,
    fs: Frac,
)
    requires
        plain(step, n),
        plain(next, n),
        op == "+"@ || op == "*"@,
        nums_ok(envd),
        nums_ok(envt),
        callable(envd, n),
        callable(envt, n),
        agree(envd, envt),
        envt.dom().contains(acc_name()),
        envt[acc_name()] == SValue::Num(a),
        a.den > 0,
        fs.den > 0,
        f3 >= 1,
        f3 + 2 <= g2,
        ev(next, envd, outd, Some("self"@), false, (f3 - 1) as nat).res == Ok::<SControl, SError>(
            SControl::Val(vp),
        ),
        ev(step, envd, outd, Some("self"@), false, f3).res == Ok::<SControl, SError>(
            SControl::Val(SValue::Num(fs)),
        ),
    ensures
        combine(op, seq![a, fs]) is Ok,
        ev(
            SExpr::List(
                seq![
                    SExpr::Sym("self"@),
                    next,
                    SExpr::List(seq![SExpr::Sym(op), SExpr::Sym(acc_name()), step]),
                ],
            ),
            envt,
            outt,
            Some("self"@),
            true,
            g2,
        ).res == Ok::<SControl, SError>(
            SControl::Tail(seq![vp, SValue::Num(combine(op, seq![a, fs])->Ok_0)]),
        ),
{
    lemma_names();
    let sn = Some("self"@);
    let acc = SExpr::Sym(acc_name());
    let next_acc = SExpr::List(seq![SExpr::Sym(op), acc, step]);
    let items = seq![SExpr::Sym("self"@), next, next_acc];
    let g3 = (g2 - 1) as nat;
    let g4 = (g3 - 1) as nat;
    assert(items.drop_first() =~= seq![next, next_acc]);
    assert(ev(SExpr::List(items), envt, outt, sn, true, g2) == ev_list(items, envt, outt, sn, true, g3));
    lemma_plain_agree(next, n, envd, envt, outd, outt, sn, sn, false, false, (f3 - 1) as nat, g3);
    lemma_plain_frame(next, n, envt, outt, sn, false, g3);
    let nv = ev_value(next, envt, outt, sn, g3);
    assert(nv.res == Ok::<SValue, SError>(vp) && nv.env == envt);
    let o1 = nv.out;
    let na_items = seq![SExpr::Sym(op), acc, step];
    assert(na_items.drop_first() =~= seq![acc, step]);
    assert(seq![acc, step].drop_first() =~= seq![step]);
    assert(seq![step].drop_first() =~= Seq::<SExpr>::empty());
    assert(ev_value(acc, envt, o1, sn, g4) == crate::semantics::done(SValue::Num(a), envt, o1));
    lemma_plain_agree(step, n, envd, envt, outd, o1, sn, sn, false, false, f3, g4);
    lemma_plain_frame(step, n, envt, o1, sn, false, g4);
    let sv = ev_value(step, envt, o1, sn, g4);
    assert(sv.res == Ok::<SValue, SError>(SValue::Num(fs)) && sv.env == envt);
    assert(seq![fs] + Seq::<Frac>::empty() =~= seq![fs]);
    assert(seq![step][0] == step);
    assert(ev_numbers(Seq::<SExpr>::empty(), envt, sv.out, sn, g4) == crate::semantics::done(
        Seq::<Frac>::empty(),
        envt,
        sv.out,
    ));
    assert(ev_numbers(seq![step], envt, o1, sn, g4).res == Ok::<Seq<Frac>, SError>(seq![fs]));
    assert(ev_numbers(seq![step], envt, o1, sn, g4).env == envt);
    assert(ev_numbers(seq![acc, step], envt, o1, sn, g4).res == Ok::<Seq<Frac>, SError>(
        seq![a] + seq![fs],
    ));
    assert(seq![a] + seq![fs] =~= seq![a, fs]);
    lemma_combine_two(op, a, fs);
    let a2 = combine(op, seq![a, fs])->Ok_0;
    assert(ev(next_acc, envt, o1, sn, false, g3) == ev_list(na_items, envt, o1, sn, false, g4));
    let nav = ev_value(next_acc, envt, o1, sn, g3);
    assert(nav.res == Ok::<SValue, SError>(SValue::Num(a2)) && nav.env == envt);
    assert(seq![next, next_acc].drop_first() =~= seq![next_acc]);
    assert(seq![next_acc].drop_first() =~= Seq::<SExpr>::empty());
    assert(seq![next_acc][0] == next_acc);
    assert(seq![SValue::Num(a2)] + Seq::<SValue>::empty() =~= seq![SValue::Num(a2)]);
    assert(crate::semantics::ev_args(Seq::<SExpr>::empty(), envt, nav.out, sn, g3)
        == crate::semantics::done(Seq::<SValue>::empty(), envt, nav.out));
    assert(crate::semantics::ev_args(seq![next_acc], envt, o1, sn, g3).res == Ok::<
        Seq<SValue>,
        SError,
    >(seq![SValue::Num(a2)]));
    assert(crate::semantics::ev_args(seq![next, next_acc], envt, outt, sn, g3).res == Ok::<
        Seq<SValue>,
        SError,
    >(seq![vp] + seq![SValue::Num(a2)]));
    assert(seq![vp] + seq![SValue::Num(a2)] =~= seq![vp, SValue::Num(a2)]);
}

/// Round by round: when the direct function returns the number `r` for `v`, the
/// rewritten one, started with accumulator `a` and more fuel, returns `a op r` (as
/// a rational), whatever either had printed before.
#[verifier::rlimit(100)]
proof fn lemma_rounds(
    n: Seq<char>,
    c: SExpr,
    base: SExpr,
    op: Seq<char>,
    step: SExpr,
    next: SExpr,
    left: bool,
    env: Bindings,
    v: SValue,
    a: Frac,
    outd: Seq<Seq<char>>,
    outt: Seq<Seq<char>>,
    f: nat,
    g: nat,
)
    requires
        plain(c, n),
        plain(base, n),
        plain(step, n),
        plain(next, n),
        op == "+"@ || op == "*"@,
        n != "self"@,
        nums_ok(env),
        callable(env, n),
        value_ok(v),
        a.den > 0,
        f + 1 <= g,
        crate::semantics::apply_loop(
            direct_fn(n, recursive_body(c, base, op, step, next, left), env),
            SValue::Lambda(direct_fn(n, recursive_body(c, base, op, step, next, left), env)),
            seq![v],
            outd,
            f,
        ).res is Ok,
        crate::semantics::apply_loop(
            direct_fn(n, recursive_body(c, base, op, step, next, left), env),
            SValue::Lambda(direct_fn(n, recursive_body(c, base, op, step, next, left), env)),
            seq![v],
            outd,
            f,
        ).res->Ok_0 is Num,
    ensures
        ({
            let lo = direct_fn(n, recursive_body(c, base, op, step, next, left), env);
            let lt = accumulated_fn(n, c, base, op, step, next, env);
            let d = crate::semantics::apply_loop(lo, SValue::Lambda(lo), seq![v], outd, f);
            let t = crate::semantics::apply_loop(
                lt,
                SValue::Lambda(lt),
                seq![v, SValue::Num(a)],
                outt,
                g,
            );
            &&& d.res->Ok_0->Num_0.den > 0
            &&& t.res is Ok
            &&& t.res->Ok_0 is Num
            &&& t.res->Ok_0->Num_0.den > 0
            &&& frac_eq(t.res->Ok_0->Num_0, raw_op(op == "+"@, a, d.res->Ok_0->Num_0))
        }),
    decreases f,
{
    let body = recursive_body(c, base, op, step, next, left);
    let lo = direct_fn(n, body, env);
    let lt = accumulated_fn(n, c, base, op, step, next, env);
    let lov = SValue::Lambda(lo);
    let ltv = SValue::Lambda(lt);
    let sn = Some("self"@);
    lemma_names();
    lemma_round_bindings(n, lo, lt, v, a, env);
    let envd = direct_env(n, body, env, v);
    let envt = acc_env(lt, n, env, v, a);
    assert(envt.dom().contains(acc_name()));
    let plus = op == "+"@;
    let d = crate::semantics::apply_loop(lo, lov, seq![v], outd, f);
    let t = crate::semantics::apply_loop(lt, ltv, seq![v, SValue::Num(a)], outt, g);
    assert(f > 0);
    let sd = ev(body, envd, outd, sn, true, (f - 1) as nat);
    let st = ev(lt.body, envt, outt, sn, true, (g - 1) as nat);
    assert(sd.res is Ok);
    assert(f > 1);
    let f2 = (f - 2) as nat;
    let g2 = (g - 2) as nat;
    let rec = rec_form(op, step, next, left);
    let items = seq![SExpr::Sym("if"@), c, base, rec];
    assert(items.drop_first() =~= seq![c, base, rec]);
    assert(sd == ev_list(items, envd, outd, sn, true, f2));
    let acc = SExpr::Sym(acc_name());
    let acc_base = SExpr::List(seq![SExpr::Sym(op), base, acc]);
    let next_acc = SExpr::List(seq![SExpr::Sym(op), acc, step]);
    let recur = SExpr::List(seq![SExpr::Sym("self"@), next, next_acc]);
    let items_t = seq![SExpr::Sym("if"@), c, acc_base, recur];
    assert(items_t.drop_first() =~= seq![c, acc_base, recur]);
    assert(st == ev_list(items_t, envt, outt, sn, true, g2));
    lemma_plain_frame(c, n, envd, outd, sn, false, f2);
    lemma_plain_frame(c, n, envt, outt, sn, false, g2);
    lemma_plain_agree(c, n, envd, envt, outd, outt, sn, sn, false, false, f2, g2);
    let cd = ev_value(c, envd, outd, sn, f2);
    let ct = ev_value(c, envt, outt, sn, g2);
    assert(cd.res is Ok);
    let cv = cd.res->Ok_0;
    assert(ct.res == Ok::<SValue, SError>(cv));
    if crate::semantics::truthy(cv) {
        lemma_plain_frame(base, n, envd, cd.out, sn, true, f2);
        crate::outputs::law_output_does_not_matter(base, envd, sn, true, cd.out, outd, f2);
        assert(sd == ev(base, envd, cd.out, sn, true, f2));
        let fb = sd.res->Ok_0->Val_0->Num_0;
        assert(d.res == Ok::<SValue, SError>(SValue::Num(fb)));
        assert(st == ev(acc_base, envt, ct.out, sn, true, g2));
        lemma_acc_base_round(base, n, op, envd, envt, a, outd, ct.out, f2, g2, fb);
        lemma_combine_two(op, fb, a);
        lemma_raw_comm(plus, fb, a);
    } else {
        assert(sd == ev(rec, envd, cd.out, sn, true, f2));
        let (vp, fs) = lemma_direct_round(n, c, base, op, step, next, left, env, v, cd.out, f2);
        let f3 = (f2 - 1) as nat;
        let f4 = (f2 - 2) as nat;
        assert(st == ev(recur, envt, ct.out, sn, true, g2));
        lemma_acc_rec_round(op, n, step, next, envd, envt, a, cd.out, ct.out, f3, g2, vp, fs);
        let a2 = combine(op, seq![a, fs])->Ok_0;
        lemma_combine_two(op, a, fs);
        let dprime = crate::semantics::apply_loop(lo, lov, seq![vp], cd.out, f4);
        let tn = crate::semantics::apply_loop(
            lt,
            ltv,
            seq![vp, SValue::Num(a2)],
            st.out,
            (g - 1) as nat,
        );
        assert(t == tn);
        lemma_rounds(
            n,
            c,
            base,
            op,
            step,
            next,
            left,
            env,
            vp,
            a2,
            cd.out,
            st.out,
            f4,
            (g - 1) as nat,
        );
        let rp = dprime.res->Ok_0->Num_0;
        let tt = tn.res->Ok_0->Num_0;
        lemma_combine_two(op, fs, rp);
        lemma_combine_two(op, rp, fs);
        lemma_raw_comm(plus, rp, fs);
        let r = d.res->Ok_0->Num_0;
        assert(r == combine(op, rec_pair(fs, rp, left))->Ok_0);
        assert(frac_eq(r, raw_op(plus, fs, rp)));
        lemma_raw_pos(plus, a, fs);
        lemma_raw_pos(plus, fs, rp);
        lemma_raw_pos(plus, a2, rp);
        lemma_raw_pos(plus, raw_op(plus, a, fs), rp);
        lemma_raw_pos(plus, a, r);
        lemma_raw_pos(plus, a, raw_op(plus, fs, rp));
        lemma_raw_cong(plus, a2, raw_op(plus, a, fs), rp);
        lemma_raw_assoc(plus, a, fs, rp);
        crate::laws::law_frac_eq_equivalence(r, raw_op(plus, fs, rp), r);
        lemma_raw_cong(plus, raw_op(plus, fs, rp), r, a);
        crate::laws::law_frac_eq_equivalence(
            tt,
            raw_op(plus, a2, rp),
            raw_op(plus, raw_op(plus, a, fs), rp),
        );
        crate::laws::law_frac_eq_equivalence(
            tt,
            raw_op(plus, a, raw_op(plus, fs, rp)),
            raw_op(plus, a, r),
        );
    }
}

/// `(fn (self n) body)` with a body of the recursive shape makes the rewritten function.
proof fn lemma_fn_makes_accumulated(
    n: Seq<char>,
    c: SExpr,
    base: SExpr,
    op: Seq<char>,
    step: SExpr,
    next: SExpr,
    left: bool,
    env: Bindings,
)
    requires
        plain(step, n),
        op == "+"@ || op == "*"@,
    ensures
        crate::semantics::make_fn(
            seq![
                SExpr::List(seq![SExpr::Sym("self"@), SExpr::Sym(n)]),
                recursive_body(c, base, op, step, next, left),
            ],
            env,
        ) == Ok::<SValue, SError>(
            SValue::Lambda(accumulated_fn(n, c, base, op, step, next, env)),
        ),
{
    lemma_names();
    reveal_strlit("__fnr_acc");
    let body = recursive_body(c, base, op, step, next, left);
    let items = seq![SExpr::Sym("self"@), SExpr::Sym(n)];
    let args = seq![SExpr::List(items), body];
    assert(!(exists|i: int| 0 <= i < items.len() && !(#[trigger] items[i] is Sym))) by {
        assert forall|i: int| 0 <= i < items.len() implies #[trigger] items[i] is Sym by {
            if i == 0 {
                assert(items[0] == SExpr::Sym("self"@));
            } else {
                assert(items[1] == SExpr::Sym(n));
            }
        }
    }
    let names = items.map_values(|e: SExpr| crate::semantics::sym_name(e));
    assert(names =~= seq!["self"@, n]);
    assert(names.drop_first() =~= seq![n]);
    let rec = rec_form(op, step, next, left);
    assert(crate::semantics::self_call_arg(self_call(next), "self"@) == Some(next));
    if !left {
        match step {
            SExpr::List(sitems) => {
                assert(sitems[0] != SExpr::Sym("self"@));
            },
            _ => {},
        }
        assert(crate::semantics::self_call_arg(step, "self"@) is None);
    }
    assert(crate::semantics::accumulate_spec(n, body, "self"@) == Some(
        (
            seq![n, acc_name()],
            accumulated_body(c, base, op, step, next),
            identity_of(op),
        ),
    ));
}

/// The accumulator rewrite keeps the result: for `(fn (self n) (if c base (op step
/// (self next))))` (or with `(op (self next) step)`), `op` one of `+` and `*`, whose
/// condition, base case, step and next argument are `plain` (they define and print
/// nothing themselves; they may use arithmetic, `<`, `if` and call functions in
/// scope), if the function without the rewrite, called with `v` under the depth
/// bound `f`, returns a number, then the function that `fn` makes returns the same
/// rational under any larger bound, whatever was printed before either call.
///
/// Well-formedness is assumed of what is in scope: its numbers have positive
/// denominators (`nums_ok`), the argument too (`value_ok`), and the functions the
/// parts call return such numbers on such arguments (`callable`), as every value a
/// program builds does.
pub proof fn law_accumulation_keeps_result(
    n: Seq<char>,
    c: SExpr,
    base: SExpr,
    op: Seq<char>,
    step: SExpr,
    next: SExpr,
    left: bool,
    env: Bindings,
    v: SValue,
    outd: Seq<Seq<char>>,
    outt: Seq<Seq<char>>,
    f: nat,
    g: nat,
)
    requires
        plain(c, n),
        plain(base, n),
        plain(step, n),
        plain(next, n),
        op == "+"@ || op == "*"@,
        n != "self"@,
        nums_ok(env),
        callable(env, n),
        value_ok(v),
        f < g,
        crate::semantics::apply(
            SValue::Lambda(direct_fn(n, recursive_body(c, base, op, step, next, left), env)),
            seq![v],
            outd,
            f,
        ).res is Ok,
        crate::semantics::apply(
            SValue::Lambda(direct_fn(n, recursive_body(c, base, op, step, next, left), env)),
            seq![v],
            outd,
            f,
        ).res->Ok_0 is Num,
    ensures
        ({
            let made = crate::semantics::make_fn(
                seq![
                    SExpr::List(seq![SExpr::Sym("self"@), SExpr::Sym(n)]),
                    recursive_body(c, base, op, step, next, left),
                ],
                env,
            );
            let d = crate::semantics::apply(
                SValue::Lambda(direct_fn(n, recursive_body(c, base, op, step, next, left), env)),
                seq![v],
                outd,
                f,
            );
            let t = crate::semantics::apply(made->Ok_0, seq![v], outt, g);
            &&& made is Ok
            &&& t.res is Ok
            &&& t.res->Ok_0 is Num
            &&& frac_eq(t.res->Ok_0->Num_0, d.res->Ok_0->Num_0)
        }),
{
    let body = recursive_body(c, base, op, step, next, left);
    let lo = direct_fn(n, body, env);
    let lt = accumulated_fn(n, c, base, op, step, next, env);
    lemma_fn_makes_accumulated(n, c, base, op, step, next, left, env);
    let init = identity_of(op);
    assert(crate::semantics::apply(SValue::Lambda(lo), seq![v], outd, f)
        == crate::semantics::apply_loop(lo, SValue::Lambda(lo), seq![v], outd, f));
    assert(seq![v].push(SValue::Num(init)) =~= seq![v, SValue::Num(init)]);
    assert(crate::semantics::apply(SValue::Lambda(lt), seq![v], outt, g)
        == crate::semantics::apply_loop(lt, SValue::Lambda(lt), seq![v, SValue::Num(init)], outt, g));
    lemma_rounds(n, c, base, op, step, next, left, env, v, init, outd, outt, f, g);
    let r = crate::semantics::apply_loop(lo, SValue::Lambda(lo), seq![v], outd, f).res->Ok_0->Num_0;
    assert(raw_op(op == "+"@, init, r) == r) by (nonlinear_arith)
        requires
            init.den == 1,
            op == "+"@ ==> init.num == 0,
            op != "+"@ ==> init.num == 1,
    ;
}

} // verus!
