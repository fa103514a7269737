//! Properties of the language that hold of every program.
use vstd::prelude::*;
use crate::syntax::{SExpr, SError, parse_spec, parse_all_spec, parse_expr_spec, tokens_of};
use crate::text::{dec_nat, dec_int, digit_char, digit_value, is_digit, all_digits, digits_value};
use crate::bigint::decimal_value;
use crate::limbs::pow_ten;
use crate::text::first_index_of;
use crate::number::{
    Frac, frac_add, frac_mul, frac_sub, frac_neg, frac_from_parts, frac_eq, frac_text, number_value,
};
use crate::eval::SValue;
use crate::semantics::{
    Bindings, SControl, ev, ev_value, ev_args, ev_numbers, ev_arith, ev_less, pipe_stage,
    pipe_stages, ev_pipe, ev_call, ev_list, run, run_all, make_fn, prepend, relay, is_arith_op,
    combine,
};

verus! {

/// Every binding in `a` is in `b` with the same value.
pub open spec fn kept(a: Bindings, b: Bindings) -> bool {
    forall|k: Seq<char>| a.dom().contains(k) ==> #[trigger] b.dom().contains(k) && b[k] == a[k]
}

proof fn lemma_kept_trans(a: Bindings, b: Bindings, c: Bindings)
    requires
        kept(a, b),
        kept(b, c),
    ensures
        kept(a, c),
{
}

proof fn lemma_kept_insert(a: Bindings, k: Seq<char>, v: SValue)
    requires
        !a.dom().contains(k),
    ensures
        kept(a, a.insert(k, v)),
{
}

/// Evaluating an expression never removes or changes a binding.
pub proof fn law_ev_keeps_bindings(
    e: SExpr,
    env: Bindings,
    out: Seq<Seq<char>>,
    sn: Option<Seq<char>>,
    tail: bool,
    fuel: nat,
)
    ensures
        kept(env, ev(e, env, out, sn, tail, fuel).env),
    decreases fuel, 0nat, 0nat,
{
    if fuel > 0 {
        match e {
            SExpr::List(items) => {
                lemma_list_keeps(items, env, out, sn, tail, (fuel - 1) as nat);
            },
            _ => {},
        }
    }
}

proof fn lemma_value_keeps(e: SExpr, env: Bindings, out: Seq<Seq<char>>, sn: Option<Seq<char>>, fuel: nat)
    ensures
        kept(env, ev_value(e, env, out, sn, fuel).env),
    decreases fuel, 1nat, 0nat,
{
    law_ev_keeps_bindings(e, env, out, sn, false, fuel);
}

proof fn lemma_args_keeps(
    exprs: Seq<SExpr>,
    env: Bindings,
    out: Seq<Seq<char>>,
    sn: Option<Seq<char>>,
    fuel: nat,
)
    ensures
        kept(env, ev_args(exprs, env, out, sn, fuel).env),
    decreases fuel, 2nat, exprs.len(),
{
    if exprs.len() > 0 {
        let s = ev_value(exprs[0], env, out, sn, fuel);
        lemma_value_keeps(exprs[0], env, out, sn, fuel);
        lemma_args_keeps(exprs.drop_first(), s.env, s.out, sn, fuel);
        lemma_kept_trans(env, s.env, ev_args(exprs.drop_first(), s.env, s.out, sn, fuel).env);
    }
}

proof fn lemma_numbers_keeps(
    exprs: Seq<SExpr>,
    env: Bindings,
    out: Seq<Seq<char>>,
    sn: Option<Seq<char>>,
    fuel: nat,
)
    ensures
        kept(env, ev_numbers(exprs, env, out, sn, fuel).env),
    decreases fuel, 2nat, exprs.len(),
{
    if exprs.len() > 0 {
        let s = ev_value(exprs[0], env, out, sn, fuel);
        lemma_value_keeps(exprs[0], env, out, sn, fuel);
        lemma_numbers_keeps(exprs.drop_first(), s.env, s.out, sn, fuel);
        lemma_kept_trans(env, s.env, ev_numbers(exprs.drop_first(), s.env, s.out, sn, fuel).env);
    }
}

proof fn lemma_arith_keeps(
    op: Seq<char>,
    args: Seq<SExpr>,
    env: Bindings,
    out: Seq<Seq<char>>,
    sn: Option<Seq<char>>,
    fuel: nat,
)
    ensures
        kept(env, ev_arith(op, args, env, out, sn, fuel).env),
    decreases fuel, 3nat, 0nat,
{
    lemma_numbers_keeps(args, env, out, sn, fuel);
}

proof fn lemma_less_keeps(
    args: Seq<SExpr>,
    env: Bindings,
    out: Seq<Seq<char>>,
    sn: Option<Seq<char>>,
    fuel: nat,
)
    ensures
        kept(env, ev_less(args, env, out, sn, fuel).env),
    decreases fuel, 3nat, 0nat,
{
    if args.len() == 2 {
        let l = ev_value(args[0], env, out, sn, fuel);
        lemma_value_keeps(args[0], env, out, sn, fuel);
        lemma_value_keeps(args[1], l.env, l.out, sn, fuel);
        lemma_kept_trans(env, l.env, ev_value(args[1], l.env, l.out, sn, fuel).env);
    }
}

proof fn lemma_stage_keeps(
    stage: SExpr,
    input: SValue,
    env: Bindings,
    out: Seq<Seq<char>>,
    sn: Option<Seq<char>>,
    fuel: nat,
)
    ensures
        kept(env, pipe_stage(stage, input, env, out, sn, fuel).env),
    decreases fuel, 3nat, 0nat,
{
    match stage {
        SExpr::List(items) => {
            if items.len() > 0 {
                lemma_numbers_keeps(items.drop_first(), env, out, sn, fuel);
            }
        },
        _ => {},
    }
}

proof fn lemma_stages_keeps(
    stages: Seq<SExpr>,
    cur: SValue,
    env: Bindings,
    out: Seq<Seq<char>>,
    sn: Option<Seq<char>>,
    fuel: nat,
)
    ensures
        kept(env, pipe_stages(stages, cur, env, out, sn, fuel).env),
    decreases fuel, 4nat, stages.len(),
{
    if stages.len() > 0 {
        let s = pipe_stage(stages[0], cur, env, out, sn, fuel);
        lemma_stage_keeps(stages[0], cur, env, out, sn, fuel);
        if s.res is Ok {
            lemma_stages_keeps(stages.drop_first(), s.res->Ok_0, s.env, s.out, sn, fuel);
            lemma_kept_trans(
                env,
                s.env,
                pipe_stages(stages.drop_first(), s.res->Ok_0, s.env, s.out, sn, fuel).env,
            );
        }
    }
}

proof fn lemma_pipe_keeps(
    stages: Seq<SExpr>,
    env: Bindings,
    out: Seq<Seq<char>>,
    sn: Option<Seq<char>>,
    fuel: nat,
)
    ensures
        kept(env, ev_pipe(stages, env, out, sn, fuel).env),
    decreases fuel, 5nat, 0nat,
{
    if stages.len() > 0 {
        let s = ev_value(stages[0], env, out, sn, fuel);
        lemma_value_keeps(stages[0], env, out, sn, fuel);
        if s.res is Ok {
            lemma_stages_keeps(stages.drop_first(), s.res->Ok_0, s.env, s.out, sn, fuel);
            lemma_kept_trans(
                env,
                s.env,
                pipe_stages(stages.drop_first(), s.res->Ok_0, s.env, s.out, sn, fuel).env,
            );
        }
    }
}

proof fn lemma_call_keeps(
    items: Seq<SExpr>,
    env: Bindings,
    out: Seq<Seq<char>>,
    sn: Option<Seq<char>>,
    fuel: nat,
)
    ensures
        kept(env, ev_call(items, env, out, sn, fuel).env),
    decreases fuel, 3nat, 0nat,
{
    if items.len() > 0 {
        let c = ev_value(items[0], env, out, sn, fuel);
        lemma_value_keeps(items[0], env, out, sn, fuel);
        lemma_args_keeps(items.drop_first(), c.env, c.out, sn, fuel);
        lemma_kept_trans(env, c.env, ev_args(items.drop_first(), c.env, c.out, sn, fuel).env);
    }
}

proof fn lemma_list_keeps(
    items: Seq<SExpr>,
    env: Bindings,
    out: Seq<Seq<char>>,
    sn: Option<Seq<char>>,
    tail: bool,
    fuel: nat,
)
    ensures
        kept(env, ev_list(items, env, out, sn, tail, fuel).env),
    decreases fuel, 6nat, 0nat,
{
    if items.len() > 0 {
        let rest = items.drop_first();
        lemma_args_keeps(rest, env, out, sn, fuel);
        lemma_arith_keeps(items[0]->Sym_0, rest, env, out, sn, fuel);
        lemma_less_keeps(rest, env, out, sn, fuel);
        lemma_pipe_keeps(rest, env, out, sn, fuel);
        lemma_call_keeps(items, env, out, sn, fuel);
        if rest.len() >= 1 {
            lemma_value_keeps(rest[0], env, out, sn, fuel);
            let c = ev_value(rest[0], env, out, sn, fuel);
            if rest.len() >= 2 {
                law_ev_keeps_bindings(rest[1], c.env, c.out, sn, tail, fuel);
                lemma_kept_trans(env, c.env, ev(rest[1], c.env, c.out, sn, tail, fuel).env);
                lemma_value_keeps(rest[1], env, out, sn, fuel);
                let d = ev_value(rest[1], env, out, sn, fuel);
                if rest[0] is Sym && d.res is Ok && !d.env.dom().contains(rest[0]->Sym_0) {
                    lemma_kept_insert(d.env, rest[0]->Sym_0, d.res->Ok_0);
                    lemma_kept_trans(env, d.env, d.env.insert(rest[0]->Sym_0, d.res->Ok_0));
                }
            }
            if rest.len() >= 3 {
                law_ev_keeps_bindings(rest[2], c.env, c.out, sn, tail, fuel);
                lemma_kept_trans(env, c.env, ev(rest[2], c.env, c.out, sn, tail, fuel).env);
            }
        }
    }
}

/// A top-level evaluation never removes or changes a binding.
pub proof fn law_run_keeps_bindings(e: SExpr, env: Bindings, out: Seq<Seq<char>>)
    ensures
        kept(env, run(e, env, out).env),
{
    law_ev_keeps_bindings(e, env, out, None, true, crate::semantics::EVAL_FUEL as nat);
}

/// Whether a symbol is read as a literal rather than looked up.
pub open spec fn is_literal_name(name: Seq<char>) -> bool {
    name == "true"@ || name == "false"@ || name == "nil"@ || (name.len() > 1 && name[0] == ':')
}

/// The form `(define key e)`.
pub open spec fn define_form(key: Seq<char>, e: SExpr) -> SExpr {
    SExpr::List(seq![SExpr::Sym("define"@), SExpr::Sym(key), e])
}

/// After a successful `(define key e)`, evaluating `key` gives the defined value
/// (for names that are not literals).
pub proof fn law_define_then_lookup(key: Seq<char>, e: SExpr, env: Bindings)
    requires
        !is_literal_name(key),
        run(define_form(key, e), env, Seq::empty()).res is Ok,
    ensures
        run(SExpr::Sym(key), run(define_form(key, e), env, Seq::empty()).env, Seq::empty()).res
            == run(define_form(key, e), env, Seq::empty()).res,
{
    let items = seq![SExpr::Sym("define"@), SExpr::Sym(key), e];
    assert(items.drop_first() =~= seq![SExpr::Sym(key), e]);
}

/// `(define key e)` for a name already bound fails, and the binding stays as it was.
pub proof fn law_redefine_rejected(key: Seq<char>, e: SExpr, env: Bindings)
    requires
        env.dom().contains(key),
    ensures
        run(define_form(key, e), env, Seq::empty()).res is Err,
        run(define_form(key, e), env, Seq::empty()).env.dom().contains(key),
        run(define_form(key, e), env, Seq::empty()).env[key] == env[key],
{
    let items = seq![SExpr::Sym("define"@), SExpr::Sym(key), e];
    let rest = seq![SExpr::Sym(key), e];
    assert(items.drop_first() =~= rest);
    let fuel = (crate::semantics::EVAL_FUEL - 1) as nat;
    lemma_value_keeps(e, env, Seq::empty(), None, fuel);
    law_run_keeps_bindings(define_form(key, e), env, Seq::empty());
}

/// A pipeline stage `(op ys...)` with an arithmetic operator applied to `x` is the
/// call `(op x ys...)`.
pub proof fn law_pipe_is_prefix_call(
    op: Seq<char>,
    x: SExpr,
    ys: Seq<SExpr>,
    env: Bindings,
    out: Seq<Seq<char>>,
    sn: Option<Seq<char>>,
    fuel: nat,
)
    requires
        is_arith_op(op),
    ensures
        ev_pipe(seq![x, SExpr::List(seq![SExpr::Sym(op)] + ys)], env, out, sn, fuel) == ev_arith(
            op,
            seq![x] + ys,
            env,
            out,
            sn,
            fuel,
        ),
{
    let stage = SExpr::List(seq![SExpr::Sym(op)] + ys);
    let stages = seq![x, stage];
    let args = seq![x] + ys;
    assert(args[0] == x);
    assert(args.drop_first() =~= ys);
    assert(stages.drop_first() =~= seq![stage]);
    assert((seq![SExpr::Sym(op)] + ys).drop_first() =~= ys);
    assert(seq![stage].drop_first() =~= Seq::<SExpr>::empty());
    let s = ev_value(x, env, out, sn, fuel);
    match s.res {
        Ok(SValue::Num(f)) => {
            let inner = ev_numbers(ys, s.env, s.out, sn, fuel);
            match inner.res {
                Ok(ns) => {
                    assert(prepend(seq![f], inner).res == Ok::<Seq<crate::number::Frac>, SError>(
                        seq![f] + ns,
                    ));
                },
                Err(_) => {},
            }
        },
        _ => {},
    }
}

proof fn lemma_digit_char(d: nat)
    requires
        d < 10,
    ensures
        is_digit(digit_char(d)),
        digit_value(digit_char(d)) == d,
{
}

proof fn lemma_dec_nat(n: nat)
    ensures
        dec_nat(n).len() >= 1,
        all_digits(dec_nat(n)),
        digits_value(dec_nat(n)) == n,
    decreases n,
{
    if n < 10 {
        lemma_digit_char(n);
        let s = dec_nat(n);
        assert(s.drop_last() =~= Seq::<char>::empty());
        assert(digits_value(s.drop_last()) == 0);
        assert(s.last() == digit_char(n));
        assert(digits_value(s) == 10 * digits_value(s.drop_last()) + digit_value(s.last()));
    } else {
        lemma_dec_nat(n / 10);
        lemma_digit_char(n % 10);
        let s = dec_nat(n);
        let p = dec_nat(n / 10);
        assert(s.drop_last() =~= p);
        assert forall|i: int| 0 <= i < s.len() implies #[trigger] is_digit(s[i]) by {
            if i < p.len() {
                assert(s[i] == p[i]);
            }
        }
        assert(s.last() == digit_char(n % 10));
        assert(digits_value(s) == 10 * digits_value(p) + digit_value(s.last()));
        assert(n == 10 * (n / 10) + n % 10);
    }
}

/// Reading back the decimal rendering of an integer gives the integer.
pub proof fn law_decimal_roundtrip(v: int)
    ensures
        decimal_value(dec_int(v)) == Some(v),
{
    if v < 0 {
        let m = (-v) as nat;
        lemma_dec_nat(m);
        let s = dec_int(v);
        assert(s[0] == '-');
        assert(s.drop_first() =~= dec_nat(m));
    } else {
        let m = v as nat;
        lemma_dec_nat(m);
        let s = dec_int(v);
        assert(is_digit(s[0]));
    }
}

/// Reading back the rendering of an integer-valued number gives the number.
pub proof fn law_integer_text_roundtrip(v: int)
    ensures
        number_value(frac_text(Frac { num: v, den: 1 })) == Some(Frac { num: v, den: 1 }),
{
    law_decimal_roundtrip(v);
}

/// Addition of fractions is commutative, representation and all.
pub proof fn law_add_commutative(a: Frac, b: Frac)
    ensures
        frac_add(a, b) == frac_add(b, a),
{
    assert(a.num * b.den + b.num * a.den == b.num * a.den + a.num * b.den);
    assert(a.den * b.den == b.den * a.den) by (nonlinear_arith);
}

/// Multiplication of fractions is commutative, representation and all.
pub proof fn law_mul_commutative(a: Frac, b: Frac)
    ensures
        frac_mul(a, b) == frac_mul(b, a),
{
    assert(a.num * b.num == b.num * a.num) by (nonlinear_arith);
    assert(a.den * b.den == b.den * a.den) by (nonlinear_arith);
}

/// Numeric equality of fractions with positive denominators is an equivalence.
pub proof fn law_frac_eq_equivalence(a: Frac, b: Frac, c: Frac)
    requires
        a.den > 0,
        b.den > 0,
        c.den > 0,
    ensures
        frac_eq(a, a),
        frac_eq(a, b) == frac_eq(b, a),
        frac_eq(a, b) && frac_eq(b, c) ==> frac_eq(a, c),
{
    assert(a.num * a.den == a.num * a.den);
    if frac_eq(a, b) && frac_eq(b, c) {
        assert(a.num * c.den == c.num * a.den) by (nonlinear_arith)
            requires
                a.num * b.den == b.num * a.den,
                b.num * c.den == c.num * b.den,
                b.den > 0,
        {
            assert((a.num * c.den) * b.den == (a.num * b.den) * c.den);
            assert((a.num * b.den) * c.den == (b.num * a.den) * c.den);
            assert((b.num * a.den) * c.den == (b.num * c.den) * a.den);
            assert((b.num * c.den) * a.den == (c.num * b.den) * a.den);
            assert((c.num * b.den) * a.den == (c.num * a.den) * b.den);
        }
    }
}

/// Subtracting what was added gives back the starting number (as a rational).
pub proof fn law_sub_undoes_add(a: Frac, b: Frac)
    requires
        a.den > 0,
        b.den > 0,
    ensures
        frac_eq(frac_sub(frac_add(a, b), b), a),
{
    let n = a.num * b.den + b.num * a.den;
    let d = a.den * b.den;
    assert(d > 0) by (nonlinear_arith)
        requires
            d == a.den * b.den,
            a.den > 0,
            b.den > 0,
    ;
    let s = frac_add(a, b);
    if n == 0 {
        assert(s == Frac { num: 0, den: 1 });
        let r = frac_sub(s, b);
        assert(frac_neg(b).num == -b.num);
        assert(s.num * b.den + (-b.num) * s.den == -b.num) by (nonlinear_arith)
            requires
                s.num == 0,
                s.den == 1,
        ;
        assert(s.den * b.den == b.den);
        assert(r.num * a.den == a.num * r.den) by (nonlinear_arith)
            requires
                n == a.num * b.den + b.num * a.den,
                n == 0,
                b.den > 0,
                r == frac_from_parts(-b.num, b.den).unwrap(),
        {
            if b.num == 0 {
                assert(a.num * b.den == 0);
                assert(a.num == 0);
            }
        }
    } else {
        assert(s == Frac { num: n, den: d });
        let rn = n * b.den + (-b.num) * d;
        let rd = d * b.den;
        assert(rn == a.num * (b.den * b.den)) by (nonlinear_arith)
            requires
                n == a.num * b.den + b.num * a.den,
                d == a.den * b.den,
                rn == n * b.den + (-b.num) * d,
        ;
        assert(rd == a.den * (b.den * b.den)) by (nonlinear_arith)
            requires
                d == a.den * b.den,
                rd == d * b.den,
        ;
        assert(b.den * b.den > 0) by (nonlinear_arith)
            requires
                b.den > 0,
        ;
        assert(rd > 0) by (nonlinear_arith)
            requires
                rd == a.den * (b.den * b.den),
                a.den > 0,
                b.den * b.den > 0,
        ;
        let r = frac_sub(s, b);
        assert(r == frac_from_parts(rn, rd).unwrap());
        if rn == 0 {
            assert(a.num == 0) by (nonlinear_arith)
                requires
                    rn == a.num * (b.den * b.den),
                    rn == 0,
                    b.den * b.den > 0,
            ;
            assert(r.num * a.den == a.num * r.den);
        } else {
            assert(r == Frac { num: rn, den: rd });
            assert(rn * a.den == a.num * rd) by (nonlinear_arith)
                requires
                    rn == a.num * (b.den * b.den),
                    rd == a.den * (b.den * b.den),
            ;
        }
    }
}

/// A source text holding one expression reads, as a program, as that single
/// expression, and runs as a program exactly as the expression runs alone.
pub proof fn law_single_expression_program(src: Seq<char>, env: Bindings, out: Seq<Seq<char>>)
    requires
        parse_spec(src) is Ok,
    ensures
        parse_all_spec(tokens_of(src), 0, Seq::empty()) == Ok::<Seq<SExpr>, SError>(
            seq![parse_spec(src)->Ok_0],
        ),
        run_all(seq![parse_spec(src)->Ok_0], env, out, SValue::Nil) == run(
            parse_spec(src)->Ok_0,
            env,
            out,
        ),
{
    let toks = tokens_of(src);
    let x = parse_spec(src)->Ok_0;
    assert(parse_expr_spec(toks, 0) == Ok::<(SExpr, int), SError>((x, toks.len() as int)));
    assert(Seq::<SExpr>::empty().push(x) =~= seq![x]);
    assert(parse_all_spec(toks, toks.len() as int, seq![x]) == Ok::<Seq<SExpr>, SError>(seq![x]));
    assert(seq![x].drop_first() =~= Seq::<SExpr>::empty());
    let r = run(x, env, out);
    match r.res {
        Ok(v) => {
            assert(run_all(Seq::<SExpr>::empty(), r.env, r.out, v) == r);
        },
        Err(_) => {
            assert(crate::semantics::relay::<SValue, SValue>(r) == r);
        },
    }
}

/// `a` is below `b`, as `Number::cmp` and `<` compare (cross-multiplied).
pub open spec fn frac_less(a: Frac, b: Frac) -> bool {
    a.num * b.den < b.num * a.den
}

/// The order of numbers is a strict total order that agrees with their equality:
/// of `a < b`, `a = b` and `b < a` exactly one holds, and `<` is transitive, also
/// across equal numbers.
pub proof fn law_number_order(a: Frac, b: Frac, c: Frac)
    requires
        a.den > 0,
        b.den > 0,
        c.den > 0,
    ensures
        frac_less(a, b) || frac_eq(a, b) || frac_less(b, a),
        !(frac_less(a, b) && frac_eq(a, b)),
        !(frac_less(a, b) && frac_less(b, a)),
        frac_less(a, b) && frac_less(b, c) ==> frac_less(a, c),
        frac_less(a, b) && frac_eq(b, c) ==> frac_less(a, c),
{
    if frac_less(a, b) && frac_less(b, c) {
        assert(a.num * c.den < c.num * a.den) by (nonlinear_arith)
            requires
                a.num * b.den < b.num * a.den,
                b.num * c.den < c.num * b.den,
                a.den > 0,
                b.den > 0,
                c.den > 0,
        {
            assert((a.num * b.den) * c.den < (b.num * a.den) * c.den);
            assert((b.num * c.den) * a.den < (c.num * b.den) * a.den);
            assert((a.num * c.den) * b.den < (c.num * a.den) * b.den);
        }
    }
    if frac_less(a, b) && frac_eq(b, c) {
        assert(a.num * c.den < c.num * a.den) by (nonlinear_arith)
            requires
                a.num * b.den < b.num * a.den,
                b.num * c.den == c.num * b.den,
                a.den > 0,
                b.den > 0,
                c.den > 0,
        {
            assert((a.num * b.den) * c.den < (b.num * a.den) * c.den);
            assert((b.num * c.den) * a.den == (c.num * b.den) * a.den);
            assert((a.num * c.den) * b.den < (c.num * a.den) * b.den);
        }
    }
}

/// An optional sign: nothing, `+` or `-`.
pub open spec fn sign_ok(sg: Seq<char>) -> bool {
    sg.len() == 0 || sg == seq!['+'] || sg == seq!['-']
}

/// `m` with the sign `sg`.
pub open spec fn signed(sg: Seq<char>, m: int) -> int {
    if sg == seq!['-'] {
        -m
    } else {
        m
    }
}

proof fn lemma_first_index_at(p: Seq<char>, q: Seq<char>, c: char)
    requires
        forall|i: int| 0 <= i < p.len() ==> #[trigger] p[i] != c,
    ensures
        first_index_of(p + seq![c] + q, c) == Some(p.len() as int),
    decreases p.len(),
{
    let s = p + seq![c] + q;
    if p.len() > 0 {
        let p1 = p.drop_first();
        assert forall|i: int| 0 <= i < p1.len() implies #[trigger] p1[i] != c by {
            assert(p1[i] == p[i + 1]);
        }
        lemma_first_index_at(p1, q, c);
        assert(s.drop_first() =~= p1 + seq![c] + q);
        assert(s[0] == p[0]);
    } else {
        assert(s[0] == c);
    }
}

proof fn lemma_first_index_found(s: Seq<char>, c: char)
    requires
        first_index_of(s, c) is Some,
    ensures
        0 <= first_index_of(s, c)->Some_0 < s.len(),
        s[first_index_of(s, c)->Some_0] == c,
    decreases s.len(),
{
    if s[0] != c {
        lemma_first_index_found(s.drop_first(), c);
    }
}

/// Numerals read as numbers: an optional sign followed by digits is that integer,
/// and an optional sign, digits, a point and digits is the decimal fraction over the
/// power of ten of its fraction digits (zero as `0/1`).
pub proof fn law_numeral_forms(sg: Seq<char>, d1: Seq<char>, d2: Seq<char>)
    requires
        sign_ok(sg),
        d1.len() > 0,
        all_digits(d1),
        d2.len() > 0,
        all_digits(d2),
    ensures
        number_value(sg + d1) == Some(Frac { num: signed(sg, digits_value(d1) as int), den: 1 }),
        number_value(sg + d1 + seq!['.'] + d2) == crate::number::frac_from_parts(
            signed(sg, (digits_value(d1) * pow_ten(d2.len())) as int + digits_value(d2)),
            pow_ten(d2.len()) as int,
        ),
{
    let s1 = sg + d1;
    assert(is_digit(d1[0]));
    if sg.len() == 0 {
        assert(s1 =~= d1);
    } else {
        assert(s1[0] == sg[0]);
        assert(s1.drop_first() =~= d1);
    }
    let s2 = sg + d1 + seq!['.'] + d2;
    let p = sg + d1;
    assert(s2 =~= p + seq!['.'] + d2);
    assert forall|i: int| 0 <= i < p.len() implies #[trigger] p[i] != '.' by {
        if i >= sg.len() {
            assert(p[i] == d1[i - sg.len()]);
            assert(is_digit(d1[i - sg.len()]));
        }
    }
    lemma_first_index_at(p, d2, '.');
    let k = p.len() as int;
    assert(s2.take(k) =~= p);
    assert(s2.skip(k + 1) =~= d2);
    // the whole text is no integer: it holds a point
    let rest = if s2[0] == '-' || s2[0] == '+' {
        s2.drop_first()
    } else {
        s2
    };
    if sg.len() == 0 {
        assert(s2[0] == d1[0]);
        assert(rest[k] == '.');
    } else {
        assert(rest[k - 1] == '.');
    }
    if sg.len() == 0 {
        assert(!is_digit(rest[k]));
    } else {
        assert(!is_digit(rest[k - 1]));
    }
    assert(!all_digits(rest));
    if sg.len() == 0 {
        assert(p[0] == d1[0]);
        assert(p =~= d1);
    } else {
        assert(p[0] == sg[0]);
        assert(p.drop_first() =~= d1);
    }
}

/// `s` is the sign `sg` and the digits `d1`, or those, a point and the digits `d2`.
pub open spec fn numeral(s: Seq<char>, sg: Seq<char>, d1: Seq<char>, d2: Seq<char>) -> bool {
    sign_ok(sg) && d1.len() > 0 && all_digits(d1) && (s == sg + d1 || (d2.len() > 0 && all_digits(
        d2,
    ) && s == sg + d1 + seq!['.'] + d2))
}

/// Nothing else reads as a number: a token that does is an optional sign followed
/// by digits, optionally followed by a point and more digits.
pub proof fn law_numeral_only(s: Seq<char>)
    requires
        number_value(s) is Some,
    ensures
        exists|sg: Seq<char>, d1: Seq<char>, d2: Seq<char>| #[trigger] numeral(s, sg, d1, d2),
{
    if decimal_value(s) is Some {
        let sg = if s[0] == '-' || s[0] == '+' {
            s.take(1)
        } else {
            Seq::<char>::empty()
        };
        let d1 = if s[0] == '-' || s[0] == '+' {
            s.drop_first()
        } else {
            s
        };
        assert(s =~= sg + d1);
        if s[0] == '-' {
            assert(sg =~= seq!['-']);
        } else if s[0] == '+' {
            assert(sg =~= seq!['+']);
        }
        assert(numeral(s, sg, d1, d1));
    } else {
        lemma_first_index_found(s, '.');
        let k = first_index_of(s, '.')->Some_0;
        let ip = s.take(k);
        let d2 = s.skip(k + 1);
        let sg = if ip[0] == '-' || ip[0] == '+' {
            ip.take(1)
        } else {
            Seq::<char>::empty()
        };
        let d1 = if ip[0] == '-' || ip[0] == '+' {
            ip.drop_first()
        } else {
            ip
        };
        assert(ip =~= sg + d1);
        if ip[0] == '-' {
            assert(sg =~= seq!['-']);
        } else if ip[0] == '+' {
            assert(sg =~= seq!['+']);
        }
        assert(s =~= sg + d1 + seq!['.'] + d2);
        assert(numeral(s, sg, d1, d2));
    }
}

/// `s` is the sign `sg` followed by the digits `d`.
pub open spec fn integer_numeral(s: Seq<char>, sg: Seq<char>, d: Seq<char>) -> bool {
    sign_ok(sg) && d.len() > 0 && all_digits(d) && s == sg + d
}

/// What reads as an integer (`BigInt::parse_decimal`) is exactly an optional sign
/// followed by at least one digit, and its value is the signed value of the digits.
pub proof fn law_decimal_forms(s: Seq<char>, sg: Seq<char>, d: Seq<char>)
    ensures
        integer_numeral(s, sg, d) ==> decimal_value(s) == Some(signed(sg, digits_value(d) as int)),
        decimal_value(s) is Some ==> exists|sg2: Seq<char>, d2: Seq<char>|
            #[trigger] integer_numeral(s, sg2, d2),
{
    if integer_numeral(s, sg, d) {
        assert(is_digit(d[0]));
        if sg.len() == 0 {
            assert(s =~= d);
        } else {
            assert(s[0] == sg[0]);
            assert(s.drop_first() =~= d);
        }
    }
    if decimal_value(s) is Some {
        let sg2 = if s[0] == '-' || s[0] == '+' {
            s.take(1)
        } else {
            Seq::<char>::empty()
        };
        let d2 = if s[0] == '-' || s[0] == '+' {
            s.drop_first()
        } else {
            s
        };
        assert(s =~= sg2 + d2);
        if s[0] == '-' {
            assert(sg2 =~= seq!['-']);
        } else if s[0] == '+' {
            assert(sg2 =~= seq!['+']);
        }
        assert(integer_numeral(s, sg2, d2));
    }
}

/// `k` zeros.
pub open spec fn zeros(k: nat) -> Seq<char> {
    Seq::new(k, |i: int| '0')
}

/// The decimal text of `10^k` (`BigInt::pow10(k).to_decimal()`) is `1` followed by
/// `k` zeros.
pub proof fn law_power_of_ten_text(k: nat)
    ensures
        dec_int(pow_ten(k) as int) == seq!['1'] + zeros(k),
    decreases k,
{
    crate::limbs::lemma_pow_ten_pos(k);
    if k == 0 {
        assert(seq!['1'] + zeros(0) =~= seq!['1']);
    } else {
        law_power_of_ten_text((k - 1) as nat);
        let p = pow_ten((k - 1) as nat);
        crate::limbs::lemma_pow_ten_pos((k - 1) as nat);
        let n = pow_ten(k);
        assert(n == 10 * p);
        assert(n / 10 == p && n % 10 == 0);
        assert(dec_nat(n) == dec_nat(p).push(digit_char(0)));
        assert((seq!['1'] + zeros((k - 1) as nat)).push('0') =~= seq!['1'] + zeros(k));
    }
}

} // verus!
