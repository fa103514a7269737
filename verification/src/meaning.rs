//! What the basic operations mean, stated through other operations: `<` agrees
//! with subtraction and with the order of integers, division undoes
//! multiplication, printed literals read back as themselves, a call binds each
//! parameter to the argument in its position, `if` takes its first branch for
//! every value but `false` and `nil`, and on integers the arithmetic forms are
//! the sums, products and differences of integers.
use vstd::prelude::*;
use crate::number::{Frac, frac_sub, frac_mul, frac_eq};
use crate::syntax::{SExpr, SError};
use crate::eval::{SValue, SLambda};
use crate::semantics::{
    Bindings, SControl, ev, ev_list, ev_less, ev_value, done, value_text, combine, call_bindings,
    bind_params,
};
use crate::laws::is_literal_name;

verus! {

proof fn lemma_literal_names()
    ensures
        "true"@ != "false"@,
        "true"@ != "nil"@,
        "false"@ != "nil"@,
        "true"@[0] != ':',
        "false"@[0] != ':',
        "nil"@[0] != ':',
        "if"@ != "define"@,
        !crate::semantics::is_arith_op("if"@),
        "if"@ != "<"@,
        "<"@ != "define"@,
        !crate::semantics::is_arith_op("<"@),
        "/"@ != "+"@,
        "/"@ != "*"@,
        "/"@ != "-"@,
        "*"@ != "+"@,
        "-"@ != "+"@,
        "-"@ != "*"@,
{
    reveal_strlit("true");
    reveal_strlit("false");
    reveal_strlit("nil");
    reveal_strlit("if");
    reveal_strlit("define");
    reveal_strlit("<");
    reveal_strlit("+");
    reveal_strlit("-");
    reveal_strlit("*");
    reveal_strlit("/");
    assert("true"@.len() == 4 && "true"@[0] == 't');
    assert("false"@.len() == 5 && "false"@[0] == 'f');
    assert("nil"@.len() == 3 && "nil"@[0] == 'n');
    assert("if"@.len() == 2 && "if"@[0] == 'i');
    assert("define"@.len() == 6);
    assert("<"@.len() == 1 && "<"@[0] == '<');
    assert("+"@.len() == 1 && "+"@[0] == '+');
    assert("-"@.len() == 1 && "-"@[0] == '-');
    assert("*"@.len() == 1 && "*"@[0] == '*');
    assert("/"@.len() == 1 && "/"@[0] == '/');
}

/// `(< a b)` on two numbers is true exactly when `b - a` is positive; on integers it
/// is the order of the integers.
pub proof fn law_less_agrees_with_subtraction(
    a: Frac,
    b: Frac,
    env: Bindings,
    out: Seq<Seq<char>>,
    sn: Option<Seq<char>>,
    f: nat,
)
    requires
        f > 0,
        a.den > 0,
        b.den > 0,
    ensures
        ev_less(seq![SExpr::Num(a), SExpr::Num(b)], env, out, sn, f) == done(
            SValue::Bool(frac_sub(b, a).num > 0),
            env,
            out,
        ),
        a.den == 1 && b.den == 1 ==> ev_less(
            seq![SExpr::Num(a), SExpr::Num(b)],
            env,
            out,
            sn,
            f,
        ).res == Ok::<SValue, SError>(SValue::Bool(a.num < b.num)),
{
    let args = seq![SExpr::Num(a), SExpr::Num(b)];
    assert(ev_value(args[0], env, out, sn, f) == done(SValue::Num(a), env, out));
    assert(ev_value(args[1], env, out, sn, f) == done(SValue::Num(b), env, out));
    let n = b.num * a.den + (-a.num) * b.den;
    let d = b.den * a.den;
    assert(d > 0) by (nonlinear_arith)
        requires
            d == b.den * a.den,
            a.den > 0,
            b.den > 0,
    ;
    assert(n == b.num * a.den - a.num * b.den) by (nonlinear_arith)
        requires
            n == b.num * a.den + (-a.num) * b.den,
    ;
    assert((a.num * b.den < b.num * a.den) == (n > 0));
    if a.den == 1 && b.den == 1 {
        assert(a.num * b.den == a.num && b.num * a.den == b.num) by (nonlinear_arith)
            requires
                a.den == 1,
                b.den == 1,
        ;
    }
}

proof fn lemma_recip(b: Frac)
    requires
        b.den > 0,
        b.num != 0,
    ensures
        crate::semantics::frac_recip(b).den > 0,
        crate::semantics::frac_recip(b).num != 0,
        crate::semantics::frac_recip(b).num * b.num == crate::semantics::frac_recip(b).den * b.den,
{
    let r = crate::semantics::frac_recip(b);
    if b.num < 0 {
        assert(r == Frac { num: -b.den, den: -b.num });
        assert((-b.den) * b.num == (-b.num) * b.den) by (nonlinear_arith);
    } else {
        assert(r == Frac { num: b.den, den: b.num });
        assert(b.den * b.num == b.num * b.den) by (nonlinear_arith);
    }
}

proof fn lemma_product_one(r: Frac, b: Frac)
    requires
        r.den > 0,
        b.den > 0,
        r.num != 0,
        b.num != 0,
        r.num * b.num == r.den * b.den,
    ensures
        frac_eq(frac_mul(r, b), Frac { num: 1, den: 1 }),
{
    let p = r.num * b.num;
    let q = r.den * b.den;
    assert(q > 0) by (nonlinear_arith)
        requires
            q == r.den * b.den,
            r.den > 0,
            b.den > 0,
    ;
    assert(frac_mul(r, b) == Frac { num: p, den: q });
}

proof fn lemma_times_back(a: Frac, r: Frac, b: Frac)
    requires
        a.den > 0,
        r.den > 0,
        b.den > 0,
        b.num != 0,
        r.num != 0,
        r.num * b.num == r.den * b.den,
    ensures
        frac_eq(frac_mul(frac_mul(a, r), b), a),
{
    let qn = a.num * r.num;
    let qd = a.den * r.den;
    assert(qd > 0) by (nonlinear_arith)
        requires
            qd == a.den * r.den,
            a.den > 0,
            r.den > 0,
    ;
    let q = frac_mul(a, r);
    if qn == 0 {
        assert(a.num == 0) by (nonlinear_arith)
            requires
                qn == a.num * r.num,
                qn == 0,
                r.num != 0,
        ;
        assert(q == Frac { num: 0, den: 1 });
        assert(0 * b.num == 0);
        assert(frac_mul(q, b) == Frac { num: 0, den: 1 });
    } else {
        assert(q == Frac { num: qn, den: qd });
        let xn = qn * b.num;
        let xd = qd * b.den;
        assert(xd > 0) by (nonlinear_arith)
            requires
                xd == qd * b.den,
                qd > 0,
                b.den > 0,
        ;
        assert(xn != 0) by (nonlinear_arith)
            requires
                xn == qn * b.num,
                qn != 0,
                b.num != 0,
        ;
        assert(frac_mul(q, b) == Frac { num: xn, den: xd });
        assert(xn * a.den == a.num * xd) by (nonlinear_arith)
            requires
                xn == (a.num * r.num) * b.num,
                xd == (a.den * r.den) * b.den,
                r.num * b.num == r.den * b.den,
        {
            assert((a.num * r.num) * b.num == a.num * (r.num * b.num));
            assert((a.den * r.den) * b.den == a.den * (r.den * b.den));
        }
    }
}

/// Division undoes multiplication: for a non-zero `b`, `(/ a b)` times `b` is `a`,
/// and `(/ b)` times `b` is one (as rationals).
pub proof fn law_division_undoes_multiplication(a: Frac, b: Frac)
    requires
        a.den > 0,
        b.den > 0,
        b.num != 0,
    ensures
        combine("/"@, seq![a, b]) is Ok,
        frac_eq(frac_mul(combine("/"@, seq![a, b])->Ok_0, b), a),
        combine("/"@, seq![b]) is Ok,
        frac_eq(frac_mul(combine("/"@, seq![b])->Ok_0, b), Frac { num: 1, den: 1 }),
{
    lemma_literal_names();
    let one = Frac { num: 1, den: 1 };
    let rest = seq![a, b].drop_first();
    assert(rest =~= seq![b]);
    assert(seq![b].drop_last() =~= Seq::<Frac>::empty());
    assert(crate::semantics::fold_mul(Seq::<Frac>::empty()) == one);
    assert(crate::semantics::fold_mul(seq![b]) == frac_mul(one, b));
    assert(one.num * b.num == b.num && one.den * b.den == b.den) by (nonlinear_arith)
        requires
            one.num == 1,
            one.den == 1,
    ;
    assert(frac_mul(one, b) == b);
    lemma_recip(b);
    let r = crate::semantics::frac_recip(b);
    assert(combine("/"@, seq![a, b]) == Ok::<Frac, Seq<char>>(frac_mul(a, r)));
    lemma_times_back(a, r, b);
    assert(combine("/"@, seq![b]) == Ok::<Frac, Seq<char>>(r));
    lemma_product_one(r, b);
}

/// The printed forms of `true`, `false` and `nil`, and of an atom, read back as the
/// same value.
pub proof fn law_printed_literals_read_back(
    v: SValue,
    env: Bindings,
    out: Seq<Seq<char>>,
    sn: Option<Seq<char>>,
    tail: bool,
    f: nat,
)
    requires
        f > 0,
        v is Bool || v is Nil || (v is Atom && v->Atom_0.len() > 0 && v->Atom_0[0] != ':'),
    ensures
        ev(SExpr::Sym(value_text(v)), env, out, sn, tail, f) == done(SControl::Val(v), env, out),
{
    lemma_literal_names();
    if v is Atom {
        let a = v->Atom_0;
        let t = seq![':'] + a;
        assert(t[0] == ':');
        assert(t.drop_first() =~= a);
        assert(crate::semantics::trim_colons(t) == crate::semantics::trim_colons(a));
        assert(crate::semantics::trim_colons(a) == a);
    } else if v is Bool {
        if v->Bool_0 {
            assert(v == SValue::Bool(true));
        } else {
            assert(v == SValue::Bool(false));
        }
    }
}

/// Binding parameters gives parameter `i` the argument at position `i`, unless a
/// later parameter of the same name hides it.
proof fn lemma_bind_in_order(
    env: Bindings,
    params: Seq<Seq<char>>,
    args: Seq<SValue>,
    k: nat,
    i: int,
)
    requires
        0 <= i < k,
        k <= params.len(),
        k <= args.len(),
        forall|j: int| i < j < k ==> #[trigger] params[j] != params[i],
    ensures
        bind_params(env, params, args, k).dom().contains(params[i]),
        bind_params(env, params, args, k)[params[i]] == args[i],
    decreases k,
{
    if i < k - 1 {
        lemma_bind_in_order(env, params, args, (k - 1) as nat, i);
        assert(params[k - 1] != params[i]);
    }
}

/// In the bindings of a call, each parameter is bound to the argument in its own
/// position (unless a later parameter has the same name).
pub proof fn law_call_binds_parameters_in_order(
    l: SLambda,
    callee: SValue,
    args: Seq<SValue>,
    i: int,
)
    requires
        0 <= i < l.params.len(),
        i < args.len(),
        forall|j: int| i < j < l.params.len() ==> #[trigger] l.params[j] != l.params[i],
    ensures
        call_bindings(l, callee, args).dom().contains(l.params[i]),
        call_bindings(l, callee, args)[l.params[i]] == args[i],
{
    let base = match l.self_name {
        Some(s) => l.captured.insert(s, callee),
        None => l.captured,
    };
    let k = if l.params.len() <= args.len() {
        l.params.len()
    } else {
        args.len()
    };
    lemma_bind_in_order(base, l.params, args, k, i);
}

/// `(if c a b)` takes `a` for every value of `c` but `false` and `nil`, and `b` for
/// those: here `c` is a name bound to the value `v`, or a number.
pub proof fn law_if_takes_first_branch_unless_false_or_nil(
    name: Seq<char>,
    x: Frac,
    a: SExpr,
    b: SExpr,
    env: Bindings,
    out: Seq<Seq<char>>,
    sn: Option<Seq<char>>,
    tail: bool,
    f: nat,
)
    requires
        f > 0,
        sn != Some("if"@),
    ensures
        ev_list(seq![SExpr::Sym("if"@), SExpr::Num(x), a, b], env, out, sn, tail, f) == ev(
            a,
            env,
            out,
            sn,
            tail,
            f,
        ),
        env.dom().contains(name) && !is_literal_name(name) ==> ev_list(
            seq![SExpr::Sym("if"@), SExpr::Sym(name), a, b],
            env,
            out,
            sn,
            tail,
            f,
        ) == if env[name] == SValue::Bool(false) || env[name] == SValue::Nil {
            ev(b, env, out, sn, tail, f)
        } else {
            ev(a, env, out, sn, tail, f)
        },
{
    lemma_literal_names();
    let items = seq![SExpr::Sym("if"@), SExpr::Num(x), a, b];
    assert(items.drop_first() =~= seq![SExpr::Num(x), a, b]);
    assert(ev_value(SExpr::Num(x), env, out, sn, f) == done(SValue::Num(x), env, out));
    let items2 = seq![SExpr::Sym("if"@), SExpr::Sym(name), a, b];
    assert(items2.drop_first() =~= seq![SExpr::Sym(name), a, b]);
    if env.dom().contains(name) && !is_literal_name(name) {
        assert(ev_value(SExpr::Sym(name), env, out, sn, f) == done(env[name], env, out));
        assert(items2[1] == SExpr::Sym(name));
        assert(items2.drop_first()[0] == SExpr::Sym(name));
    }
}

/// On integers, the arithmetic forms are the arithmetic of integers: `(+ x y)` is
/// `x + y`, `(* x y)` is `x * y`, `(- x y)` is `x - y`, `(- x)` is `-x`, and
/// `(/ x y)` is the rational `x / y` (refused as a division by zero for `y = 0`).
pub proof fn law_integer_arithmetic(x: int, y: int)
    ensures
        combine("+"@, seq![Frac { num: x, den: 1 }, Frac { num: y, den: 1 }]) == Ok::<
            Frac,
            Seq<char>,
        >(Frac { num: x + y, den: 1 }),
        combine("*"@, seq![Frac { num: x, den: 1 }, Frac { num: y, den: 1 }]) == Ok::<
            Frac,
            Seq<char>,
        >(Frac { num: x * y, den: 1 }),
        combine("-"@, seq![Frac { num: x, den: 1 }, Frac { num: y, den: 1 }]) == Ok::<
            Frac,
            Seq<char>,
        >(Frac { num: x - y, den: 1 }),
        combine("-"@, seq![Frac { num: x, den: 1 }]) == Ok::<Frac, Seq<char>>(
            Frac { num: -x, den: 1 },
        ),
        y != 0 ==> combine("/"@, seq![Frac { num: x, den: 1 }, Frac { num: y, den: 1 }]) is Ok
            && combine("/"@, seq![Frac { num: x, den: 1 }, Frac { num: y, den: 1 }])->Ok_0.den > 0
            && combine("/"@, seq![Frac { num: x, den: 1 }, Frac { num: y, den: 1 }])->Ok_0.num * y
            == x * combine("/"@, seq![Frac { num: x, den: 1 }, Frac { num: y, den: 1 }])->Ok_0.den,
        y == 0 ==> combine("/"@, seq![Frac { num: x, den: 1 }, Frac { num: y, den: 1 }]) == Err::<
            Frac,
            Seq<char>,
        >(crate::semantics::division_message()),
{
    lemma_literal_names();
    reveal_strlit("-");
    let a = Frac { num: x, den: 1 };
    let b = Frac { num: y, den: 1 };
    let zero = Frac { num: 0, den: 1 };
    let one = Frac { num: 1, den: 1 };
    let xs = seq![a, b];
    assert(xs.drop_last() =~= seq![a]);
    assert(seq![a].drop_last() =~= Seq::<Frac>::empty());
    assert(seq![b].drop_last() =~= Seq::<Frac>::empty());
    assert(xs.drop_first() =~= seq![b]);
    assert(crate::semantics::fold_add(Seq::<Frac>::empty()) == zero);
    assert(crate::semantics::fold_mul(Seq::<Frac>::empty()) == one);
    // 0 + a, 1 * a, 0 + b, 1 * b
    assert(0 * a.den + a.num * 1 == x && 1 * a.den == 1) by (nonlinear_arith)
        requires
            a.den == 1,
            a.num == x,
    ;
    assert(crate::number::frac_add(zero, a) == a);
    assert(1 * a.num == x && 1 * a.den == 1) by (nonlinear_arith)
        requires
            a.den == 1,
            a.num == x,
    ;
    assert(frac_mul(one, a) == a);
    assert(0 * b.den + b.num * 1 == y && 1 * b.den == 1) by (nonlinear_arith)
        requires
            b.den == 1,
            b.num == y,
    ;
    assert(crate::number::frac_add(zero, b) == b);
    assert(1 * b.num == y && 1 * b.den == 1) by (nonlinear_arith)
        requires
            b.den == 1,
            b.num == y,
    ;
    assert(frac_mul(one, b) == b);
    assert(crate::semantics::fold_add(seq![a]) == a);
    assert(crate::semantics::fold_mul(seq![a]) == a);
    assert(crate::semantics::fold_add(seq![b]) == b);
    assert(crate::semantics::fold_mul(seq![b]) == b);
    // sums and products
    assert(a.num * b.den + b.num * a.den == x + y && a.den * b.den == 1) by (nonlinear_arith)
        requires
            a.den == 1,
            b.den == 1,
            a.num == x,
            b.num == y,
    ;
    assert(crate::semantics::fold_add(xs) == Frac { num: x + y, den: 1 });
    assert(a.num * b.num == x * y) by (nonlinear_arith)
        requires
            a.num == x,
            b.num == y,
    ;
    assert(crate::semantics::fold_mul(xs) == Frac { num: x * y, den: 1 });
    let nb = crate::number::frac_neg(b);
    assert(a.num * nb.den + nb.num * a.den == x - y && a.den * nb.den == 1) by (nonlinear_arith)
        requires
            a.den == 1,
            nb.den == 1,
            a.num == x,
            nb.num == -y,
    ;
    assert(frac_sub(a, b) == Frac { num: x - y, den: 1 });
    assert(combine("*"@, xs) == Ok::<Frac, Seq<char>>(crate::semantics::fold_mul(xs)));
    assert(xs[0] == a);
    assert(combine("-"@, xs) == Ok::<Frac, Seq<char>>(
        frac_sub(a, crate::semantics::fold_add(xs.drop_first())),
    ));
    if y != 0 {
        lemma_recip(b);
        let r = crate::semantics::frac_recip(b);
        assert(combine("/"@, xs) == Ok::<Frac, Seq<char>>(frac_mul(a, r)));
        let q = frac_mul(a, r);
        assert(a.num * r.num * b.num == x * r.den) by (nonlinear_arith)
            requires
                a.num == x,
                b.den == 1,
                r.num * b.num == r.den * b.den,
        {
            assert(a.num * r.num * b.num == a.num * (r.num * b.num));
        }
        assert(a.den * r.den == r.den) by (nonlinear_arith)
            requires
                a.den == 1,
        ;
        if a.num * r.num == 0 {
            assert(x == 0) by (nonlinear_arith)
                requires
                    a.num * r.num == 0,
                    a.num == x,
                    r.num != 0,
            ;
            assert(q == Frac { num: 0, den: 1 });
        } else {
            assert(q == Frac { num: a.num * r.num, den: r.den });
        }
    }
}

/// The printed form of a number reads back as the number: an integer as the
/// integer, any other as its numerator and denominator, read as integers, around
/// a `/`.
pub proof fn law_printed_numbers_read_back(f: Frac)
    ensures
        f.den == 1 ==> crate::number::number_value(value_text(SValue::Num(f))) == Some(f),
        f.den != 1 ==> exists|t1: Seq<char>, t2: Seq<char>|
            value_text(SValue::Num(f)) == t1 + seq!['/'] + t2 && #[trigger] crate::bigint::decimal_value(
                t1,
            ) == Some(f.num) && #[trigger] crate::bigint::decimal_value(t2) == Some(f.den),
{
    if f.den == 1 {
        crate::laws::law_integer_text_roundtrip(f.num);
    } else {
        let t1 = crate::text::dec_int(f.num);
        let t2 = crate::text::dec_int(f.den);
        crate::laws::law_decimal_roundtrip(f.num);
        crate::laws::law_decimal_roundtrip(f.den);
        assert(value_text(SValue::Num(f)) == t1 + seq!['/'] + t2);
    }
}

/// The numerators of a list of fractions.
pub open spec fn numerators(xs: Seq<Frac>) -> Seq<int> {
    xs.map_values(|f: Frac| f.num)
}

/// The integer sum of a list of integers, left to right.
pub open spec fn int_sum(ns: Seq<int>) -> int {
    ns.fold_left(0int, |acc: int, n: int| acc + n)
}

/// The integer product of a list of integers, left to right.
pub open spec fn int_product(ns: Seq<int>) -> int {
    ns.fold_left(1int, |acc: int, n: int| acc * n)
}

proof fn lemma_integer_folds(xs: Seq<Frac>)
    requires
        forall|i: int| 0 <= i < xs.len() ==> #[trigger] xs[i].den == 1,
    ensures
        crate::semantics::fold_add(xs) == (Frac { num: int_sum(numerators(xs)), den: 1 }),
        crate::semantics::fold_mul(xs) == (Frac { num: int_product(numerators(xs)), den: 1 }),
    decreases xs.len(),
{
    if xs.len() > 0 {
        let init = xs.drop_last();
        lemma_integer_folds(init);
        assert(numerators(init) =~= numerators(xs).drop_last());
        let s = int_sum(numerators(init));
        let p = int_product(numerators(init));
        let l = xs.last();
        assert(l.den == 1);
        assert(s * l.den + l.num * 1 == s + l.num && 1 * l.den == 1) by (nonlinear_arith)
            requires
                l.den == 1,
        ;
        assert(p * l.num == l.num * p) by (nonlinear_arith);
    }
}

/// On integers, `(+ x1 .. xn)` is the integer sum, `(* x1 .. xn)` the integer
/// product, and `(- x1 x2 .. xn)` is `x1` less the sum of the others, for any
/// number of arguments.
pub proof fn law_integer_arithmetic_many(xs: Seq<Frac>)
    requires
        xs.len() >= 1,
        forall|i: int| 0 <= i < xs.len() ==> #[trigger] xs[i].den == 1,
    ensures
        combine("+"@, xs) == Ok::<Frac, Seq<char>>(
            Frac { num: int_sum(numerators(xs)), den: 1 },
        ),
        combine("*"@, xs) == Ok::<Frac, Seq<char>>(
            Frac { num: int_product(numerators(xs)), den: 1 },
        ),
        xs.len() >= 2 ==> combine("-"@, xs) == Ok::<Frac, Seq<char>>(
            Frac { num: xs[0].num - int_sum(numerators(xs.drop_first())), den: 1 },
        ),
{
    lemma_literal_names();
    lemma_integer_folds(xs);
    if xs.len() >= 2 {
        let rest = xs.drop_first();
        lemma_integer_folds(rest);
        let a = xs[0];
        let b = Frac { num: int_sum(numerators(rest)), den: 1 };
        let nb = crate::number::frac_neg(b);
        let y = int_sum(numerators(rest));
        assert(a.num * nb.den + nb.num * a.den == a.num - y && a.den * nb.den == 1) by (nonlinear_arith)
            requires
                a.den == 1,
                nb.den == 1,
                nb.num == -y,
        ;
        assert(combine("-"@, xs) == Ok::<Frac, Seq<char>>(frac_sub(a, b)));
    }
}

} // verus!
