//! Runtime values, environments and the evaluator.
use vstd::prelude::*;
use crate::number::{Number, Frac};
use crate::syntax::{
    Expr, SExpr, expr_view, exprs_view, strings_view, LispError, SError, error_view, text,
    lemma_exprs_view_index, parse, parse_program, parse_spec, parse_all_spec, tokens_of,
    parsed_view, program_view,
};
use crate::text::{str_eq, str_chars, string_from_chars, usize_to_string, dec_nat};
use crate::number::frac_text;
use crate::semantics::{
    Bindings, SControl, Step, Called, ev, ev_value, ev_args, ev_numbers, ev_arith, ev_less,
    pipe_stage, pipe_stages, ev_pipe, apply, apply_loop, ev_list, make_fn, auto_tail,
    accumulate_spec, combine, fold_add, fold_mul, frac_recip, is_arith_op, trim_colons,
    value_text, truthy, call_bindings, bind_params, arity_message, prepend, relay, done, fail,
    depth_message, escaped_message, numeric_message, division_message, sym_name, self_call_arg,
    is_self_call, ev_call, run, run_all, as_control, EVAL_FUEL, lemma_prepend_prepend, lemma_prepend_empty, lemma_ev_numbers_len,
};

verus! {

/// A runtime value.
#[derive(Debug, PartialEq)]
pub enum Value {
    Number(Number),
    Bool(bool),
    Atom(String),
    Lambda(Lambda),
    Nil,
}

/// A function value: its parameters, body, the bindings it closed over, the name
/// under which it refers to itself (if recursive), the number of arguments callers
/// pass, and the initial accumulator appended when its body was rewritten into
/// accumulator form.
#[derive(Debug, PartialEq)]
pub struct Lambda {
    params: Vec<String>,
    body: Expr,
    captured: Vec<(String, Value)>,
    self_name: Option<String>,
    public_arity: usize,
    auto_acc_init: Option<Number>,
}

impl Lambda {
    /// The closed-over bindings hold one binding per name, ordered by name, so that
    /// equal bindings make equal values.
    #[verifier::type_invariant]
    spec fn captured_canonical(self) -> bool {
        crate::scope::keys_sorted(self.captured@)
    }
}

/// The model of a runtime value.
pub enum SValue {
    Num(Frac),
    Bool(bool),
    Atom(Seq<char>),
    Lambda(SLambda),
    Nil,
}

/// The model of a function value.
pub struct SLambda {
    pub params: Seq<Seq<char>>,
    pub body: SExpr,
    pub captured: Map<Seq<char>, SValue>,
    pub self_name: Option<Seq<char>>,
    pub public_arity: nat,
    pub auto_acc_init: Option<Frac>,
}

/// The model of a runtime value.
pub open spec fn value_view(v: Value) -> SValue
    decreases v,
{
    match v {
        Value::Number(n) => SValue::Num(n@),
        Value::Bool(b) => SValue::Bool(b),
        Value::Atom(a) => SValue::Atom(a@),
        Value::Lambda(l) => SValue::Lambda(lambda_view(l)),
        Value::Nil => SValue::Nil,
    }
}

/// The model of a function value.
pub closed spec fn lambda_view(l: Lambda) -> SLambda
    decreases l,
{
    SLambda {
        params: strings_view(l.params@),
        body: expr_view(l.body),
        captured: bindings_view(l.captured@),
        self_name: match l.self_name {
            Some(s) => Some(s@),
            None => None,
        },
        public_arity: l.public_arity as nat,
        auto_acc_init: match l.auto_acc_init {
            Some(n) => Some(n@),
            None => None,
        },
    }
}

/// The map denoted by a list of bindings; a later binding of a name hides an earlier one.
pub open spec fn bindings_view(s: Seq<(String, Value)>) -> Map<Seq<char>, SValue>
    decreases s,
{
    if s.len() == 0 {
        Map::empty()
    } else {
        bindings_view(s.drop_last()).insert(s.last().0@, value_view(s.last().1))
    }
}

/// Bindings after position `i` that do not bind `key` leave its lookup unchanged.
pub proof fn lemma_bindings_suffix(s: Seq<(String, Value)>, i: int, key: Seq<char>)
    requires
        0 <= i <= s.len(),
        forall|k: int| i <= k < s.len() ==> (#[trigger] s[k]).0@ != key,
    ensures
        bindings_view(s).dom().contains(key) == bindings_view(s.take(i)).dom().contains(key),
        bindings_view(s).dom().contains(key) ==> bindings_view(s)[key] == bindings_view(
            s.take(i),
        )[key],
    decreases s.len() - i,
{
    if i < s.len() {
        let t = s.drop_last();
        assert forall|k: int| i <= k < t.len() implies (#[trigger] t[k]).0@ != key by {
            assert(t[k] == s[k]);
        }
        lemma_bindings_suffix(t, i, key);
        assert(t.take(i) =~= s.take(i));
        assert(s[s.len() - 1].0@ != key);
    } else {
        assert(s.take(i) =~= s);
    }
}

/// Position of the last binding of `key`, if any.
fn find_binding(vars: &Vec<(String, Value)>, key: &str) -> (r: Option<usize>)
    ensures
        match r {
            Some(j) => j < vars@.len() && vars@[j as int].0@ == key@ && bindings_view(
                vars@,
            ).dom().contains(key@) && bindings_view(vars@)[key@] == value_view(vars@[j as int].1),
            None => !bindings_view(vars@).dom().contains(key@),
        },
{
    let mut i = vars.len();
    while i > 0
        invariant
            i <= vars@.len(),
            forall|k: int| i <= k < vars@.len() ==> (#[trigger] vars@[k]).0@ != key@,
        decreases i,
    {
        let j = i - 1;
        if str_eq(vars[j].0.as_str(), key) {
            proof {
                lemma_bindings_suffix(vars@, i as int, key@);
                assert(vars@.take(i as int).drop_last() =~= vars@.take(j as int));
                assert(vars@.take(i as int).last() == vars@[j as int]);
            }
            return Some(j);
        }
        i = j;
    }
    proof {
        lemma_bindings_suffix(vars@, 0, key@);
        assert(vars@.take(0) =~= Seq::<(String, Value)>::empty());
    }
    None
}

/// A deep copy of a value.
pub fn value_clone(v: &Value) -> (r: Value)
    ensures
        value_view(r) == value_view(*v),
    decreases v,
{
    match v {
        Value::Number(n) => Value::Number(n.clone()),
        Value::Bool(b) => Value::Bool(*b),
        Value::Atom(a) => Value::Atom(a.clone()),
        Value::Nil => Value::Nil,
        Value::Lambda(l) => {
            proof {
                assert(decreases_to!(*v => v->Lambda_0));
            }
            Value::Lambda(lambda_clone(l))
        },
    }
}

/// A deep copy of a function value.
pub fn lambda_clone(l: &Lambda) -> (r: Lambda)
    ensures
        lambda_view(r) == lambda_view(*l),
    decreases l,
{
    proof {
        assert(decreases_to!(*l => l.captured));
        use_type_invariant(l);
    }
    let captured = bindings_clone(&l.captured);
    let params = strings_clone(&l.params);
    let self_name = match &l.self_name {
        Some(s) => Some(s.clone()),
        None => None,
    };
    let auto_acc_init = match &l.auto_acc_init {
        Some(n) => Some(n.clone()),
        None => None,
    };
    proof {
        assert forall|i: int, j: int| 0 <= i < j < captured@.len() implies crate::scope::key_less(
            #[trigger] captured@[i].0@,
            #[trigger] captured@[j].0@,
        ) by {
            assert(l.captured@[i].0@ == captured@[i].0@);
            assert(l.captured@[j].0@ == captured@[j].0@);
        }
    }
    Lambda {
        params,
        body: l.body.clone(),
        captured,
        self_name,
        public_arity: l.public_arity,
        auto_acc_init,
    }
}

impl Clone for Lambda {
    fn clone(&self) -> (r: Self)
        ensures
            lambda_view(r) == lambda_view(*self),
    {
        lambda_clone(self)
    }
}

/// A deep copy of a list of bindings.
pub fn bindings_clone(caps: &Vec<(String, Value)>) -> (r: Vec<(String, Value)>)
    ensures
        bindings_view(r@) == bindings_view(caps@),
        r@.len() == caps@.len(),
        forall|i: int| 0 <= i < caps@.len() ==> (#[trigger] r@[i]).0@ == caps@[i].0@,
    decreases caps,
{
    let mut captured: Vec<(String, Value)> = Vec::new();
    let mut i: usize = 0;
    proof {
        assert(caps@.take(0) =~= Seq::<(String, Value)>::empty());
        assert(bindings_view(captured@) =~= bindings_view(caps@.take(0)));
    }
    while i < caps.len()
        invariant
            i <= caps@.len(),
            bindings_view(captured@) == bindings_view(caps@.take(i as int)),
            captured@.len() == i,
            forall|k: int| 0 <= k < i ==> (#[trigger] captured@[k]).0@ == caps@[k].0@,
        decreases caps@.len() - i,
    {
        proof {
            vstd::std_specs::vec::axiom_vec_index_decreases(*caps, i as int);
            assert(decreases_to!(caps@[i as int] => caps@[i as int].1));
            assert(decreases_to!(*caps => caps@[i as int].1));
        }
        let name = caps[i].0.clone();
        let val = value_clone(&caps[i].1);
        let ghost before = captured@;
        captured.push((name, val));
        proof {
            assert(captured@.drop_last() =~= before);
            assert(caps@.take(i + 1).drop_last() =~= caps@.take(i as int));
        }
        i = i + 1;
    }
    proof {
        assert(caps@.take(caps@.len() as int) =~= caps@);
    }
    captured
}

/// A copy of a list of strings.
fn strings_clone(v: &Vec<String>) -> (r: Vec<String>)
    ensures
        r@ == v@,
{
    let mut out: Vec<String> = Vec::new();
    let mut i: usize = 0;
    while i < v.len()
        invariant
            i <= v@.len(),
            out@ == v@.take(i as int),
        decreases v@.len() - i,
    {
        out.push(v[i].clone());
        proof {
            assert(v@.take(i + 1) =~= v@.take(i as int).push(v@[i as int]));
        }
        i = i + 1;
    }
    proof {
        assert(v@.take(v@.len() as int) =~= v@);
    }
    out
}

impl Clone for Value {
    fn clone(&self) -> (r: Self)
        ensures
            value_view(r) == value_view(*self),
    {
        value_clone(self)
    }
}

/// The global bindings and the lines printed so far.
pub struct Env {
    vars: Vec<(String, Value)>,
    printed: Vec<String>,
}

impl View for Env {
    type V = Map<Seq<char>, SValue>;

    closed spec fn view(&self) -> Map<Seq<char>, SValue> {
        bindings_view(self.vars@)
    }
}

impl Env {
    /// The lines printed by `print` so far.
    pub closed spec fn printed_view(&self) -> Seq<Seq<char>> {
        strings_view(self.printed@)
    }

    /// Binds `key` to `value`; a name already bound cannot be bound again.
    pub fn define(&mut self, key: String, value: Value) -> (r: Result<(), LispError>)
        ensures
            old(self)@.dom().contains(key@) ==> r is Err && final(self)@ == old(self)@,
            old(self)@.dom().contains(key@) ==> error_view(r->Err_0) == SError::Eval(
                "cannot redefine immutable binding: "@ + key@,
            ),
            !old(self)@.dom().contains(key@) ==> r is Ok && final(self)@ == old(self)@.insert(
                key@,
                value_view(value),
            ),
            final(self).printed_view() == old(self).printed_view(),
    {
        match find_binding(&self.vars, key.as_str()) {
            Some(_) => {
                let mut msg = text("cannot redefine immutable binding: ");
                msg.append(key.as_str());
                Err(LispError::Eval(msg))
            },
            None => {
                let ghost k = key@;
                let ghost val = value_view(value);
                self.vars.push((key, value));
                proof {
                    assert(self.vars@.drop_last() =~= old(self).vars@);
                }
                Ok(())
            },
        }
    }

    /// The value bound to `key`, if any.
    pub fn get(&self, key: &str) -> (r: Option<&Value>)
        ensures
            match r {
                Some(v) => self@.dom().contains(key@) && value_view(*v) == self@[key@],
                None => !self@.dom().contains(key@),
            },
    {
        match find_binding(&self.vars, key) {
            Some(j) => Some(&self.vars[j].1),
            None => None,
        }
    }
}

impl Default for Env {
    fn default() -> (r: Self)
        ensures
            r@ == Map::<Seq<char>, SValue>::empty(),
            r.printed_view() == Seq::<Seq<char>>::empty(),
    {
        let e = Env { vars: Vec::new(), printed: Vec::new() };
        proof {
            assert(strings_view(e.printed@) =~= Seq::<Seq<char>>::empty());
        }
        e
    }
}

/// What evaluating in tail position gives: a value, or the arguments of a self-call.
pub enum EvalControl {
    Value(Value),
    TailCall(Vec<Value>),
}

/// The models of a sequence of values.
pub open spec fn values_view(s: Seq<Value>) -> Seq<SValue> {
    s.map_values(|v: Value| value_view(v))
}

/// The models of a sequence of numbers.
pub open spec fn nums_view(s: Seq<Number>) -> Seq<Frac> {
    s.map_values(|n: Number| n@)
}

pub open spec fn control_view(c: EvalControl) -> SControl {
    match c {
        EvalControl::Value(v) => SControl::Val(value_view(v)),
        EvalControl::TailCall(vs) => SControl::Tail(values_view(vs@)),
    }
}

pub open spec fn name_view(sn: Option<&str>) -> Option<Seq<char>> {
    match sn {
        Some(s) => Some(s@),
        None => None,
    }
}

pub open spec fn res_control(r: Result<EvalControl, LispError>) -> Result<SControl, SError> {
    match r {
        Ok(c) => Ok(control_view(c)),
        Err(e) => Err(error_view(e)),
    }
}

pub open spec fn res_value(r: Result<Value, LispError>) -> Result<SValue, SError> {
    match r {
        Ok(v) => Ok(value_view(v)),
        Err(e) => Err(error_view(e)),
    }
}

pub open spec fn res_values(r: Result<Vec<Value>, LispError>) -> Result<Seq<SValue>, SError> {
    match r {
        Ok(v) => Ok(values_view(v@)),
        Err(e) => Err(error_view(e)),
    }
}

pub open spec fn res_numbers(r: Result<Vec<Number>, LispError>) -> Result<Seq<Frac>, SError> {
    match r {
        Ok(v) => Ok(nums_view(v@)),
        Err(e) => Err(error_view(e)),
    }
}

/// A model step agrees with a result, the bindings and the printed lines.
pub open spec fn agrees<T>(s: Step<T>, res: Result<T, SError>, vars: Seq<(String, Value)>, out: Seq<String>) -> bool {
    s.res == res && s.env == bindings_view(vars) && s.out == strings_view(out)
}

/// An evaluation error carrying `msg`.
fn eval_error(msg: &str) -> (r: LispError)
    ensures
        error_view(r) == SError::Eval(msg@),
{
    LispError::Eval(text(msg))
}

/// An evaluation error carrying `prefix` followed by `detail`.
fn eval_error_with(prefix: &str, detail: &str) -> (r: LispError)
    ensures
        error_view(r) == SError::Eval(prefix@ + detail@),
{
    let mut m = text(prefix);
    m.append(detail);
    LispError::Eval(m)
}

/// The error for a call with the wrong number of arguments.
fn arity_error(expected: usize, got: usize) -> (r: LispError)
    ensures
        error_view(r) == SError::Eval(arity_message(expected as nat, got as nat)),
{
    let mut m = text("function expected ");
    let a = usize_to_string(expected);
    m.append(a.as_str());
    m.append(" arguments, got ");
    let b = usize_to_string(got);
    m.append(b.as_str());
    LispError::Eval(m)
}

/// Appending one binding to a list of bindings inserts it into the map.
proof fn lemma_bindings_push(s: Seq<(String, Value)>, p: (String, Value))
    ensures
        bindings_view(s.push(p)) == bindings_view(s).insert(p.0@, value_view(p.1)),
{
    assert(s.push(p).drop_last() =~= s);
}

/// The position of the first character of `cs` that is not a colon, and
/// `trim_colons` is what follows from there.
fn skip_colons(cs: &Vec<char>) -> (k: usize)
    ensures
        k <= cs@.len(),
        cs@.skip(k as int) == trim_colons(cs@),
{
    let mut k: usize = 0;
    proof {
        assert(cs@.skip(0) =~= cs@);
    }
    while k < cs.len() && cs[k] == ':'
        invariant
            k <= cs@.len(),
            trim_colons(cs@.skip(k as int)) == trim_colons(cs@),
        decreases cs@.len() - k,
    {
        proof {
            assert(cs@.skip(k as int).drop_first() =~= cs@.skip(k + 1));
        }
        k = k + 1;
    }
    k
}

/// Evaluates a symbol.
fn eval_symbol(name: &String, vars: &Vec<(String, Value)>) -> (r: Result<Value, LispError>)
    ensures
        r is Ok ==> ev(SExpr::Sym(name@), bindings_view(vars@), Seq::empty(), None, false, 1).res
            == Ok::<SControl, SError>(SControl::Val(value_view(r->Ok_0))),
        r is Err ==> ev(SExpr::Sym(name@), bindings_view(vars@), Seq::empty(), None, false, 1).res
            == Err::<SControl, SError>(error_view(r->Err_0)),
{
    let s = name.as_str();
    if str_eq(s, "true") {
        return Ok(Value::Bool(true));
    }
    if str_eq(s, "false") {
        return Ok(Value::Bool(false));
    }
    if str_eq(s, "nil") {
        return Ok(Value::Nil);
    }
    let cs = str_chars(s);
    if cs.len() > 1 && cs[0] == ':' {
        let k = skip_colons(&cs);
        return Ok(Value::Atom(string_from_chars(&cs, k)));
    }
    match find_binding(vars, s) {
        Some(j) => Ok(value_clone(&vars[j].1)),
        None => Err(eval_error_with("undefined symbol: ", s)),
    }
}

/// A symbol evaluates the same way whatever the printed lines, self name, position
/// and (non-zero) depth.
proof fn lemma_ev_symbol(
    name: Seq<char>,
    env: Bindings,
    out: Seq<Seq<char>>,
    sn: Option<Seq<char>>,
    tail: bool,
    fuel: nat,
)
    requires
        fuel > 0,
    ensures
        ev(SExpr::Sym(name), env, out, sn, tail, fuel).res == ev(
            SExpr::Sym(name),
            env,
            Seq::empty(),
            None,
            false,
            1,
        ).res,
        ev(SExpr::Sym(name), env, out, sn, tail, fuel).env == env,
        ev(SExpr::Sym(name), env, out, sn, tail, fuel).out == out,
{
}

/// Evaluates an expression (see `ev`).
fn eval_with_tail(
    expr: &Expr,
    vars: &mut Vec<(String, Value)>,
    sn: Option<&str>,
    tail: bool,
    out: &mut Vec<String>,
    fuel: u64,
) -> (r: Result<EvalControl, LispError>)
    ensures
        agrees(
            ev(
                expr_view(*expr),
                bindings_view(old(vars)@),
                strings_view(old(out)@),
                name_view(sn),
                tail,
                fuel as nat,
            ),
            res_control(r),
            final(vars)@,
            final(out)@,
        ),
    decreases fuel, 0nat, 0nat,
{
    if fuel == 0 {
        return Err(eval_error("evaluation depth limit exceeded"));
    }
    match expr {
        Expr::Number(n) => Ok(EvalControl::Value(Value::Number(n.clone()))),
        Expr::Symbol(name) => {
            proof {
                lemma_ev_symbol(
                    name@,
                    bindings_view(vars@),
                    strings_view(out@),
                    name_view(sn),
                    tail,
                    fuel as nat,
                );
            }
            match eval_symbol(name, vars) {
                Ok(v) => Ok(EvalControl::Value(v)),
                Err(e) => Err(e),
            }
        },
        Expr::List(list) => eval_list(list, vars, sn, tail, out, fuel - 1),
    }
}

/// Evaluates an expression outside tail position (see `ev_value`).
fn eval_value(
    expr: &Expr,
    vars: &mut Vec<(String, Value)>,
    sn: Option<&str>,
    out: &mut Vec<String>,
    fuel: u64,
) -> (r: Result<Value, LispError>)
    ensures
        agrees(
            ev_value(
                expr_view(*expr),
                bindings_view(old(vars)@),
                strings_view(old(out)@),
                name_view(sn),
                fuel as nat,
            ),
            res_value(r),
            final(vars)@,
            final(out)@,
        ),
    decreases fuel, 1nat, 0nat,
{
    match eval_with_tail(expr, vars, sn, false, out, fuel) {
        Ok(EvalControl::Value(v)) => Ok(v),
        Ok(EvalControl::TailCall(_)) => Err(eval_error("tail call escaped function context")),
        Err(e) => Err(e),
    }
}

/// Evaluates `list[from..]` left to right (see `ev_args`).
fn eval_args(
    list: &Vec<Expr>,
    from: usize,
    vars: &mut Vec<(String, Value)>,
    sn: Option<&str>,
    out: &mut Vec<String>,
    fuel: u64,
) -> (r: Result<Vec<Value>, LispError>)
    requires
        from <= list@.len(),
    ensures
        agrees(
            ev_args(
                exprs_view(list@).skip(from as int),
                bindings_view(old(vars)@),
                strings_view(old(out)@),
                name_view(sn),
                fuel as nat,
            ),
            res_values(r),
            final(vars)@,
            final(out)@,
        ),
    decreases fuel, 2nat, 0nat,
{
    let ghost whole = ev_args(
        exprs_view(list@).skip(from as int),
        bindings_view(vars@),
        strings_view(out@),
        name_view(sn),
        fuel as nat,
    );
    let mut vals: Vec<Value> = Vec::new();
    let mut i = from;
    proof {
        lemma_exprs_view_index(list@);
        assert(values_view(vals@) =~= Seq::<SValue>::empty());
        lemma_prepend_empty(whole);
    }
    while i < list.len()
        invariant
            from <= i <= list@.len(),
            exprs_view(list@).len() == list@.len(),
            forall|k: int| 0 <= k < list@.len() ==> #[trigger] exprs_view(list@)[k] == expr_view(
                list@[k],
            ),
            whole == ev_args(
                exprs_view(list@).skip(from as int),
                bindings_view(old(vars)@),
                strings_view(old(out)@),
                name_view(sn),
                fuel as nat,
            ),
            whole == prepend(
                values_view(vals@),
                ev_args(
                    exprs_view(list@).skip(i as int),
                    bindings_view(vars@),
                    strings_view(out@),
                    name_view(sn),
                    fuel as nat,
                ),
            ),
        decreases list@.len() - i,
    {
        let ghost rest = exprs_view(list@).skip(i as int);
        let ghost env0 = bindings_view(vars@);
        let ghost out0 = strings_view(out@);
        proof {
            assert(rest[0] == expr_view(list@[i as int]));
            assert(rest.drop_first() =~= exprs_view(list@).skip(i + 1));
        }
        let v = match eval_value(&list[i], vars, sn, out, fuel) {
            Ok(v) => v,
            Err(e) => {
                proof {
                    let st = ev_value(rest[0], env0, out0, name_view(sn), fuel as nat);
                    assert(st.res is Err);
                    assert(ev_args(rest, env0, out0, name_view(sn), fuel as nat) == relay::<
                        SValue,
                        Seq<SValue>,
                    >(st));
                }
                return Err(e);
            },
        };
        let ghost before = vals@;
        vals.push(v);
        proof {
            let tail_step = ev_args(
                exprs_view(list@).skip(i + 1),
                bindings_view(vars@),
                strings_view(out@),
                name_view(sn),
                fuel as nat,
            );
            assert(values_view(vals@) =~= values_view(before) + seq![value_view(v)]);
            lemma_prepend_prepend(values_view(before), seq![value_view(v)], tail_step);
        }
        i = i + 1;
    }
    proof {
        assert(exprs_view(list@).skip(i as int).len() == 0);
        assert(values_view(vals@) + Seq::<SValue>::empty() =~= values_view(vals@));
    }
    Ok(vals)
}

/// Evaluates `list[from..]` left to right, each to a number (see `ev_numbers`).
fn eval_numbers(
    list: &Vec<Expr>,
    from: usize,
    vars: &mut Vec<(String, Value)>,
    sn: Option<&str>,
    out: &mut Vec<String>,
    fuel: u64,
) -> (r: Result<Vec<Number>, LispError>)
    requires
        from <= list@.len(),
    ensures
        agrees(
            ev_numbers(
                exprs_view(list@).skip(from as int),
                bindings_view(old(vars)@),
                strings_view(old(out)@),
                name_view(sn),
                fuel as nat,
            ),
            res_numbers(r),
            final(vars)@,
            final(out)@,
        ),
    decreases fuel, 2nat, 0nat,
{
    let ghost whole = ev_numbers(
        exprs_view(list@).skip(from as int),
        bindings_view(vars@),
        strings_view(out@),
        name_view(sn),
        fuel as nat,
    );
    let mut nums: Vec<Number> = Vec::new();
    let mut i = from;
    proof {
        lemma_exprs_view_index(list@);
        assert(nums_view(nums@) =~= Seq::<Frac>::empty());
        lemma_prepend_empty(whole);
    }
    while i < list.len()
        invariant
            from <= i <= list@.len(),
            exprs_view(list@).len() == list@.len(),
            forall|k: int| 0 <= k < list@.len() ==> #[trigger] exprs_view(list@)[k] == expr_view(
                list@[k],
            ),
            whole == ev_numbers(
                exprs_view(list@).skip(from as int),
                bindings_view(old(vars)@),
                strings_view(old(out)@),
                name_view(sn),
                fuel as nat,
            ),
            whole == prepend(
                nums_view(nums@),
                ev_numbers(
                    exprs_view(list@).skip(i as int),
                    bindings_view(vars@),
                    strings_view(out@),
                    name_view(sn),
                    fuel as nat,
                ),
            ),
        decreases list@.len() - i,
    {
        let ghost rest = exprs_view(list@).skip(i as int);
        proof {
            assert(rest[0] == expr_view(list@[i as int]));
            assert(rest.drop_first() =~= exprs_view(list@).skip(i + 1));
        }
        let v = match eval_value(&list[i], vars, sn, out, fuel) {
            Ok(v) => v,
            Err(e) => {
                return Err(e);
            },
        };
        let n = match v {
            Value::Number(n) => n,
            _ => {
                return Err(eval_error("arithmetic only supports numeric values"));
            },
        };
        let ghost before = nums@;
        let ghost nv = n@;
        nums.push(n);
        proof {
            let tail_step = ev_numbers(
                exprs_view(list@).skip(i + 1),
                bindings_view(vars@),
                strings_view(out@),
                name_view(sn),
                fuel as nat,
            );
            assert(nums_view(nums@) =~= nums_view(before) + seq![nv]);
            lemma_prepend_prepend(nums_view(before), seq![nv], tail_step);
        }
        i = i + 1;
    }
    proof {
        assert(exprs_view(list@).skip(i as int).len() == 0);
        assert(nums_view(nums@) + Seq::<Frac>::empty() =~= nums_view(nums@));
    }
    Ok(nums)
}

/// `0 + ns[from] + ns[from + 1] + ...`.
fn sum_from(ns: &Vec<Number>, from: usize) -> (r: Number)
    requires
        from <= ns@.len(),
    ensures
        r@ == fold_add(nums_view(ns@).subrange(from as int, ns@.len() as int)),
{
    let mut acc = Number::from_i64(0);
    let mut i = from;
    proof {
        assert(nums_view(ns@).subrange(from as int, from as int) =~= Seq::<Frac>::empty());
    }
    while i < ns.len()
        invariant
            from <= i <= ns@.len(),
            acc@ == fold_add(nums_view(ns@).subrange(from as int, i as int)),
        decreases ns@.len() - i,
    {
        proof {
            let sub = nums_view(ns@).subrange(from as int, i + 1);
            assert(sub.drop_last() =~= nums_view(ns@).subrange(from as int, i as int));
            assert(sub.last() == ns@[i as int]@);
        }
        acc = acc.add(ns[i].clone());
        i = i + 1;
    }
    acc
}

/// `1 * ns[from] * ns[from + 1] * ...`.
fn product_from(ns: &Vec<Number>, from: usize) -> (r: Number)
    requires
        from <= ns@.len(),
    ensures
        r@ == fold_mul(nums_view(ns@).subrange(from as int, ns@.len() as int)),
{
    let mut acc = Number::from_i64(1);
    let mut i = from;
    proof {
        assert(nums_view(ns@).subrange(from as int, from as int) =~= Seq::<Frac>::empty());
    }
    while i < ns.len()
        invariant
            from <= i <= ns@.len(),
            acc@ == fold_mul(nums_view(ns@).subrange(from as int, i as int)),
        decreases ns@.len() - i,
    {
        proof {
            let sub = nums_view(ns@).subrange(from as int, i + 1);
            assert(sub.drop_last() =~= nums_view(ns@).subrange(from as int, i as int));
            assert(sub.last() == ns@[i as int]@);
        }
        acc = acc.mul(ns[i].clone());
        i = i + 1;
    }
    acc
}

/// An arithmetic operator applied to numbers (see `combine`).
fn combine_numbers(op: &str, ns: &Vec<Number>) -> (r: Result<Number, LispError>)
    requires
        ns@.len() >= 1,
        is_arith_op(op@),
    ensures
        match combine(op@, nums_view(ns@)) {
            Ok(f) => r is Ok && r->Ok_0@ == f,
            Err(m) => r is Err && error_view(r->Err_0) == SError::Eval(m),
        },
{
    let ghost v = nums_view(ns@);
    proof {
        assert(v.subrange(0, v.len() as int) =~= v);
        assert(v.subrange(1, v.len() as int) =~= v.drop_first());
    }
    if str_eq(op, "+") {
        Ok(sum_from(ns, 0))
    } else if str_eq(op, "*") {
        Ok(product_from(ns, 0))
    } else if str_eq(op, "-") {
        let first = ns[0].clone();
        if ns.len() == 1 {
            Ok(first.neg())
        } else {
            Ok(first.sub(sum_from(ns, 1)))
        }
    } else {
        let first = ns[0].clone();
        if ns.len() == 1 {
            if first.is_zero() {
                return Err(eval_error("division by zero"));
            }
            match first.reciprocal() {
                Some(x) => Ok(x),
                None => Err(eval_error("division by zero")),
            }
        } else {
            let denom = product_from(ns, 1);
            if denom.is_zero() {
                return Err(eval_error("division by zero"));
            }
            match denom.reciprocal() {
                Some(x) => Ok(first.mul(x)),
                None => Err(eval_error("division by zero")),
            }
        }
    }
}

/// `(op args...)` for an arithmetic operator, where `list[0]` is `op` (see `ev_arith`).
fn eval_arithmetic(
    op: &String,
    list: &Vec<Expr>,
    vars: &mut Vec<(String, Value)>,
    sn: Option<&str>,
    out: &mut Vec<String>,
    fuel: u64,
) -> (r: Result<Value, LispError>)
    requires
        list@.len() >= 1,
        is_arith_op(op@),
    ensures
        agrees(
            ev_arith(
                op@,
                exprs_view(list@).drop_first(),
                bindings_view(old(vars)@),
                strings_view(old(out)@),
                name_view(sn),
                fuel as nat,
            ),
            res_value(r),
            final(vars)@,
            final(out)@,
        ),
    decreases fuel, 3nat, 0nat,
{
    proof {
        lemma_exprs_view_index(list@);
        assert(exprs_view(list@).drop_first() =~= exprs_view(list@).skip(1));
    }
    if list.len() == 1 {
        return Err(eval_error_with(op.as_str(), " expects at least one argument"));
    }
    let numbers = match eval_numbers(list, 1, vars, sn, out, fuel) {
        Ok(ns) => ns,
        Err(e) => {
            return Err(e);
        },
    };
    proof {
        lemma_ev_numbers_len(
            exprs_view(list@).skip(1),
            bindings_view(old(vars)@),
            strings_view(old(out)@),
            name_view(sn),
            fuel as nat,
        );
        assert(nums_view(numbers@).len() >= 1);
    }
    match combine_numbers(op.as_str(), &numbers) {
        Ok(n) => Ok(Value::Number(n)),
        Err(e) => Err(e),
    }
}

/// `(< a b)` where `list[0]` is `<` (see `ev_less`).
fn eval_less_than(
    list: &Vec<Expr>,
    vars: &mut Vec<(String, Value)>,
    sn: Option<&str>,
    out: &mut Vec<String>,
    fuel: u64,
) -> (r: Result<Value, LispError>)
    requires
        list@.len() >= 1,
    ensures
        agrees(
            ev_less(
                exprs_view(list@).drop_first(),
                bindings_view(old(vars)@),
                strings_view(old(out)@),
                name_view(sn),
                fuel as nat,
            ),
            res_value(r),
            final(vars)@,
            final(out)@,
        ),
    decreases fuel, 3nat, 0nat,
{
    proof {
        lemma_exprs_view_index(list@);
    }
    if list.len() != 3 {
        return Err(eval_error("< expects exactly 2 arguments"));
    }
    let left = match eval_value(&list[1], vars, sn, out, fuel) {
        Ok(Value::Number(n)) => n,
        Ok(_) => {
            return Err(eval_error("arithmetic only supports numeric values"));
        },
        Err(e) => {
            return Err(e);
        },
    };
    let right = match eval_value(&list[2], vars, sn, out, fuel) {
        Ok(Value::Number(n)) => n,
        Ok(_) => {
            return Err(eval_error("arithmetic only supports numeric values"));
        },
        Err(e) => {
            return Err(e);
        },
    };
    Ok(Value::Bool(left < right))
}

/// Applies one pipeline stage to `input` (see `pipe_stage`).
fn apply_pipe_stage(
    stage: &Expr,
    input: Value,
    vars: &mut Vec<(String, Value)>,
    sn: Option<&str>,
    out: &mut Vec<String>,
    fuel: u64,
) -> (r: Result<Value, LispError>)
    ensures
        agrees(
            pipe_stage(
                expr_view(*stage),
                value_view(input),
                bindings_view(old(vars)@),
                strings_view(old(out)@),
                name_view(sn),
                fuel as nat,
            ),
            res_value(r),
            final(vars)@,
            final(out)@,
        ),
    decreases fuel, 3nat, 0nat,
{
    let items = match stage {
        Expr::List(items) => items,
        _ => {
            return Err(eval_error("pipeline stage must be a list, e.g. (+ 1)"));
        },
    };
    proof {
        lemma_exprs_view_index(items@);
    }
    if items.len() == 0 {
        return Err(eval_error("pipeline stage cannot be empty"));
    }
    let op = match &items[0] {
        Expr::Symbol(op) => op,
        _ => {
            return Err(eval_error("pipeline stage must start with a symbol"));
        },
    };
    let o = op.as_str();
    if str_eq(o, "+") || str_eq(o, "-") || str_eq(o, "*") || str_eq(o, "/") {
        let first = match input {
            Value::Number(n) => n,
            _ => {
                return Err(eval_error("arithmetic only supports numeric values"));
            },
        };
        let rest = match eval_numbers(items, 1, vars, sn, out, fuel) {
            Ok(ns) => ns,
            Err(e) => {
                return Err(e);
            },
        };
        proof {
            assert(exprs_view(items@).drop_first() =~= exprs_view(items@).skip(1));
        }
        let mut numbers: Vec<Number> = Vec::new();
        let ghost fv = first@;
        numbers.push(first);
        let mut k: usize = 0;
        while k < rest.len()
            invariant
                k <= rest@.len(),
                nums_view(numbers@) == seq![fv] + nums_view(rest@).take(k as int),
            decreases rest@.len() - k,
        {
            let c = rest[k].clone();
            let ghost before = numbers@;
            let ghost cv = c@;
            numbers.push(c);
            proof {
                assert(cv == rest@[k as int]@);
                assert(nums_view(numbers@) =~= nums_view(before).push(cv));
                assert(nums_view(rest@).take(k + 1) =~= nums_view(rest@).take(k as int).push(cv));
                assert(nums_view(numbers@) =~= seq![fv] + nums_view(rest@).take(k + 1));
            }
            k = k + 1;
        }
        proof {
            assert(nums_view(rest@).take(rest@.len() as int) =~= nums_view(rest@));
        }
        match combine_numbers(o, &numbers) {
            Ok(n) => Ok(Value::Number(n)),
            Err(e) => Err(e),
        }
    } else if str_eq(o, "print") {
        if items.len() != 1 {
            return Err(eval_error("print in pipeline does not take explicit arguments"));
        }
        let line = input.display_string();
        let ghost before = out@;
        out.push(line);
        proof {
            assert(strings_view(out@) =~= strings_view(before).push(value_text(value_view(input))));
        }
        Ok(input)
    } else {
        Err(eval_error_with("unknown function in pipeline stage: ", o))
    }
}

/// `(|> first stages...)` where `list[0]` is `|>` (see `ev_pipe`).
fn eval_pipe(
    list: &Vec<Expr>,
    vars: &mut Vec<(String, Value)>,
    sn: Option<&str>,
    out: &mut Vec<String>,
    fuel: u64,
) -> (r: Result<Value, LispError>)
    requires
        list@.len() >= 1,
    ensures
        agrees(
            ev_pipe(
                exprs_view(list@).drop_first(),
                bindings_view(old(vars)@),
                strings_view(old(out)@),
                name_view(sn),
                fuel as nat,
            ),
            res_value(r),
            final(vars)@,
            final(out)@,
        ),
    decreases fuel, 5nat, 0nat,
{
    proof {
        lemma_exprs_view_index(list@);
    }
    if list.len() == 1 {
        return Err(eval_error("|> expects at least 1 argument"));
    }
    let ghost stages = exprs_view(list@).drop_first();
    let mut current = match eval_value(&list[1], vars, sn, out, fuel) {
        Ok(v) => v,
        Err(e) => {
            return Err(e);
        },
    };
    let ghost whole = ev_pipe(
        stages,
        bindings_view(old(vars)@),
        strings_view(old(out)@),
        name_view(sn),
        fuel as nat,
    );
    let mut i: usize = 2;
    proof {
        assert(stages.drop_first() =~= exprs_view(list@).skip(2));
    }
    while i < list.len()
        invariant
            2 <= i <= list@.len(),
            exprs_view(list@).len() == list@.len(),
            forall|k: int| 0 <= k < list@.len() ==> #[trigger] exprs_view(list@)[k] == expr_view(
                list@[k],
            ),
            whole == ev_pipe(
                exprs_view(list@).drop_first(),
                bindings_view(old(vars)@),
                strings_view(old(out)@),
                name_view(sn),
                fuel as nat,
            ),
            whole == pipe_stages(
                exprs_view(list@).skip(i as int),
                value_view(current),
                bindings_view(vars@),
                strings_view(out@),
                name_view(sn),
                fuel as nat,
            ),
        decreases list@.len() - i,
    {
        proof {
            let rest = exprs_view(list@).skip(i as int);
            assert(rest[0] == expr_view(list@[i as int]));
            assert(rest.drop_first() =~= exprs_view(list@).skip(i + 1));
        }
        current = match apply_pipe_stage(&list[i], current, vars, sn, out, fuel) {
            Ok(v) => v,
            Err(e) => {
                return Err(e);
            },
        };
        i = i + 1;
    }
    Ok(current)
}

impl Value {
    /// How `print` renders the value (see `value_text`).
    pub fn display_string(&self) -> (r: String)
        ensures
            r@ == value_text(value_view(*self)),
    {
        match self {
            Value::Number(n) => n.to_display(),
            Value::Bool(b) => if *b {
                text("true")
            } else {
                text("false")
            },
            Value::Atom(a) => {
                let mut s = text(":");
                s.append(a.as_str());
                proof {
                    reveal_strlit(":");
                }
                s
            },
            Value::Lambda(_) => text("<fn>"),
            Value::Nil => text("nil"),
        }
    }
}

/// Everything but `false` and `nil` counts as true.
fn is_truthy(value: &Value) -> (r: bool)
    ensures
        r == truthy(value_view(*value)),
{
    match value {
        Value::Bool(b) => *b,
        Value::Nil => false,
        _ => true,
    }
}

/// The number inside a value, or the error for non-numeric arithmetic.
fn value_to_number(value: Value) -> (r: Result<Number, LispError>)
    ensures
        match value_view(value) {
            SValue::Num(f) => r is Ok && r->Ok_0@ == f,
            _ => r is Err && error_view(r->Err_0) == SError::Eval(numeric_message()),
        },
{
    match value {
        Value::Number(n) => Ok(n),
        _ => Err(eval_error("arithmetic only supports numeric values")),
    }
}

/// The list of three expressions.
fn list3(a: Expr, b: Expr, c: Expr) -> (r: Expr)
    ensures
        expr_view(r) == SExpr::List(seq![expr_view(a), expr_view(b), expr_view(c)]),
{
    let ghost (va, vb, vc) = (expr_view(a), expr_view(b), expr_view(c));
    let mut v: Vec<Expr> = Vec::new();
    v.push(a);
    v.push(b);
    v.push(c);
    proof {
        lemma_exprs_view_index(v@);
        assert(exprs_view(v@) =~= seq![va, vb, vc]);
    }
    Expr::List(v)
}

/// The list of four expressions.
fn list4(a: Expr, b: Expr, c: Expr, d: Expr) -> (r: Expr)
    ensures
        expr_view(r) == SExpr::List(seq![expr_view(a), expr_view(b), expr_view(c), expr_view(d)]),
{
    let ghost (va, vb, vc, vd) = (expr_view(a), expr_view(b), expr_view(c), expr_view(d));
    let mut v: Vec<Expr> = Vec::new();
    v.push(a);
    v.push(b);
    v.push(c);
    v.push(d);
    proof {
        lemma_exprs_view_index(v@);
        assert(exprs_view(v@) =~= seq![va, vb, vc, vd]);
    }
    Expr::List(v)
}

/// Whether `e` is the list `(name x)`; if so, a copy of `x`.
fn self_call_argument(e: &Expr, name: &str) -> (r: Option<Expr>)
    ensures
        match self_call_arg(expr_view(*e), name@) {
            Some(x) => r is Some && expr_view(r->Some_0) == x,
            None => r is None,
        },
{
    match e {
        Expr::List(items) => {
            proof {
                lemma_exprs_view_index(items@);
            }
            if items.len() != 2 {
                return None;
            }
            match &items[0] {
                Expr::Symbol(s) => if str_eq(s.as_str(), name) {
                    Some(items[1].clone())
                } else {
                    None
                },
                _ => None,
            }
        },
        _ => None,
    }
}

/// The accumulator rewrite of a self-recursive body (see `accumulate_spec`).
fn accumulate_form(param: &String, body: &Expr, name: &str) -> (r: Option<(Vec<String>, Expr, Number)>)
    ensures
        match accumulate_spec(param@, expr_view(*body), name@) {
            Some((p, b, f)) => r is Some && strings_view(r->Some_0.0@) == p && expr_view(
                r->Some_0.1,
            ) == b && r->Some_0.2@ == f,
            None => r is None,
        },
{
    let items = match body {
        Expr::List(items) => items,
        _ => {
            return None;
        },
    };
    proof {
        lemma_exprs_view_index(items@);
    }
    if items.len() != 4 {
        return None;
    }
    let is_if = match &items[0] {
        Expr::Symbol(s) => str_eq(s.as_str(), "if"),
        _ => false,
    };
    if !is_if {
        return None;
    }
    let rec = match &items[3] {
        Expr::List(rec) => rec,
        _ => {
            return None;
        },
    };
    proof {
        lemma_exprs_view_index(rec@);
    }
    if rec.len() != 3 {
        return None;
    }
    let op = match &rec[0] {
        Expr::Symbol(op) => op,
        _ => {
            return None;
        },
    };
    let is_plus = str_eq(op.as_str(), "+");
    if !is_plus && !str_eq(op.as_str(), "*") {
        return None;
    }
    let init = if is_plus {
        Number::from_i64(0)
    } else {
        Number::from_i64(1)
    };
    let (step, next) = match self_call_argument(&rec[2], name) {
        Some(next) => (rec[1].clone(), next),
        None => match self_call_argument(&rec[1], name) {
            Some(next) => (rec[2].clone(), next),
            None => {
                return None;
            },
        },
    };
    let acc = Expr::Symbol(text("__fnr_acc"));
    let acc_base = list3(Expr::Symbol(op.clone()), items[2].clone(), acc.clone());
    let next_acc = list3(Expr::Symbol(op.clone()), acc.clone(), step);
    let recur = list3(Expr::Symbol(name.to_owned()), next, next_acc);
    let new_body = list4(Expr::Symbol(text("if")), items[1].clone(), acc_base, recur);
    let mut params: Vec<String> = Vec::new();
    params.push(param.clone());
    params.push(text("__fnr_acc"));
    proof {
        assert(strings_view(params@) =~= seq![param@, "__fnr_acc"@]);
    }
    Some((params, new_body, init))
}

/// Rewrites the body of a self-recursive function into accumulator form when it has
/// the recognised shape (see `auto_tail`).
fn auto_tail_transform_fn(params: Vec<String>, body: Expr, self_name: Option<&str>) -> (r: (
    Vec<String>,
    Expr,
    Option<Number>,
))
    ensures
        ({
            let t = auto_tail(strings_view(params@), expr_view(body), name_view(self_name));
            &&& strings_view(r.0@) == t.0
            &&& expr_view(r.1) == t.1
            &&& match r.2 {
                Some(n) => t.2 == Some(n@),
                None => t.2 is None,
            }
        }),
{
    let name = match self_name {
        None => {
            return (params, body, None);
        },
        Some(name) => name,
    };
    if params.len() != 1 {
        return (params, body, None);
    }
    match accumulate_form(&params[0], &body, name) {
        Some((p, b, init)) => (p, b, Some(init)),
        None => (params, body, None),
    }
}

/// `(fn params body)` where `list[0]` is `fn` (see `make_fn`).
#[verifier::loop_isolation(false)]
fn eval_fn(list: &Vec<Expr>, vars: &Vec<(String, Value)>) -> (r: Result<Value, LispError>)
    requires
        list@.len() >= 1,
    ensures
        res_value(r) == make_fn(exprs_view(list@).drop_first(), bindings_view(vars@)),
{
    proof {
        lemma_exprs_view_index(list@);
    }
    let ghost args = exprs_view(list@).drop_first();
    if list.len() != 3 {
        return Err(eval_error("fn expects exactly 2 arguments"));
    }
    let items = match &list[1] {
        Expr::List(items) => items,
        _ => {
            return Err(eval_error("fn first argument must be a parameter list"));
        },
    };
    proof {
        lemma_exprs_view_index(items@);
    }
    let ghost iv = exprs_view(items@);
    if items.len() == 0 {
        return Err(eval_error("fn parameter list must include at least one symbol"));
    }
    let mut names: Vec<String> = Vec::new();
    let mut i: usize = 0;
    while i < items.len()
        invariant
            i <= items@.len(),
            iv == exprs_view(items@),
            iv.len() == items@.len(),
            forall|k: int| 0 <= k < items@.len() ==> #[trigger] iv[k] == expr_view(items@[k]),
            forall|k: int| 0 <= k < i ==> (#[trigger] iv[k]) is Sym,
            strings_view(names@) == iv.take(i as int).map_values(|e: SExpr| sym_name(e)),
        decreases items@.len() - i,
    {
        match &items[i] {
            Expr::Symbol(n) => {
                let ghost before = names@;
                names.push(n.clone());
                proof {
                    assert(iv[i as int] == SExpr::Sym(n@));
                    assert(strings_view(names@) =~= strings_view(before).push(n@));
                    assert(iv.take(i + 1) =~= iv.take(i as int).push(iv[i as int]));
                    assert(strings_view(names@) =~= iv.take(i + 1).map_values(
                        |e: SExpr| sym_name(e),
                    ));
                }
            },
            _ => {
                proof {
                    assert(!(iv[i as int] is Sym));
                }
                return Err(eval_error("fn parameter list must contain only symbols"));
            },
        }
        i = i + 1;
    }
    let ghost nv = iv.map_values(|e: SExpr| sym_name(e));
    proof {
        assert(iv.take(iv.len() as int) =~= iv);
        assert(!exists|k: int| 0 <= k < iv.len() && !(#[trigger] iv[k] is Sym));
    }
    let recursive = str_eq(names[0].as_str(), "self") && names.len() >= 2;
    let body = list[2].clone();
    let captured = crate::scope::canonical_bindings(vars);
    if recursive {
        let self_name = names[0].clone();
        let mut params: Vec<String> = Vec::new();
        let mut k: usize = 1;
        while k < names.len()
            invariant
                1 <= k <= names@.len(),
                strings_view(params@) == strings_view(names@).subrange(1, k as int),
            decreases names@.len() - k,
        {
            let ghost before = params@;
            let c = names[k].clone();
            params.push(c);
            proof {
                assert(strings_view(params@) =~= strings_view(before).push(names@[k as int]@));
                assert(strings_view(params@) =~= strings_view(names@).subrange(1, k + 1));
            }
            k = k + 1;
        }
        proof {
            assert(strings_view(names@).subrange(1, names@.len() as int) =~= nv.drop_first());
        }
        let public_arity = params.len();
        let (params, body, auto_acc_init) = auto_tail_transform_fn(
            params,
            body,
            Some(self_name.as_str()),
        );
        let lambda = Lambda {
            params,
            body,
            captured,
            self_name: Some(self_name),
            public_arity,
            auto_acc_init,
        };
        Ok(Value::Lambda(lambda))
    } else {
        let public_arity = names.len();
        let lambda = Lambda {
            params: names,
            body,
            captured,
            self_name: None,
            public_arity,
            auto_acc_init: None,
        };
        Ok(Value::Lambda(lambda))
    }
}

/// The bindings a call of `lambda` (the value `callee`) with `args` runs in.
fn call_bindings_of(lambda: &Lambda, callee: &Value, args: &Vec<Value>) -> (r: Vec<(String, Value)>)
    ensures
        bindings_view(r@) == call_bindings(lambda_view(*lambda), value_view(*callee), values_view(args@)),
{
    let params = &lambda.params;
    let mut call_vars = bindings_clone(&lambda.captured);
    match &lambda.self_name {
        Some(s) => {
            let ghost before = call_vars@;
            call_vars.push((s.clone(), value_clone(callee)));
            proof {
                lemma_bindings_push(before, call_vars@.last());
                assert(call_vars@ == before.push(call_vars@.last()));
            }
        },
        None => {},
    }
    let ghost base = bindings_view(call_vars@);
    let n = if params.len() <= args.len() {
        params.len()
    } else {
        args.len()
    };
    let mut i: usize = 0;
    while i < n
        invariant
            i <= n,
            n <= params@.len(),
            n <= args@.len(),
            *params == lambda.params,
            bindings_view(call_vars@) == bind_params(
                base,
                strings_view(params@),
                values_view(args@),
                i as nat,
            ),
        decreases n - i,
    {
        let ghost before = call_vars@;
        call_vars.push((params[i].clone(), value_clone(&args[i])));
        proof {
            lemma_bindings_push(before, call_vars@.last());
            assert(call_vars@ == before.push(call_vars@.last()));
        }
        i = i + 1;
    }
    call_vars
}

/// Calls a function value with evaluated arguments (see `apply`).
#[verifier::rlimit(40)]
fn apply_function(callee: Value, args: Vec<Value>, out: &mut Vec<String>, fuel: u64) -> (r: Result<
    Value,
    LispError,
>)
    ensures
        apply(value_view(callee), values_view(args@), strings_view(old(out)@), fuel as nat).res
            == res_value(r),
        apply(value_view(callee), values_view(args@), strings_view(old(out)@), fuel as nat).out
            == strings_view(final(out)@),
    decreases fuel, 2nat, 0nat,
{
    let lambda = match &callee {
        Value::Lambda(l) => l,
        _ => {
            return Err(eval_error("first item in list must evaluate to a function"));
        },
    };
    if lambda.public_arity != args.len() {
        return Err(arity_error(lambda.public_arity, args.len()));
    }
    let ghost lv = lambda_view(*lambda);
    let ghost cv = value_view(callee);
    let ghost whole = apply(cv, values_view(args@), strings_view(out@), fuel as nat);
    let ghost args_v = values_view(args@);
    let ghost out0 = strings_view(out@);
    let mut current = args;
    match &lambda.auto_acc_init {
        Some(init) => {
            let ghost before = current@;
            current.push(Value::Number(init.clone()));
            proof {
                assert(values_view(current@) =~= values_view(before).push(SValue::Num(init@)));
            }
        },
        None => {},
    }
    let sn: Option<&str> = match &lambda.self_name {
        Some(s) => Some(s.as_str()),
        None => None,
    };
    let mut fuel_now = fuel;
    while fuel_now > 0
        invariant
            fuel_now <= fuel,
            callee == Value::Lambda(*lambda),
            lv == lambda_view(*lambda),
            cv == value_view(callee),
            name_view(sn) == lv.self_name,
            whole == apply(cv, args_v, out0, fuel as nat),
            args_v == values_view(args@),
            out0 == strings_view(old(out)@),
            whole == apply_loop(lv, cv, values_view(current@), strings_view(out@), fuel_now as nat),
        decreases fuel_now,
    {
        let mut call_vars = call_bindings_of(lambda, &callee, &current);
        let ghost out_before = strings_view(out@);
        let ghost st = ev(
            lv.body,
            call_bindings(lv, cv, values_view(current@)),
            out_before,
            lv.self_name,
            true,
            (fuel_now - 1) as nat,
        );
        proof {
            assert(lv.body == expr_view(lambda.body));
            assert(whole == apply_loop(lv, cv, values_view(current@), out_before, fuel_now as nat));
        }
        match eval_with_tail(&lambda.body, &mut call_vars, sn, true, out, fuel_now - 1) {
            Err(e) => {
                proof {
                    assert(st.res == Err::<SControl, SError>(error_view(e)));
                    assert(whole.res == Err::<SValue, SError>(error_view(e)));
                }
                return Err(e);
            },
            Ok(EvalControl::Value(v)) => {
                return Ok(v);
            },
            Ok(EvalControl::TailCall(next)) => {
                if lambda.params.len() != next.len() {
                    return Err(arity_error(lambda.params.len(), next.len()));
                }
                current = next;
            },
        }
        fuel_now = fuel_now - 1;
    }
    Err(eval_error("evaluation depth limit exceeded"))
}

/// `(f args...)` (see `ev_call`).
fn eval_call(
    list: &Vec<Expr>,
    vars: &mut Vec<(String, Value)>,
    sn: Option<&str>,
    out: &mut Vec<String>,
    fuel: u64,
) -> (r: Result<Value, LispError>)
    requires
        list@.len() >= 1,
    ensures
        agrees(
            ev_call(
                exprs_view(list@),
                bindings_view(old(vars)@),
                strings_view(old(out)@),
                name_view(sn),
                fuel as nat,
            ),
            res_value(r),
            final(vars)@,
            final(out)@,
        ),
    decreases fuel, 3nat, 0nat,
{
    proof {
        lemma_exprs_view_index(list@);
        assert(exprs_view(list@).drop_first() =~= exprs_view(list@).skip(1));
    }
    let callee = match eval_value(&list[0], vars, sn, out, fuel) {
        Ok(v) => v,
        Err(e) => {
            return Err(e);
        },
    };
    let args = match eval_args(list, 1, vars, sn, out, fuel) {
        Ok(a) => a,
        Err(e) => {
            return Err(e);
        },
    };
    apply_function(callee, args, out, fuel)
}

/// Evaluates a list form (see `ev_list`).
fn eval_list(
    list: &Vec<Expr>,
    vars: &mut Vec<(String, Value)>,
    sn: Option<&str>,
    tail: bool,
    out: &mut Vec<String>,
    fuel: u64,
) -> (r: Result<EvalControl, LispError>)
    ensures
        agrees(
            ev_list(
                exprs_view(list@),
                bindings_view(old(vars)@),
                strings_view(old(out)@),
                name_view(sn),
                tail,
                fuel as nat,
            ),
            res_control(r),
            final(vars)@,
            final(out)@,
        ),
    decreases fuel, 6nat, 0nat,
{
    if list.len() == 0 {
        return Ok(EvalControl::Value(Value::Nil));
    }
    proof {
        lemma_exprs_view_index(list@);
        assert(exprs_view(list@).drop_first() =~= exprs_view(list@).skip(1));
    }
    let ghost rest = exprs_view(list@).drop_first();
    let head = &list[0];
    if tail {
        match (sn, head) {
            (Some(name), Expr::Symbol(h)) => {
                if str_eq(h.as_str(), name) {
                    let args = match eval_args(list, 1, vars, sn, out, fuel) {
                        Ok(a) => a,
                        Err(e) => {
                            return Err(e);
                        },
                    };
                    return Ok(EvalControl::TailCall(args));
                }
            },
            _ => {},
        }
    }
    let op = match head {
        Expr::Symbol(op) => op,
        _ => {
            return match eval_call(list, vars, sn, out, fuel) {
                Ok(v) => Ok(EvalControl::Value(v)),
                Err(e) => Err(e),
            };
        },
    };
    let o = op.as_str();
    if str_eq(o, "define") {
        if list.len() != 3 {
            return Err(eval_error("define expects exactly 2 arguments"));
        }
        let key = match &list[1] {
            Expr::Symbol(name) => name.clone(),
            _ => {
                return Err(eval_error("define first argument must be a symbol"));
            },
        };
        let value = match eval_value(&list[2], vars, sn, out, fuel) {
            Ok(v) => v,
            Err(e) => {
                return Err(e);
            },
        };
        match find_binding(vars, key.as_str()) {
            Some(_) => Err(eval_error_with("cannot redefine immutable binding: ", key.as_str())),
            None => {
                let ghost before = vars@;
                let copy = value_clone(&value);
                vars.push((key, copy));
                proof {
                    lemma_bindings_push(before, vars@.last());
                    assert(vars@ == before.push(vars@.last()));
                }
                Ok(EvalControl::Value(value))
            },
        }
    } else if str_eq(o, "+") || str_eq(o, "-") || str_eq(o, "*") || str_eq(o, "/") {
        match eval_arithmetic(op, list, vars, sn, out, fuel) {
            Ok(v) => Ok(EvalControl::Value(v)),
            Err(e) => Err(e),
        }
    } else if str_eq(o, "<") {
        match eval_less_than(list, vars, sn, out, fuel) {
            Ok(v) => Ok(EvalControl::Value(v)),
            Err(e) => Err(e),
        }
    } else if str_eq(o, "if") {
        if !(list.len() == 3 || list.len() == 4) {
            return Err(eval_error("if expects 2 or 3 arguments"));
        }
        let condition = match eval_value(&list[1], vars, sn, out, fuel) {
            Ok(v) => v,
            Err(e) => {
                return Err(e);
            },
        };
        if is_truthy(&condition) {
            eval_with_tail(&list[2], vars, sn, tail, out, fuel)
        } else if list.len() == 4 {
            eval_with_tail(&list[3], vars, sn, tail, out, fuel)
        } else {
            Ok(EvalControl::Value(Value::Nil))
        }
    } else if str_eq(o, "|>") {
        match eval_pipe(list, vars, sn, out, fuel) {
            Ok(v) => Ok(EvalControl::Value(v)),
            Err(e) => Err(e),
        }
    } else if str_eq(o, "fn") {
        match eval_fn(list, vars) {
            Ok(v) => Ok(EvalControl::Value(v)),
            Err(e) => Err(e),
        }
    } else if str_eq(o, "print") {
        if list.len() != 2 {
            return Err(eval_error("print expects exactly 1 argument"));
        }
        let value = match eval_value(&list[1], vars, sn, out, fuel) {
            Ok(v) => v,
            Err(e) => {
                return Err(e);
            },
        };
        let line = value.display_string();
        let ghost before = out@;
        out.push(line);
        proof {
            assert(strings_view(out@) =~= strings_view(before).push(value_text(value_view(value))));
        }
        Ok(EvalControl::Value(value))
    } else {
        match eval_call(list, vars, sn, out, fuel) {
            Ok(v) => Ok(EvalControl::Value(v)),
            Err(e) => Err(e),
        }
    }
}

/// Evaluates a top-level expression, adding what it prints to `out` (see `run`).
fn eval_top(expr: &Expr, vars: &mut Vec<(String, Value)>, out: &mut Vec<String>) -> (r: Result<
    Value,
    LispError,
>)
    ensures
        agrees(
            run(expr_view(*expr), bindings_view(old(vars)@), strings_view(old(out)@)),
            res_value(r),
            final(vars)@,
            final(out)@,
        ),
{
    match eval_with_tail(expr, vars, None, true, out, EVAL_FUEL) {
        Ok(EvalControl::Value(v)) => Ok(v),
        Ok(EvalControl::TailCall(_)) => Err(eval_error("tail call escaped function context")),
        Err(e) => Err(e),
    }
}

impl Env {
    /// Appends printed lines.
    fn record(&mut self, lines: Vec<String>)
        ensures
            final(self)@ == old(self)@,
            final(self).printed_view() == old(self).printed_view() + strings_view(lines@),
    {
        let mut i: usize = 0;
        while i < lines.len()
            invariant
                i <= lines@.len(),
                self.vars == old(self).vars,
                strings_view(self.printed@) == strings_view(old(self).printed@) + strings_view(
                    lines@,
                ).take(i as int),
            decreases lines@.len() - i,
        {
            let ghost before = self.printed@;
            self.printed.push(lines[i].clone());
            proof {
                assert(strings_view(self.printed@) =~= strings_view(before).push(lines@[i as int]@));
                assert(strings_view(lines@).take(i + 1) =~= strings_view(lines@).take(i as int).push(
                    lines@[i as int]@,
                ));
            }
            i = i + 1;
        }
        proof {
            assert(strings_view(lines@).take(lines@.len() as int) =~= strings_view(lines@));
        }
    }

    /// Hands out the lines printed so far and forgets them.
    pub fn take_printed(&mut self) -> (r: Vec<String>)
        ensures
            strings_view(r@) == old(self).printed_view(),
            final(self).printed_view() == Seq::<Seq<char>>::empty(),
            final(self)@ == old(self)@,
    {
        let mut lines: Vec<String> = Vec::new();
        std::mem::swap(&mut lines, &mut self.printed);
        proof {
            assert(strings_view(self.printed@) =~= Seq::<Seq<char>>::empty());
        }
        lines
    }
}

/// Evaluates an expression at top level. Its result, the bindings afterwards and the
/// lines it prints (appended to the environment's printed lines) are those of `run`.
pub fn eval(expr: &Expr, env: &mut Env) -> (r: Result<Value, LispError>)
    ensures
        run(expr_view(*expr), old(env)@, Seq::empty()).res == res_value(r),
        run(expr_view(*expr), old(env)@, Seq::empty()).env == final(env)@,
        final(env).printed_view() == old(env).printed_view() + run(
            expr_view(*expr),
            old(env)@,
            Seq::empty(),
        ).out,
{
    let mut out: Vec<String> = Vec::new();
    proof {
        assert(strings_view(out@) =~= Seq::<Seq<char>>::empty());
    }
    let r = eval_top(expr, &mut env.vars, &mut out);
    env.record(out);
    r
}

/// Reads one expression from `src` and evaluates it; a reading error leaves the
/// environment as it was.
///
/// Evaluation runs on the caller's stack: deep recursion that is not run as a loop
/// (self-calls outside tail position that the accumulator rewrite does not take)
/// needs a large stack, which the caller must provide. Lines that `print` writes
/// are appended to the environment (see `Env::take_printed`) as evaluation goes
/// and handed out when the caller asks for them.
pub fn eval_source(src: &str, env: &mut Env) -> (r: Result<Value, LispError>)
    ensures
        match parse_spec(src@) {
            Err(e) => r is Err && error_view(r->Err_0) == e && final(env)@ == old(env)@
                && final(env).printed_view() == old(env).printed_view(),
            Ok(x) => {
                &&& run(x, old(env)@, Seq::empty()).res == res_value(r)
                &&& run(x, old(env)@, Seq::empty()).env == final(env)@
                &&& final(env).printed_view() == old(env).printed_view() + run(
                    x,
                    old(env)@,
                    Seq::empty(),
                ).out
            },
        },
{
    let expr = match parse(src) {
        Ok(e) => e,
        Err(e) => {
            return Err(e);
        },
    };
    eval(&expr, env)
}

/// Reads every expression in `src` and evaluates them in order, giving the last
/// value (`nil` for none); evaluation stops at the first error.
///
/// As with `eval_source`, evaluation runs on the caller's stack, and printed lines
/// are appended to the environment rather than written out.
pub fn eval_program(src: &str, env: &mut Env) -> (r: Result<Value, LispError>)
    ensures
        match parse_all_spec(tokens_of(src@), 0, Seq::empty()) {
            Err(e) => r is Err && error_view(r->Err_0) == e && final(env)@ == old(env)@
                && final(env).printed_view() == old(env).printed_view(),
            Ok(xs) => {
                &&& run_all(xs, old(env)@, Seq::empty(), SValue::Nil).res == res_value(r)
                &&& run_all(xs, old(env)@, Seq::empty(), SValue::Nil).env == final(env)@
                &&& final(env).printed_view() == old(env).printed_view() + run_all(
                    xs,
                    old(env)@,
                    Seq::empty(),
                    SValue::Nil,
                ).out
            },
        },
{
    let exprs = match parse_program(src) {
        Ok(xs) => xs,
        Err(e) => {
            return Err(e);
        },
    };
    proof {
        lemma_exprs_view_index(exprs@);
    }
    let ghost xs = exprs_view(exprs@);
    let ghost whole = run_all(xs, env@, Seq::empty(), SValue::Nil);
    let mut out: Vec<String> = Vec::new();
    let mut last = Value::Nil;
    let mut i: usize = 0;
    proof {
        assert(strings_view(out@) =~= Seq::<Seq<char>>::empty());
        assert(xs.skip(0) =~= xs);
    }
    while i < exprs.len()
        invariant
            i <= exprs@.len(),
            xs == exprs_view(exprs@),
            xs.len() == exprs@.len(),
            forall|k: int| 0 <= k < exprs@.len() ==> #[trigger] xs[k] == expr_view(exprs@[k]),
            env.printed == old(env).printed,
            parse_all_spec(tokens_of(src@), 0, Seq::empty()) == Ok::<Seq<SExpr>, SError>(xs),
            whole == run_all(xs, old(env)@, Seq::empty(), SValue::Nil),
            whole == run_all(
                xs.skip(i as int),
                bindings_view(env.vars@),
                strings_view(out@),
                value_view(last),
            ),
        decreases exprs@.len() - i,
    {
        proof {
            assert(xs.skip(i as int)[0] == expr_view(exprs@[i as int]));
            assert(xs.skip(i as int).drop_first() =~= xs.skip(i + 1));
        }
        let ghost env_i = bindings_view(env.vars@);
        let ghost out_i = strings_view(out@);
        let ghost last_i = value_view(last);
        match eval_top(&exprs[i], &mut env.vars, &mut out) {
            Ok(v) => {
                last = v;
            },
            Err(e) => {
                proof {
                    let st = run(xs.skip(i as int)[0], env_i, out_i);
                    assert(st.res is Err);
                    assert(run_all(xs.skip(i as int), env_i, out_i, last_i) == relay::<
                        SValue,
                        SValue,
                    >(st));
                }
                env.record(out);
                return Err(e);
            },
        }
        i = i + 1;
    }
    env.record(out);
    Ok(last)
}

} // verus!
