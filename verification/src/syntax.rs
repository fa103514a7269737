//! Expressions, runtime values and their mathematical models.
use vstd::prelude::*;
use crate::number::{Number, Frac, number_value, parse_number};
use crate::text::{
    is_whitespace, char_is_whitespace, str_chars, push_char, str_eq, char_string,
};

verus! {

/// A parsed expression.
#[derive(Debug, PartialEq)]
pub enum Expr {
    Number(Number),
    Symbol(String),
    List(Vec<Expr>),
}

/// The model of an expression.
pub enum SExpr {
    Num(Frac),
    Sym(Seq<char>),
    List(Seq<SExpr>),
}

/// The model of an expression.
pub open spec fn expr_view(e: Expr) -> SExpr
    decreases e,
{
    match e {
        Expr::Number(n) => SExpr::Num(n@),
        Expr::Symbol(s) => SExpr::Sym(s@),
        Expr::List(v) => SExpr::List(exprs_view(v@)),
    }
}

/// The models of a sequence of expressions.
pub open spec fn exprs_view(s: Seq<Expr>) -> Seq<SExpr>
    decreases s,
{
    if s.len() == 0 {
        Seq::empty()
    } else {
        exprs_view(s.drop_last()).push(expr_view(s.last()))
    }
}

/// The models of a sequence of strings.
pub open spec fn strings_view(s: Seq<String>) -> Seq<Seq<char>> {
    s.map_values(|t: String| t@)
}

/// A failure while reading or evaluating.
#[derive(Debug, PartialEq)]
pub enum LispError {
    Parse(String),
    Eval(String),
}

/// The model of a failure.
pub enum SError {
    Parse(Seq<char>),
    Eval(Seq<char>),
}

/// The model of a failure.
pub open spec fn error_view(e: LispError) -> SError {
    match e {
        LispError::Parse(m) => SError::Parse(m@),
        LispError::Eval(m) => SError::Eval(m@),
    }
}

/// The completed tokens followed by the pending one, if any.
pub open spec fn flush(toks: Seq<Seq<char>>, cur: Seq<char>) -> Seq<Seq<char>> {
    if cur.len() == 0 {
        toks
    } else {
        toks.push(cur)
    }
}

/// Left-to-right scan: the completed tokens and the token being built.
pub open spec fn scan(s: Seq<char>) -> (Seq<Seq<char>>, Seq<char>)
    decreases s.len(),
{
    if s.len() == 0 {
        (Seq::empty(), Seq::empty())
    } else {
        let (toks, cur) = scan(s.drop_last());
        let c = s.last();
        if c == '(' || c == ')' {
            (flush(toks, cur).push(seq![c]), Seq::empty())
        } else if is_whitespace(c) {
            (flush(toks, cur), Seq::empty())
        } else {
            (toks, cur.push(c))
        }
    }
}

/// The tokens of a source text: each parenthesis alone, and every maximal run of
/// characters that are neither parentheses nor white space.
pub open spec fn tokens_of(s: Seq<char>) -> Seq<Seq<char>> {
    flush(scan(s).0, scan(s).1)
}

/// Splits source text into tokens.
pub fn tokenize(src: &str) -> (r: Vec<String>)
    ensures
        strings_view(r@) == tokens_of(src@),
{
    let cs = str_chars(src);
    let mut toks: Vec<String> = Vec::new();
    let mut cur = String::new();
    let mut pending = false;
    let mut i: usize = 0;
    proof {
        assert(cs@.take(0) =~= Seq::<char>::empty());
        assert(strings_view(toks@) =~= Seq::<Seq<char>>::empty());
    }
    while i < cs.len()
        invariant
            i <= cs@.len(),
            cs@ == src@,
            pending == (cur@.len() > 0),
            (strings_view(toks@), cur@) == scan(cs@.take(i as int)),
        decreases cs@.len() - i,
    {
        let c = cs[i];
        proof {
            assert(cs@.take(i + 1).drop_last() =~= cs@.take(i as int));
        }
        if c == '(' || c == ')' {
            if pending {
                let done = cur;
                cur = String::new();
                pending = false;
                let ghost before = toks@;
                toks.push(done);
                proof {
                    assert(strings_view(toks@) =~= strings_view(before).push(done@));
                }
            }
            let ghost before = toks@;
            toks.push(char_string(c));
            proof {
                assert(strings_view(toks@) =~= strings_view(before).push(seq![c]));
            }
        } else if char_is_whitespace(c) {
            if pending {
                let done = cur;
                cur = String::new();
                pending = false;
                let ghost before = toks@;
                toks.push(done);
                proof {
                    assert(strings_view(toks@) =~= strings_view(before).push(done@));
                }
            }
        } else {
            push_char(&mut cur, c);
            pending = true;
        }
        proof {
            assert(cur@ == scan(cs@.take(i + 1)).1);
            assert(strings_view(toks@) =~= scan(cs@.take(i + 1)).0);
        }
        i = i + 1;
    }
    proof {
        assert(cs@.take(cs@.len() as int) =~= cs@);
    }
    if pending {
        let ghost before = toks@;
        toks.push(cur);
        proof {
            assert(strings_view(toks@) =~= strings_view(before).push(cur@));
        }
    }
    toks
}

/// Reads one expression starting at token `pos`: its model and the position after it.
pub open spec fn parse_expr_spec(toks: Seq<Seq<char>>, pos: int) -> Result<(SExpr, int), SError>
    decreases toks.len() - pos, 1int,
{
    if pos < 0 || pos >= toks.len() {
        Err(SError::Parse("unexpected end of input"@))
    } else if toks[pos] == "("@ {
        parse_items_spec(toks, pos + 1, Seq::empty())
    } else if toks[pos] == ")"@ {
        Err(SError::Parse("unexpected ')'"@))
    } else {
        match number_value(toks[pos]) {
            Some(f) => Ok((SExpr::Num(f), pos + 1)),
            None => Ok((SExpr::Sym(toks[pos]), pos + 1)),
        }
    }
}

/// Reads the rest of a list whose items so far are `acc`, from token `i` up to and
/// including the closing parenthesis.
pub open spec fn parse_items_spec(toks: Seq<Seq<char>>, i: int, acc: Seq<SExpr>) -> Result<
    (SExpr, int),
    SError,
>
    decreases toks.len() - i, 2int,
{
    if i < 0 || i >= toks.len() {
        Err(SError::Parse("missing closing ')'"@))
    } else if toks[i] == ")"@ {
        Ok((SExpr::List(acc), i + 1))
    } else {
        match parse_expr_spec(toks, i) {
            Err(e) => Err(e),
            Ok((e, j)) => if i < j <= toks.len() {
                parse_items_spec(toks, j, acc.push(e))
            } else {
                Err(SError::Parse("unexpected end of input"@))
            },
        }
    }
}

/// An owned copy of a literal message.
pub fn text(lit: &str) -> (r: String)
    ensures
        r@ == lit@,
{
    lit.to_owned()
}

/// Reads one expression starting at token `pos`.
fn parse_expr(tokens: &Vec<String>, pos: usize) -> (r: Result<(Expr, usize), LispError>)
    ensures
        match r {
            Ok((e, next)) => parse_expr_spec(strings_view(tokens@), pos as int) == Ok::<
                (SExpr, int),
                SError,
            >((expr_view(e), next as int)) && pos < next <= tokens@.len(),
            Err(err) => parse_expr_spec(strings_view(tokens@), pos as int) == Err::<
                (SExpr, int),
                SError,
            >(error_view(err)),
        },
    decreases tokens@.len() - pos,
{
    let ghost toks = strings_view(tokens@);
    if pos >= tokens.len() {
        return Err(LispError::Parse(text("unexpected end of input")));
    }
    let token = &tokens[pos];
    proof {
        assert(toks[pos as int] == token@);
    }
    if str_eq(token.as_str(), "(") {
        let mut list: Vec<Expr> = Vec::new();
        let mut i = pos + 1;
        proof {
            assert(exprs_view(list@) =~= Seq::<SExpr>::empty());
        }
        while i < tokens.len()
            invariant
                pos < i <= tokens@.len(),
                toks == strings_view(tokens@),
                parse_items_spec(toks, i as int, exprs_view(list@)) == parse_expr_spec(
                    toks,
                    pos as int,
                ),
            decreases tokens@.len() - i,
        {
            let next = &tokens[i];
            proof {
                assert(toks[i as int] == next@);
            }
            if str_eq(next.as_str(), ")") {
                return Ok((Expr::List(list), i + 1));
            }
            let (expr, next_i) = match parse_expr(tokens, i) {
                Ok(p) => p,
                Err(e) => {
                    return Err(e);
                },
            };
            let ghost before = list@;
            list.push(expr);
            proof {
                assert(list@.drop_last() =~= before);
                assert(exprs_view(list@) == exprs_view(before).push(expr_view(expr)));
            }
            i = next_i;
        }
        Err(LispError::Parse(text("missing closing ')'")))
    } else if str_eq(token.as_str(), ")") {
        Err(LispError::Parse(text("unexpected ')'")))
    } else {
        match parse_number(token.as_str()) {
            Some(n) => Ok((Expr::Number(n), pos + 1)),
            None => Ok((Expr::Symbol(token.clone()), pos + 1)),
        }
    }
}

/// What `parse` makes of a source text: exactly one expression.
pub open spec fn parse_spec(src: Seq<char>) -> Result<SExpr, SError> {
    let toks = tokens_of(src);
    if toks.len() == 0 {
        Err(SError::Parse("empty input"@))
    } else {
        match parse_expr_spec(toks, 0) {
            Err(e) => Err(e),
            Ok((e, next)) => if next != toks.len() {
                Err(SError::Parse("unexpected tokens after expression"@))
            } else {
                Ok(e)
            },
        }
    }
}

/// The model of a parse result.
pub open spec fn parsed_view(r: Result<Expr, LispError>) -> Result<SExpr, SError> {
    match r {
        Ok(e) => Ok(expr_view(e)),
        Err(e) => Err(error_view(e)),
    }
}

/// Reads a source text holding exactly one expression.
pub fn parse(src: &str) -> (r: Result<Expr, LispError>)
    ensures
        parsed_view(r) == parse_spec(src@),
{
    let tokens = tokenize(src);
    if tokens.len() == 0 {
        return Err(LispError::Parse(text("empty input")));
    }
    let (expr, next) = match parse_expr(&tokens, 0) {
        Ok(p) => p,
        Err(e) => {
            return Err(e);
        },
    };
    if next != tokens.len() {
        return Err(LispError::Parse(text("unexpected tokens after expression")));
    }
    Ok(expr)
}

/// Reads expressions from token `pos` to the end.
pub open spec fn parse_all_spec(toks: Seq<Seq<char>>, pos: int, acc: Seq<SExpr>) -> Result<
    Seq<SExpr>,
    SError,
>
    decreases toks.len() - pos,
{
    if pos < 0 || pos >= toks.len() {
        Ok(acc)
    } else {
        match parse_expr_spec(toks, pos) {
            Err(e) => Err(e),
            Ok((e, next)) => if pos < next <= toks.len() {
                parse_all_spec(toks, next, acc.push(e))
            } else {
                Err(SError::Parse("unexpected end of input"@))
            },
        }
    }
}

/// The model of a program parse result.
pub open spec fn program_view(r: Result<Vec<Expr>, LispError>) -> Result<Seq<SExpr>, SError> {
    match r {
        Ok(v) => Ok(exprs_view(v@)),
        Err(e) => Err(error_view(e)),
    }
}

/// Reads a source text holding any number of expressions.
pub fn parse_program(src: &str) -> (r: Result<Vec<Expr>, LispError>)
    ensures
        program_view(r) == parse_all_spec(tokens_of(src@), 0, Seq::empty()),
{
    let tokens = tokenize(src);
    let ghost toks = strings_view(tokens@);
    let mut exprs: Vec<Expr> = Vec::new();
    if tokens.len() == 0 {
        proof {
            assert(exprs_view(exprs@) =~= Seq::<SExpr>::empty());
        }
        return Ok(exprs);
    }
    let mut pos: usize = 0;
    proof {
        assert(exprs_view(exprs@) =~= Seq::<SExpr>::empty());
    }
    while pos < tokens.len()
        invariant
            pos <= tokens@.len(),
            toks == strings_view(tokens@),
            toks == tokens_of(src@),
            parse_all_spec(toks, pos as int, exprs_view(exprs@)) == parse_all_spec(
                toks,
                0,
                Seq::empty(),
            ),
        decreases tokens@.len() - pos,
    {
        let (expr, next) = match parse_expr(&tokens, pos) {
            Ok(p) => p,
            Err(e) => {
                return Err(e);
            },
        };
        let ghost before = exprs@;
        exprs.push(expr);
        proof {
            assert(exprs@.drop_last() =~= before);
        }
        pos = next;
    }
    Ok(exprs)
}

/// The models of the first `i` expressions extend one at a time.
pub proof fn lemma_exprs_view_take(v: Seq<Expr>, i: int)
    requires
        0 <= i < v.len(),
    ensures
        exprs_view(v.take(i + 1)) == exprs_view(v.take(i)).push(expr_view(v[i])),
{
    assert(v.take(i + 1).drop_last() =~= v.take(i));
}

/// The models of a whole sequence have its length and its elements' models.
pub proof fn lemma_exprs_view_index(v: Seq<Expr>)
    ensures
        exprs_view(v).len() == v.len(),
        forall|i: int| 0 <= i < v.len() ==> #[trigger] exprs_view(v)[i] == expr_view(v[i]),
    decreases v.len(),
{
    if v.len() > 0 {
        lemma_exprs_view_index(v.drop_last());
        assert forall|i: int| 0 <= i < v.len() implies #[trigger] exprs_view(v)[i] == expr_view(
            v[i],
        ) by {
            if i < v.len() - 1 {
                assert(exprs_view(v.drop_last())[i] == expr_view(v.drop_last()[i]));
            }
        }
    }
}

impl Clone for Expr {
    fn clone(&self) -> (r: Self)
        ensures
            expr_view(r) == expr_view(*self),
        decreases self,
    {
        match self {
            Expr::Number(n) => Expr::Number(n.clone()),
            Expr::Symbol(s) => Expr::Symbol(s.clone()),
            Expr::List(v) => {
                let mut out: Vec<Expr> = Vec::new();
                let mut i: usize = 0;
                proof {
                    assert(v@.take(0) =~= Seq::<Expr>::empty());
                    assert(exprs_view(out@) =~= exprs_view(v@.take(0)));
                }
                while i < v.len()
                    invariant
                        i <= v@.len(),
                        *self == Expr::List(*v),
                        exprs_view(out@) == exprs_view(v@.take(i as int)),
                    decreases v@.len() - i,
                {
                    proof {
                        vstd::std_specs::vec::axiom_vec_index_decreases(*v, i as int);
                        assert(decreases_to!(*self => self->List_0));
                        assert(decreases_to!(*self => v@[i as int]));
                    }
                    let e = v[i].clone();
                    let ghost before = out@;
                    out.push(e);
                    proof {
                        assert(out@.drop_last() =~= before);
                        lemma_exprs_view_take(v@, i as int);
                    }
                    i = i + 1;
                }
                proof {
                    assert(v@.take(v@.len() as int) =~= v@);
                }
                Expr::List(out)
            },
        }
    }
}

impl LispError {
    /// The message as shown to a user: `parse error: ...` or `eval error: ...`.
    pub fn describe(&self) -> (r: String)
        ensures
            r@ == match error_view(*self) {
                SError::Parse(m) => "parse error: "@ + m,
                SError::Eval(m) => "eval error: "@ + m,
            },
    {
        match self {
            LispError::Parse(m) => {
                let mut s = text("parse error: ");
                s.append(m.as_str());
                s
            },
            LispError::Eval(m) => {
                let mut s = text("eval error: ");
                s.append(m.as_str());
                s
            },
        }
    }
}

} // verus!
