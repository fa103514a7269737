//! Properties of reading: where one expression's tokens lie, and how programs
//! join.
use vstd::prelude::*;
use crate::syntax::{
    SExpr, SError, parse_expr_spec, parse_items_spec, parse_all_spec, tokens_of, scan, flush,
};
use crate::text::is_whitespace;

verus! {

/// The error for reading past the last token.
pub open spec fn end_of_input() -> SError {
    SError::Parse("unexpected end of input"@)
}

proof fn lemma_parse_messages()
    ensures
        SError::Parse("missing closing ')'"@) != end_of_input(),
        SError::Parse("unexpected ')'"@) != end_of_input(),
{
    reveal_strlit("missing closing ')'");
    reveal_strlit("unexpected ')'");
    reveal_strlit("unexpected end of input");
    assert("missing closing ')'"@[0] == 'm');
    assert("unexpected end of input"@[0] == 'u');
    assert("unexpected ')'"@.len() == 14);
    assert("unexpected end of input"@.len() == 23);
}

/// Reading an expression fails with "unexpected end of input" exactly when the
/// position is past the last token; a successful read ends after it, and not past
/// the last token.
pub proof fn law_read_end_of_input(toks: Seq<Seq<char>>, pos: int)
    ensures
        (parse_expr_spec(toks, pos) == Err::<(SExpr, int), SError>(end_of_input())) <==> (pos < 0
            || pos >= toks.len()),
        parse_expr_spec(toks, pos) is Ok ==> pos < parse_expr_spec(toks, pos)->Ok_0.1 <= toks.len(),
    decreases toks.len() - pos, 1int,
{
    lemma_parse_messages();
    if 0 <= pos < toks.len() && toks[pos] == "("@ {
        lemma_items_range(toks, pos + 1, Seq::empty());
    }
}

proof fn lemma_items_range(toks: Seq<Seq<char>>, i: int, acc: Seq<SExpr>)
    requires
        i >= 1,
    ensures
        parse_items_spec(toks, i, acc) != Err::<(SExpr, int), SError>(end_of_input()),
        parse_items_spec(toks, i, acc) is Ok ==> i < parse_items_spec(toks, i, acc)->Ok_0.1
            <= toks.len(),
    decreases toks.len() - i, 2int,
{
    lemma_parse_messages();
    if i < toks.len() && toks[i] != ")"@ {
        law_read_end_of_input(toks, i);
        match parse_expr_spec(toks, i) {
            Ok((e, j)) => {
                lemma_items_range(toks, j, acc.push(e));
            },
            Err(_) => {},
        }
    }
}

/// A read of one expression depends only on its own tokens: any token sequence that
/// agrees with `t1` from `pos` up to where the read ended reads the same.
proof fn lemma_read_agree(t1: Seq<Seq<char>>, t2: Seq<Seq<char>>, pos: int)
    requires
        parse_expr_spec(t1, pos) is Ok,
        parse_expr_spec(t1, pos)->Ok_0.1 <= t2.len(),
        forall|k: int| pos <= k < parse_expr_spec(t1, pos)->Ok_0.1 ==> #[trigger] t1[k] == t2[k],
    ensures
        parse_expr_spec(t2, pos) == parse_expr_spec(t1, pos),
    decreases t1.len() - pos, 1int,
{
    law_read_end_of_input(t1, pos);
    if t1[pos] == "("@ {
        lemma_items_agree(t1, t2, pos + 1, Seq::empty());
    }
}

proof fn lemma_items_agree(t1: Seq<Seq<char>>, t2: Seq<Seq<char>>, i: int, acc: Seq<SExpr>)
    requires
        i >= 1,
        parse_items_spec(t1, i, acc) is Ok,
        parse_items_spec(t1, i, acc)->Ok_0.1 <= t2.len(),
        forall|k: int| i <= k < parse_items_spec(t1, i, acc)->Ok_0.1 ==> #[trigger] t1[k] == t2[k],
    ensures
        parse_items_spec(t2, i, acc) == parse_items_spec(t1, i, acc),
    decreases t1.len() - i, 2int,
{
    lemma_items_range(t1, i, acc);
    if t1[i] != ")"@ {
        law_read_end_of_input(t1, i);
        let (e, j) = parse_expr_spec(t1, i)->Ok_0;
        lemma_items_range(t1, j, acc.push(e));
        lemma_read_agree(t1, t2, i);
        lemma_items_agree(t1, t2, j, acc.push(e));
    }
}

/// The result of reading at `p` in `u`, moved `k` tokens on.
pub open spec fn shifted(r: Result<(SExpr, int), SError>, k: int) -> Result<(SExpr, int), SError> {
    match r {
        Ok((e, j)) => Ok((e, j + k)),
        Err(m) => Err(m),
    }
}

/// Tokens before a read do not matter: reading at `p` in `u` and at `t.len() + p`
/// in `t + u` give the same expression, and the same error.
proof fn lemma_read_shift(t: Seq<Seq<char>>, u: Seq<Seq<char>>, p: int)
    requires
        p >= 0,
    ensures
        parse_expr_spec(t + u, t.len() + p) == shifted(parse_expr_spec(u, p), t.len() as int),
    decreases u.len() - p, 1int,
{
    if p < u.len() {
        assert((t + u)[t.len() + p] == u[p]);
        if u[p] == "("@ {
            lemma_items_shift(t, u, p + 1, Seq::empty());
        }
    }
}

proof fn lemma_items_shift(t: Seq<Seq<char>>, u: Seq<Seq<char>>, i: int, acc: Seq<SExpr>)
    requires
        i >= 0,
    ensures
        parse_items_spec(t + u, t.len() + i, acc) == shifted(
            parse_items_spec(u, i, acc),
            t.len() as int,
        ),
    decreases u.len() - i, 2int,
{
    if i < u.len() {
        assert((t + u)[t.len() + i] == u[i]);
        if u[i] != ")"@ {
            lemma_read_shift(t, u, i);
            match parse_expr_spec(u, i) {
                Ok((e, j)) => {
                    if i < j <= u.len() {
                        lemma_items_shift(t, u, j, acc.push(e));
                    }
                },
                Err(_) => {},
            }
        }
    }
}

/// A read takes exactly its own tokens: when reading at `pos` gives `e` and ends at
/// `next`, the tokens from `pos` to `next` alone read as `e`, and so does any token
/// sequence that holds them from `pos` on.
pub proof fn law_read_takes_its_tokens(toks: Seq<Seq<char>>, pos: int, other: Seq<Seq<char>>)
    requires
        parse_expr_spec(toks, pos) is Ok,
    ensures
        ({
            let (e, next) = parse_expr_spec(toks, pos)->Ok_0;
            &&& 0 <= pos < next <= toks.len()
            &&& parse_expr_spec(toks.subrange(pos, next), 0) == Ok::<(SExpr, int), SError>(
                (e, next - pos),
            )
            &&& (next <= other.len() && other.subrange(pos, next) == toks.subrange(pos, next))
                ==> parse_expr_spec(other, pos) == parse_expr_spec(toks, pos)
        }),
{
    law_read_end_of_input(toks, pos);
    let (e, next) = parse_expr_spec(toks, pos)->Ok_0;
    let a = toks.subrange(0, pos);
    let b = toks.subrange(pos, next);
    // the tokens up to `next` read the same
    let upto = toks.subrange(0, next);
    assert forall|k: int| pos <= k < next implies #[trigger] toks[k] == upto[k] by {}
    lemma_read_agree(toks, upto, pos);
    assert(upto =~= a + b);
    lemma_read_shift(a, b, 0);
    assert(a.len() == pos);
    if next <= other.len() && other.subrange(pos, next) == toks.subrange(pos, next) {
        assert forall|k: int| pos <= k < next implies #[trigger] toks[k] == other[k] by {
            assert(toks[k] == toks.subrange(pos, next)[k - pos]);
            assert(other[k] == other.subrange(pos, next)[k - pos]);
        }
        lemma_read_agree(toks, other, pos);
    }
}

/// Reading a program from `pos` collects onto `acc`: collecting onto `pre + acc`
/// puts `pre` in front.
proof fn lemma_all_acc(toks: Seq<Seq<char>>, pos: int, pre: Seq<SExpr>, acc: Seq<SExpr>)
    ensures
        parse_all_spec(toks, pos, pre + acc) == match parse_all_spec(toks, pos, acc) {
            Ok(xs) => Ok::<Seq<SExpr>, SError>(pre + xs),
            Err(m) => Err(m),
        },
    decreases toks.len() - pos,
{
    if 0 <= pos < toks.len() {
        match parse_expr_spec(toks, pos) {
            Ok((e, next)) => {
                if pos < next <= toks.len() {
                    assert((pre + acc).push(e) =~= pre + acc.push(e));
                    lemma_all_acc(toks, next, pre, acc.push(e));
                }
            },
            Err(_) => {},
        }
    }
}

/// Reading a program from a position inside `t` continues into `u` unchanged.
proof fn lemma_all_prefix(t: Seq<Seq<char>>, u: Seq<Seq<char>>, pos: int, acc: Seq<SExpr>)
    requires
        0 <= pos <= t.len(),
        parse_all_spec(t, pos, acc) is Ok,
    ensures
        parse_all_spec(t + u, pos, acc) == parse_all_spec(t + u, t.len() as int, parse_all_spec(
            t,
            pos,
            acc,
        )->Ok_0),
    decreases t.len() - pos,
{
    if pos < t.len() {
        law_read_end_of_input(t, pos);
        let (e, next) = parse_expr_spec(t, pos)->Ok_0;
        assert forall|k: int| pos <= k < next implies #[trigger] t[k] == (t + u)[k] by {}
        lemma_read_agree(t, t + u, pos);
        lemma_all_prefix(t, u, next, acc.push(e));
    }
}

/// Reading a program in `u` from `p` reads the same in `t + u` from `t.len() + p`.
proof fn lemma_all_shift(t: Seq<Seq<char>>, u: Seq<Seq<char>>, p: int, acc: Seq<SExpr>)
    requires
        p >= 0,
    ensures
        parse_all_spec(t + u, t.len() + p, acc) == parse_all_spec(u, p, acc),
    decreases u.len() - p,
{
    if p < u.len() {
        lemma_read_shift(t, u, p);
        match parse_expr_spec(u, p) {
            Ok((e, next)) => {
                if p < next <= u.len() {
                    lemma_all_shift(t, u, next, acc.push(e));
                }
            },
            Err(_) => {},
        }
    }
}

/// Scanning on from a finished token list appends the tokens of the rest.
proof fn lemma_scan_append(p: Seq<char>, b: Seq<char>)
    requires
        scan(p).1.len() == 0,
    ensures
        scan(p + b) == (scan(p).0 + scan(b).0, scan(b).1),
    decreases b.len(),
{
    if b.len() == 0 {
        assert(p + b =~= p);
        assert(scan(p).0 + Seq::<Seq<char>>::empty() =~= scan(p).0);
    } else {
        lemma_scan_append(p, b.drop_last());
        assert((p + b).drop_last() =~= p + b.drop_last());
        assert((p + b).last() == b.last());
        let t = scan(p).0;
        let (x, cur) = scan(b.drop_last());
        assert(flush(t + x, cur) =~= t + flush(x, cur));
        assert(flush(t + x, cur).push(seq![b.last()]) =~= t + flush(x, cur).push(seq![b.last()]));
    }
}

/// Two texts joined by a space have the tokens of the first followed by those of
/// the second.
proof fn lemma_tokens_join(a: Seq<char>, b: Seq<char>)
    ensures
        tokens_of(a + seq![' '] + b) == tokens_of(a) + tokens_of(b),
{
    let a1 = a + seq![' '];
    assert(a1.drop_last() =~= a);
    assert(a1.last() == ' ');
    assert(is_whitespace(' '));
    assert(scan(a1) == (tokens_of(a), Seq::<char>::empty()));
    assert(a + seq![' '] + b =~= a1 + b);
    lemma_scan_append(a1, b);
    let (x, cur) = scan(b);
    assert(flush(tokens_of(a) + x, cur) =~= tokens_of(a) + flush(x, cur));
}

/// Text of white space only has no tokens.
proof fn lemma_blank_tokens(s: Seq<char>)
    requires
        forall|i: int| 0 <= i < s.len() ==> is_whitespace(#[trigger] s[i]),
    ensures
        scan(s) == (Seq::<Seq<char>>::empty(), Seq::<char>::empty()),
    decreases s.len(),
{
    if s.len() > 0 {
        let t = s.drop_last();
        assert forall|i: int| 0 <= i < t.len() implies is_whitespace(#[trigger] t[i]) by {
            assert(t[i] == s[i]);
        }
        lemma_blank_tokens(t);
        assert(is_whitespace(s.last()));
        assert(s.last() != '(' && s.last() != ')');
    }
}

/// Reading two programs joined by a space gives the expressions of the first
/// followed by those of the second; blank text reads as the empty program.
pub proof fn law_programs_join(a: Seq<char>, b: Seq<char>, blank: Seq<char>)
    requires
        parse_all_spec(tokens_of(a), 0, Seq::empty()) is Ok,
        parse_all_spec(tokens_of(b), 0, Seq::empty()) is Ok,
        forall|i: int| 0 <= i < blank.len() ==> is_whitespace(#[trigger] blank[i]),
    ensures
        parse_all_spec(tokens_of(a + seq![' '] + b), 0, Seq::empty()) == Ok::<Seq<SExpr>, SError>(
            parse_all_spec(tokens_of(a), 0, Seq::empty())->Ok_0 + parse_all_spec(
                tokens_of(b),
                0,
                Seq::empty(),
            )->Ok_0,
        ),
        parse_all_spec(tokens_of(blank), 0, Seq::empty()) == Ok::<Seq<SExpr>, SError>(
            Seq::empty(),
        ),
{
    let t = tokens_of(a);
    let u = tokens_of(b);
    let xs = parse_all_spec(t, 0, Seq::empty())->Ok_0;
    let ys = parse_all_spec(u, 0, Seq::empty())->Ok_0;
    lemma_tokens_join(a, b);
    lemma_all_prefix(t, u, 0, Seq::empty());
    lemma_all_shift(t, u, 0, xs);
    assert(t.len() + 0 == t.len());
    lemma_all_acc(u, 0, xs, Seq::empty());
    assert(xs + Seq::<SExpr>::empty() =~= xs);
    lemma_blank_tokens(blank);
}

} // verus!
