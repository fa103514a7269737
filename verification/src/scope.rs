//! Closed-over bindings in canonical form: one binding per name, ordered by name,
//! so that two functions over the same bindings are equal as values.
use vstd::prelude::*;
use crate::eval::{Value, value_view, bindings_view, value_clone, lemma_bindings_suffix};
use crate::text::{str_chars, str_eq};

verus! {

/// Strict lexicographic order of names, by character code.
pub open spec fn key_less(a: Seq<char>, b: Seq<char>) -> bool
    decreases a.len(),
{
    if a.len() == 0 {
        b.len() > 0
    } else if b.len() == 0 {
        false
    } else if a[0] != b[0] {
        (a[0] as int) < (b[0] as int)
    } else {
        key_less(a.drop_first(), b.drop_first())
    }
}

/// The names of `s` strictly increase (so each occurs once).
pub open spec fn keys_sorted(s: Seq<(String, Value)>) -> bool {
    forall|i: int, j: int| 0 <= i < j < s.len() ==> key_less(#[trigger] s[i].0@, #[trigger] s[j].0@)
}

/// `key_less` is a strict total order.
pub proof fn lemma_key_order(a: Seq<char>, b: Seq<char>, c: Seq<char>)
    ensures
        !key_less(a, a),
        key_less(a, b) ==> !key_less(b, a),
        a != b ==> key_less(a, b) || key_less(b, a),
        key_less(a, b) && key_less(b, c) ==> key_less(a, c),
    decreases a.len(),
{
    if a.len() > 0 && b.len() > 0 {
        let c2 = if c.len() > 0 {
            c.drop_first()
        } else {
            a.drop_first()
        };
        lemma_key_order(a.drop_first(), b.drop_first(), c2);
        if a != b && a[0] == b[0] {
            if a.drop_first() == b.drop_first() {
                assert forall|i: int| 0 <= i < a.len() implies a[i] == b[i] by {
                    if i > 0 {
                        assert(a[i] == a.drop_first()[i - 1]);
                        assert(b[i] == b.drop_first()[i - 1]);
                    }
                }
                assert(a =~= b);
            }
        }
    } else if a.len() > 0 {
        lemma_key_order(a.drop_first(), a.drop_first(), a.drop_first());
    } else if b.len() == 0 {
        assert(a =~= b);
    }
}

/// Every name of a list is bound by it.
proof fn lemma_bindings_has(s: Seq<(String, Value)>, t: int)
    requires
        0 <= t < s.len(),
    ensures
        bindings_view(s).dom().contains(s[t].0@),
    decreases s.len(),
{
    if t < s.len() - 1 {
        lemma_bindings_has(s.drop_last(), t);
        assert(s.drop_last()[t] == s[t]);
    }
}

/// Whether `a` comes before `b` by name.
pub fn str_less(a: &str, b: &str) -> (r: bool)
    ensures
        r == key_less(a@, b@),
{
    let x = str_chars(a);
    let y = str_chars(b);
    let mut i: usize = 0;
    proof {
        assert(x@.skip(0) =~= x@);
        assert(y@.skip(0) =~= y@);
    }
    while i < x.len() && i < y.len() && x[i] == y[i]
        invariant
            i <= x@.len(),
            i <= y@.len(),
            x@ == a@,
            y@ == b@,
            key_less(a@, b@) == key_less(x@.skip(i as int), y@.skip(i as int)),
        decreases x@.len() - i,
    {
        proof {
            assert(x@.skip(i as int).drop_first() =~= x@.skip(i + 1));
            assert(y@.skip(i as int).drop_first() =~= y@.skip(i + 1));
        }
        i = i + 1;
    }
    if i == x.len() {
        i < y.len()
    } else if i == y.len() {
        false
    } else {
        let cx = x[i];
        let cy = y[i];
        proof {
            assert(x@.skip(i as int)[0] == cx);
            assert(y@.skip(i as int)[0] == cy);
        }
        cx < cy
    }
}

/// Some binding from position `lo` on is for `key`.
pub open spec fn names_from(s: Seq<(String, Value)>, lo: int, key: Seq<char>) -> bool {
    exists|t: int| lo <= t < s.len() && #[trigger] s[t].0@ == key
}

/// In a list without repeated names, a name is bound exactly where it occurs.
proof fn lemma_sorted_lookup(s: Seq<(String, Value)>, key: Seq<char>)
    requires
        keys_sorted(s),
    ensures
        bindings_view(s).dom().contains(key) <==> exists|t: int| 0 <= t < s.len() && #[trigger] s[t].0@
            == key,
        forall|t: int|
            0 <= t < s.len() && #[trigger] s[t].0@ == key ==> bindings_view(s)[key] == value_view(
                s[t].1,
            ),
{
    if exists|t: int| 0 <= t < s.len() && #[trigger] s[t].0@ == key {
        let t = choose|t: int| 0 <= t < s.len() && #[trigger] s[t].0@ == key;
        assert forall|k: int| t + 1 <= k < s.len() implies (#[trigger] s[k]).0@ != key by {
            lemma_key_order(s[t].0@, s[t].0@, s[t].0@);
            assert(key_less(s[t].0@, s[k].0@));
        }
        lemma_bindings_suffix(s, t + 1, key);
        assert(s.take(t + 1).drop_last() =~= s.take(t));
        assert(s.take(t + 1).last() == s[t]);
        assert forall|u: int| 0 <= u < s.len() && #[trigger] s[u].0@ == key implies bindings_view(
            s,
        )[key] == value_view(s[u].1) by {
            if u != t {
                lemma_key_order(key, key, key);
                if u < t {
                    assert(key_less(s[u].0@, s[t].0@));
                } else {
                    assert(key_less(s[t].0@, s[u].0@));
                }
            }
        }
    } else {
        lemma_bindings_suffix(s, 0, key);
        assert(s.take(0) =~= Seq::<(String, Value)>::empty());
    }
}

/// The bindings of `vars` (a later binding of a name hiding an earlier one) as a
/// list with one binding per name, ordered by name.
pub fn canonical_bindings(vars: &Vec<(String, Value)>) -> (r: Vec<(String, Value)>)
    ensures
        bindings_view(r@) == bindings_view(vars@),
        keys_sorted(r@),
{
    let n = vars.len();
    let ghost whole = bindings_view(vars@);
    let mut out: Vec<(String, Value)> = Vec::new();
    let mut i = n;
    while i > 0
        invariant
            i <= n,
            n == vars@.len(),
            whole == bindings_view(vars@),
            keys_sorted(out@),
            forall|key: Seq<char>| #[trigger]
                names_from(out@, 0, key) <==> names_from(vars@, i as int, key),
            forall|q: int|
                0 <= q < out@.len() ==> whole.dom().contains(#[trigger] out@[q].0@) && whole[out@[q].0@]
                    == value_view(out@[q].1),
        decreases i,
    {
        let j = i - 1;
        let key = &vars[j].0;
        let mut p: usize = 0;
        while p < out.len() && str_less(out[p].0.as_str(), key.as_str())
            invariant
                p <= out@.len(),
                forall|q: int| 0 <= q < p ==> key_less(#[trigger] out@[q].0@, key@),
            decreases out@.len() - p,
        {
            p = p + 1;
        }
        let found = p < out.len() && str_eq(out[p].0.as_str(), key.as_str());
        proof {
            if !found {
                assert forall|q: int| 0 <= q < out@.len() implies (#[trigger] out@[q]).0@
                    != key@ by {
                    lemma_key_order(key@, key@, key@);
                    if q >= p {
                        let op = out@[p as int].0@;
                        lemma_key_order(op, key@, op);
                        assert(key_less(key@, op));
                        if q > p {
                            assert(key_less(op, out@[q].0@));
                            lemma_key_order(key@, op, out@[q].0@);
                        }
                    }
                }
            }
        }
        if !found {
            let ghost before = out@;
            proof {
                assert(!names_from(out@, 0, key@));
                assert forall|k: int| j + 1 <= k < n implies (#[trigger] vars@[k]).0@ != key@ by {
                    if vars@[k].0@ == key@ {
                        assert(names_from(vars@, i as int, key@));
                    }
                }
                lemma_bindings_suffix(vars@, j + 1, key@);
                assert(vars@.take(j + 1).drop_last() =~= vars@.take(j as int));
                assert(vars@.take(j + 1).last() == vars@[j as int]);
            }
            let v = value_clone(&vars[j].1);
            out.insert(p, (key.clone(), v));
            proof {
                assert forall|a: int, b: int| 0 <= a < b < out@.len() implies key_less(
                    #[trigger] out@[a].0@,
                    #[trigger] out@[b].0@,
                ) by {
                    if b < p {
                        assert(out@[a] == before[a] && out@[b] == before[b]);
                    } else if b == p {
                        assert(out@[a] == before[a]);
                    } else if a == p {
                        let ob = before[b - 1];
                        assert(out@[b] == ob);
                        let op = before[p as int].0@;
                        lemma_key_order(op, key@, op);
                        if b - 1 > p {
                            assert(key_less(op, ob.0@));
                            lemma_key_order(key@, op, ob.0@);
                        }
                    } else if a < p {
                        assert(out@[a] == before[a] && out@[b] == before[b - 1]);
                    } else {
                        assert(out@[a] == before[a - 1] && out@[b] == before[b - 1]);
                    }
                }
                assert forall|kk: Seq<char>| #[trigger]
                    names_from(out@, 0, kk) <==> names_from(vars@, j as int, kk) by {
                    if exists|q: int| 0 <= q < out@.len() && #[trigger] out@[q].0@ == kk {
                        let q = choose|q: int| 0 <= q < out@.len() && #[trigger] out@[q].0@ == kk;
                        if q == p {
                            assert(vars@[j as int].0@ == kk);
                        } else if q < p {
                            assert(out@[q] == before[q]);
                            assert(names_from(before, 0, kk));
                        } else {
                            assert(out@[q] == before[q - 1]);
                            assert(names_from(before, 0, kk));
                        }
                    }
                    if exists|t: int| j <= t < n && #[trigger] vars@[t].0@ == kk {
                        let t = choose|t: int| j <= t < n && #[trigger] vars@[t].0@ == kk;
                        if t == j {
                            assert(out@[p as int].0@ == kk);
                        } else {
                            assert(names_from(vars@, i as int, kk));
                            assert(names_from(before, 0, kk));
                            let q = choose|q: int|
                                0 <= q < before.len() && #[trigger] before[q].0@ == kk;
                            if q < p {
                                assert(out@[q] == before[q]);
                            } else {
                                assert(out@[q + 1] == before[q]);
                            }
                        }
                    }
                }
                assert forall|q: int| 0 <= q < out@.len() implies whole.dom().contains(
                    #[trigger] out@[q].0@,
                ) && whole[out@[q].0@] == value_view(out@[q].1) by {
                    if q < p {
                        assert(out@[q] == before[q]);
                    } else if q > p {
                        assert(out@[q] == before[q - 1]);
                    }
                }
            }
        } else {
            proof {
                assert forall|kk: Seq<char>| #[trigger]
                    names_from(out@, 0, kk) <==> names_from(vars@, j as int, kk) by {
                    if exists|t: int| j <= t < n && #[trigger] vars@[t].0@ == kk {
                        let t = choose|t: int| j <= t < n && #[trigger] vars@[t].0@ == kk;
                        if t == j {
                            assert(out@[p as int].0@ == kk);
                        }
                    }
                }
            }
        }
        i = j;
    }
    proof {
        assert forall|key: Seq<char>| #[trigger] bindings_view(out@).dom().contains(key)
            <==> whole.dom().contains(key) by {
            lemma_sorted_lookup(out@, key);
            if names_from(vars@, 0, key) {
                let t = choose|t: int| 0 <= t < n && #[trigger] vars@[t].0@ == key;
                lemma_bindings_has(vars@, t);
            } else {
                lemma_bindings_suffix(vars@, 0, key);
                assert(vars@.take(0) =~= Seq::<(String, Value)>::empty());
            }
            if names_from(out@, 0, key) {
                let q = choose|q: int| 0 <= q < out@.len() && #[trigger] out@[q].0@ == key;
                assert(out@[q].0@ == key);
            }
        }
        assert forall|key: Seq<char>| #[trigger] bindings_view(out@).dom().contains(key)
            implies bindings_view(out@)[key] == whole[key] by {
            lemma_sorted_lookup(out@, key);
            let q = choose|q: int| 0 <= q < out@.len() && #[trigger] out@[q].0@ == key;
        }
        assert(bindings_view(out@) =~= whole);
    }
    out
}

} // verus!
