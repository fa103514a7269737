//! Little-endian sequences of base-10^9 limbs and their numeric value.
use vstd::prelude::*;

verus! {

/// The radix of one limb.
pub const BASE: u32 = 1_000_000_000;

/// `BASE` raised to the power `n`.
pub open spec fn pow_base(n: nat) -> nat
    decreases n,
{
    if n == 0 {
        1
    } else {
        1_000_000_000 * pow_base((n - 1) as nat)
    }
}

/// The number denoted by little-endian limbs `s` (limb `i` weighs `BASE^i`).
pub open spec fn limbs_value(s: Seq<u32>) -> nat
    decreases s.len(),
{
    if s.len() == 0 {
        0
    } else {
        limbs_value(s.drop_last()) + (s.last() as nat) * pow_base((s.len() - 1) as nat)
    }
}

/// Ten raised to the power `n`.
pub open spec fn pow_ten(n: nat) -> nat
    decreases n,
{
    if n == 0 {
        1
    } else {
        10 * pow_ten((n - 1) as nat)
    }
}

pub proof fn lemma_pow_ten_pos(n: nat)
    ensures
        pow_ten(n) >= 1,
    decreases n,
{
    if n > 0 {
        lemma_pow_ten_pos((n - 1) as nat);
    }
}

/// `10^9` is the limb base.
pub proof fn lemma_pow_ten_nine()
    ensures
        pow_ten(9) == 1_000_000_000,
{
    reveal_with_fuel(pow_ten, 10);
}

/// Every limb is a base-10^9 digit.
pub open spec fn limbs_ok(s: Seq<u32>) -> bool {
    forall|i: int| 0 <= i < s.len() ==> #[trigger] s[i] < BASE
}

/// No most-significant zero limb.
pub open spec fn limbs_trimmed(s: Seq<u32>) -> bool {
    s.len() == 0 || s.last() != 0
}

pub proof fn lemma_pow_base_pos(n: nat)
    ensures
        pow_base(n) >= 1,
    decreases n,
{
    if n > 0 {
        lemma_pow_base_pos((n - 1) as nat);
    }
}

pub proof fn lemma_pow_base_add(a: nat, b: nat)
    ensures
        pow_base(a + b) == pow_base(a) * pow_base(b),
    decreases a,
{
    if a > 0 {
        lemma_pow_base_add((a - 1) as nat, b);
        assert(pow_base(a + b) == 1_000_000_000 * pow_base((a - 1 + b) as nat));
        let x = pow_base((a - 1) as nat);
        let y = pow_base(b);
        assert(pow_base(a) == 1_000_000_000 * x);
        assert(1_000_000_000 * (x * y) == (1_000_000_000 * x) * y) by (nonlinear_arith);
    } else {
        assert(a + b == b);
        assert(pow_base(a) == 1);
    }
}

pub proof fn lemma_pow_base_mono(a: nat, b: nat)
    requires
        a <= b,
    ensures
        pow_base(a) <= pow_base(b),
    decreases b,
{
    if a < b {
        lemma_pow_base_mono(a, (b - 1) as nat);
        lemma_pow_base_pos((b - 1) as nat);
    }
}

pub proof fn lemma_limbs_push(s: Seq<u32>, d: u32)
    ensures
        limbs_value(s.push(d)) == limbs_value(s) + (d as nat) * pow_base(s.len()),
{
    assert(s.push(d).drop_last() =~= s);
}

pub proof fn lemma_limbs_take_step(s: Seq<u32>, i: int)
    requires
        0 <= i < s.len(),
    ensures
        limbs_value(s.take(i + 1)) == limbs_value(s.take(i)) + (s[i] as nat) * pow_base(i as nat),
{
    assert(s.take(i + 1) =~= s.take(i).push(s[i]));
    lemma_limbs_push(s.take(i), s[i]);
}

pub proof fn lemma_limbs_bound(s: Seq<u32>)
    requires
        limbs_ok(s),
    ensures
        limbs_value(s) < pow_base(s.len()),
    decreases s.len(),
{
    if s.len() > 0 {
        let t = s.drop_last();
        assert(limbs_ok(t)) by {
            assert forall|i: int| 0 <= i < t.len() implies #[trigger] t[i] < BASE by {
                assert(t[i] == s[i]);
            }
        }
        lemma_limbs_bound(t);
        let p = pow_base((s.len() - 1) as nat);
        let l = s.last() as nat;
        assert(s[s.len() - 1] < BASE);
        assert(limbs_value(t) + l * p < 1_000_000_000 * p) by (nonlinear_arith)
            requires
                limbs_value(t) < p,
                l < 1_000_000_000,
        ;
    }
}

/// A trimmed non-empty limb sequence is at least `BASE^(len-1)`.
pub proof fn lemma_limbs_lower(s: Seq<u32>)
    requires
        s.len() > 0,
        limbs_trimmed(s),
    ensures
        limbs_value(s) >= pow_base((s.len() - 1) as nat),
{
    let p = pow_base((s.len() - 1) as nat);
    let l = s.last() as nat;
    assert(l * p >= p) by (nonlinear_arith)
        requires
            l >= 1,
    ;
}

/// Limbs all zero denote zero.
pub proof fn lemma_limbs_zero(s: Seq<u32>)
    requires
        forall|i: int| 0 <= i < s.len() ==> #[trigger] s[i] == 0,
    ensures
        limbs_value(s) == 0,
    decreases s.len(),
{
    if s.len() > 0 {
        let t = s.drop_last();
        assert forall|i: int| 0 <= i < t.len() implies #[trigger] t[i] == 0 by {
            assert(t[i] == s[i]);
        }
        lemma_limbs_zero(t);
    }
}

/// Splitting at `k`: the low part plus `BASE^k` times the high part.
pub proof fn lemma_limbs_split(s: Seq<u32>, k: int)
    requires
        0 <= k <= s.len(),
    ensures
        limbs_value(s) == limbs_value(s.take(k)) + pow_base(k as nat) * limbs_value(s.skip(k)),
    decreases s.len(),
{
    if k == s.len() {
        assert(s.take(k) =~= s);
        assert(limbs_value(s.skip(k)) == 0);
        let pk = pow_base(k as nat);
        assert(pk * 0 == 0) by (nonlinear_arith);
    } else {
        let t = s.drop_last();
        lemma_limbs_split(t, k);
        assert(t.take(k) =~= s.take(k));
        assert(s.skip(k) =~= t.skip(k).push(s.last()));
        lemma_limbs_push(t.skip(k), s.last());
        lemma_pow_base_add(k as nat, (s.len() - 1 - k) as nat);
        let pk = pow_base(k as nat);
        let ph = pow_base((s.len() - 1 - k) as nat);
        let l = s.last() as nat;
        let h = limbs_value(t.skip(k));
        assert(pk * (h + l * ph) == pk * h + l * (pk * ph)) by (nonlinear_arith);
        assert(limbs_value(s) == limbs_value(t) + l * pow_base((s.len() - 1) as nat));
        assert((k + (s.len() - 1 - k)) as nat == (s.len() - 1) as nat);
    }
}

/// Changing limb `k` changes the value by the difference times `BASE^k`.
pub proof fn lemma_limbs_update(s: Seq<u32>, k: int, x: u32)
    requires
        0 <= k < s.len(),
    ensures
        limbs_value(s.update(k, x)) + (s[k] as nat) * pow_base(k as nat) == limbs_value(s) + (
        x as nat) * pow_base(k as nat),
    decreases s.len(),
{
    let u = s.update(k, x);
    if k == s.len() - 1 {
        assert(u.drop_last() =~= s.drop_last());
    } else {
        lemma_limbs_update(s.drop_last(), k, x);
        assert(u.drop_last() =~= s.drop_last().update(k, x));
    }
}

/// Peeling the lowest limb off a suffix.
pub proof fn lemma_skip_step(s: Seq<u32>, j: int)
    requires
        0 <= j < s.len(),
    ensures
        limbs_value(s.skip(j)) == s[j] + 1_000_000_000 * limbs_value(s.skip(j + 1)),
{
    let t = s.skip(j);
    lemma_limbs_split(t, 1);
    let u = t.take(1);
    assert(u.len() == 1);
    assert(u.drop_last() =~= Seq::<u32>::empty());
    assert(limbs_value(u.drop_last()) == 0);
    assert(u.last() == s[j]);
    assert(pow_base(0) == 1);
    assert(limbs_value(u) == limbs_value(u.drop_last()) + (u.last() as nat) * pow_base(0));
    let l = u.last() as nat;
    let p0 = pow_base(0);
    assert(l * p0 == l) by (nonlinear_arith)
        requires
            p0 == 1,
    ;
    assert(limbs_value(u) == s[j] as nat);
    assert(t.skip(1) =~= s.skip(j + 1));
    assert(pow_base(1) == 1_000_000_000);
}

/// A suffix keeping the (non-zero) top limb is positive.
pub proof fn lemma_skip_positive(s: Seq<u32>, j: int)
    requires
        0 <= j < s.len(),
        limbs_trimmed(s),
    ensures
        limbs_value(s.skip(j)) >= 1,
{
    let t = s.skip(j);
    assert(t.last() == s.last());
    lemma_limbs_lower(t);
    lemma_pow_base_pos((t.len() - 1) as nat);
}

/// The limbs of `a` and `b` agree from position `i` upwards.
pub open spec fn same_from(a: Seq<u32>, b: Seq<u32>, i: usize) -> bool {
    a.skip(i as int) == b.skip(i as int)
}

/// A shorter digit sequence is below a longer trimmed one.
pub proof fn lemma_shorter_smaller(s: Seq<u32>, t: Seq<u32>)
    requires
        s.len() < t.len(),
        limbs_ok(s),
        limbs_trimmed(t),
    ensures
        limbs_value(s) < limbs_value(t),
{
    lemma_limbs_bound(s);
    lemma_limbs_lower(t);
    lemma_pow_base_mono(s.len(), (t.len() - 1) as nat);
}

/// Agreement extends one limb down when limb `j` agrees.
pub proof fn lemma_same_from_step(a: Seq<u32>, b: Seq<u32>, j: usize)
    requires
        j < a.len(),
        a.len() == b.len(),
        a.len() <= usize::MAX,
        same_from(a, b, (j + 1) as usize),
        a[j as int] == b[j as int],
    ensures
        same_from(a, b, j),
{
    assert(a.skip(j as int) =~= seq![a[j as int]] + a.skip(j + 1));
    assert(b.skip(j as int) =~= seq![b[j as int]] + b.skip(j + 1));
}

/// Equal-length sequences agree above their last limb.
pub proof fn lemma_same_from_end(a: Seq<u32>, b: Seq<u32>)
    requires
        a.len() == b.len(),
        a.len() <= usize::MAX,
    ensures
        same_from(a, b, a.len() as usize),
{
    assert(a.skip(a.len() as int) =~= b.skip(b.len() as int));
}

/// Agreement from position 0 is equality.
pub proof fn lemma_same_from_zero(a: Seq<u32>, b: Seq<u32>)
    requires
        same_from(a, b, 0),
    ensures
        a == b,
{
    assert(a =~= a.skip(0));
    assert(b =~= b.skip(0));
}

/// With equal higher limbs, the highest differing limb decides the order.
pub proof fn lemma_top_difference(a: Seq<u32>, b: Seq<u32>, j: usize)
    requires
        j < a.len(),
        a.len() == b.len(),
        a.len() <= usize::MAX,
        limbs_ok(a),
        limbs_ok(b),
        same_from(a, b, (j + 1) as usize),
    ensures
        a[j as int] < b[j as int] ==> limbs_value(a) < limbs_value(b),
        a[j as int] > b[j as int] ==> limbs_value(a) > limbs_value(b),
{
    let i = j + 1;
    lemma_limbs_split(a, i as int);
    lemma_limbs_split(b, i as int);
    lemma_limbs_take_step(a, j as int);
    lemma_limbs_take_step(b, j as int);
    assert(limbs_ok(a.take(j as int)));
    assert(limbs_ok(b.take(j as int)));
    lemma_limbs_bound(a.take(j as int));
    lemma_limbs_bound(b.take(j as int));
    let p = pow_base(j as nat);
    let x = a[j as int] as int;
    let y = b[j as int] as int;
    if x < y {
        assert(x * p + p <= y * p) by (nonlinear_arith)
            requires
                x < y,
        ;
    } else if y < x {
        assert(y * p + p <= x * p) by (nonlinear_arith)
            requires
                y < x,
        ;
    }
}

} // verus!
