//! Exact rational numbers: a numerator over a positive denominator.
use vstd::prelude::*;
use std::cmp::Ordering;
use vstd::std_specs::cmp::{PartialEqSpecImpl, PartialOrdSpecImpl};
use crate::bigint::{BigInt, order_of, decimal_value};
use crate::limbs::pow_ten;
use crate::text::{
    push_char, push_all, str_chars, dec_int, all_digits, digits_value, first_index_of, find_char,
    range_all_digits,
};

verus! {

/// A fraction as a pair of mathematical integers (not reduced).
pub struct Frac {
    pub num: int,
    pub den: int,
}

/// What `from_parts` makes of a numerator and a denominator: nothing for a zero
/// denominator, `0/1` for a zero numerator, otherwise the pair with the sign moved up.
pub open spec fn frac_from_parts(num: int, den: int) -> Option<Frac> {
    if den == 0 {
        None
    } else if num == 0 {
        Some(Frac { num: 0, den: 1 })
    } else if den < 0 {
        Some(Frac { num: -num, den: -den })
    } else {
        Some(Frac { num, den })
    }
}

/// The sum as computed by cross-multiplication.
pub open spec fn frac_add(a: Frac, b: Frac) -> Frac {
    frac_from_parts(a.num * b.den + b.num * a.den, a.den * b.den).unwrap()
}

/// The product.
pub open spec fn frac_mul(a: Frac, b: Frac) -> Frac {
    frac_from_parts(a.num * b.num, a.den * b.den).unwrap()
}

/// The negation.
pub open spec fn frac_neg(a: Frac) -> Frac {
    Frac { num: -a.num, den: a.den }
}

/// The difference, as `a + (-b)`.
pub open spec fn frac_sub(a: Frac, b: Frac) -> Frac {
    frac_add(a, frac_neg(b))
}

/// Whether two fractions denote the same rational.
pub open spec fn frac_eq(a: Frac, b: Frac) -> bool {
    a.num * b.den == b.num * a.den
}

/// `n/d`, or just `n` when the denominator is one.
pub open spec fn frac_text(a: Frac) -> Seq<char> {
    if a.den == 1 {
        dec_int(a.num)
    } else {
        dec_int(a.num) + seq!['/'] + dec_int(a.den)
    }
}

/// An exact rational number.
#[derive(Debug)]
pub struct Number {
    numer: BigInt,
    denom: BigInt,
}

impl View for Number {
    type V = Frac;

    closed spec fn view(&self) -> Frac {
        Frac { num: self.numer@, den: self.denom@ }
    }
}

impl Number {
    #[verifier::type_invariant]
    closed spec fn inv(self) -> bool {
        self.denom@ > 0
    }

    /// The integer `v` as `v/1`.
    pub fn from_i64(v: i64) -> (r: Self)
        ensures
            r@ == (Frac { num: v as int, den: 1 }),
    {
        Number { numer: BigInt::from_i64(v), denom: BigInt::one() }
    }

    /// `numer/denom`, or `None` when the denominator is zero.
    pub fn from_parts(numer: BigInt, denom: BigInt) -> (r: Option<Self>)
        ensures
            match frac_from_parts(numer@, denom@) {
                Some(f) => r matches Some(x) && x@ == f,
                None => r is None,
            },
    {
        if denom.is_zero() {
            return None;
        }
        if numer.is_zero() {
            return Some(Self::from_i64(0));
        }
        if denom < BigInt::zero() {
            return Some(Number { numer: numer.neg(), denom: denom.neg() });
        }
        Some(Number { numer, denom })
    }

    /// Whether the numerator is zero.
    pub fn is_zero(&self) -> (r: bool)
        ensures
            r == (self@.num == 0),
    {
        self.numer.is_zero()
    }

    /// Whether the denominator is one.
    pub fn is_integer(&self) -> (r: bool)
        ensures
            r == (self@.den == 1),
    {
        self.denom == BigInt::one()
    }

    /// `denom/numer`, or `None` for zero.
    pub fn reciprocal(&self) -> (r: Option<Self>)
        ensures
            match frac_from_parts(self@.den, self@.num) {
                Some(f) => r matches Some(x) && x@ == f,
                None => r is None,
            },
    {
        Self::from_parts(self.denom.clone(), self.numer.clone())
    }

    /// The numerator.
    pub fn numer(&self) -> (r: &BigInt)
        ensures
            r@ == self@.num,
    {
        &self.numer
    }

    /// The denominator.
    pub fn denom(&self) -> (r: &BigInt)
        ensures
            r@ == self@.den,
    {
        &self.denom
    }

    /// The sum.
    pub fn add(self, rhs: Self) -> (r: Self)
        ensures
            r@ == frac_add(self@, rhs@),
    {
        proof {
            use_type_invariant(&self);
            use_type_invariant(&rhs);
            assert(self@.den * rhs@.den > 0) by (nonlinear_arith)
                requires
                    self@.den > 0,
                    rhs@.den > 0,
            ;
        }
        let Number { numer: n1, denom: d1 } = self;
        let Number { numer: n2, denom: d2 } = rhs;
        let numer = n1.mul(d2.clone()).add(n2.mul(d1.clone()));
        let denom = d1.mul(d2);
        match Self::from_parts(numer, denom) {
            Some(x) => x,
            None => Self::from_i64(0),
        }
    }

    /// The negation.
    pub fn neg(self) -> (r: Self)
        ensures
            r@ == frac_neg(self@),
    {
        proof {
            use_type_invariant(&self);
        }
        Number { numer: self.numer.neg(), denom: self.denom }
    }

    /// The difference.
    pub fn sub(self, rhs: Self) -> (r: Self)
        ensures
            r@ == frac_sub(self@, rhs@),
    {
        self.add(rhs.neg())
    }

    /// The product.
    pub fn mul(self, rhs: Self) -> (r: Self)
        ensures
            r@ == frac_mul(self@, rhs@),
    {
        proof {
            use_type_invariant(&self);
            use_type_invariant(&rhs);
            assert(self@.den * rhs@.den > 0) by (nonlinear_arith)
                requires
                    self@.den > 0,
                    rhs@.den > 0,
            ;
        }
        let Number { numer: n1, denom: d1 } = self;
        let Number { numer: n2, denom: d2 } = rhs;
        let numer = n1.mul(n2);
        let denom = d1.mul(d2);
        match Self::from_parts(numer, denom) {
            Some(x) => x,
            None => Self::from_i64(0),
        }
    }

    /// Compares the rationals by cross-multiplication.
    pub fn cmp(&self, other: &Self) -> (r: Ordering)
        ensures
            r == order_of(self@.num * other@.den, other@.num * self@.den),
    {
        let a = self.numer.clone().mul(other.denom.clone());
        let b = other.numer.clone().mul(self.denom.clone());
        a.cmp(&b)
    }

    /// `n` for an integer, else `n/d`.
    pub fn to_display(&self) -> (r: String)
        ensures
            r@ == frac_text(self@),
    {
        if self.is_integer() {
            self.numer.to_decimal()
        } else {
            let mut s = self.numer.to_decimal();
            push_char(&mut s, '/');
            let d = self.denom.to_decimal();
            let dv = str_chars(d.as_str());
            push_all(&mut s, &dv);
            proof {
                assert(s@ =~= frac_text(self@));
            }
            s
        }
    }
}

impl Clone for Number {
    fn clone(&self) -> (r: Self)
        ensures
            r@ == self@,
    {
        proof {
            use_type_invariant(self);
        }
        Number { numer: self.numer.clone(), denom: self.denom.clone() }
    }
}

impl PartialEq for Number {
    fn eq(&self, other: &Self) -> (r: bool) {
        let a = self.numer.clone().mul(other.denom.clone());
        let b = other.numer.clone().mul(self.denom.clone());
        a == b
    }
}

impl PartialEqSpecImpl for Number {
    open spec fn obeys_eq_spec() -> bool {
        true
    }

    open spec fn eq_spec(&self, other: &Self) -> bool {
        frac_eq(self@, other@)
    }
}

impl Eq for Number {
}

impl PartialOrd for Number {
    fn partial_cmp(&self, other: &Self) -> (r: Option<Ordering>) {
        Some(self.cmp(other))
    }
}

impl PartialOrdSpecImpl for Number {
    open spec fn obeys_partial_cmp_spec() -> bool {
        true
    }

    open spec fn partial_cmp_spec(&self, other: &Self) -> Option<Ordering> {
        Some(order_of(self@.num * other@.den, other@.num * self@.den))
    }
}

/// What a numeric token denotes: an optionally signed integer `n` as `n/1`, or a
/// decimal `i.f` (optional sign on `i`, both parts non-empty digit strings) as
/// `±(i * 10^len(f) + f) / 10^len(f)`, with zero as `0/1`.
pub open spec fn number_value(s: Seq<char>) -> Option<Frac> {
    match decimal_value(s) {
        Some(v) => Some(Frac { num: v, den: 1 }),
        None => match first_index_of(s, '.') {
            None => None,
            Some(k) => {
                let ip = s.take(k);
                let fp = s.skip(k + 1);
                if ip.len() == 0 || fp.len() == 0 || !all_digits(fp) {
                    None
                } else {
                    let id = if ip[0] == '-' || ip[0] == '+' {
                        ip.drop_first()
                    } else {
                        ip
                    };
                    if id.len() == 0 || !all_digits(id) {
                        None
                    } else {
                        let scale = pow_ten(fp.len());
                        let mag = digits_value(id) * scale + digits_value(fp);
                        frac_from_parts(if ip[0] == '-' { -mag } else { mag as int }, scale as int)
                    }
                }
            },
        },
    }
}

/// Parses a numeric literal such as `42`, `-7` or `3.14` into an exact rational.
pub fn parse_number(token: &str) -> (r: Option<Number>)
    ensures
        match number_value(token@) {
            Some(f) => r matches Some(x) && x@ == f,
            None => r is None,
        },
{
    let cs = str_chars(token);
    let n = cs.len();
    proof {
        assert(cs@.subrange(0, n as int) =~= token@);
    }
    if let Some(value) = BigInt::parse_decimal_range(&cs, 0, n) {
        return Number::from_parts(value, BigInt::one());
    }
    let k = match find_char(&cs, '.') {
        Some(k) => k,
        None => {
            return None;
        },
    };
    let ghost ip = token@.take(k as int);
    let ghost fp = token@.skip(k + 1);
    proof {
        assert(ip =~= cs@.subrange(0, k as int));
        assert(fp =~= cs@.subrange(k + 1, n as int));
    }
    proof {
        assert(decimal_value(token@) is None);
        assert(first_index_of(token@, '.') == Some(k as int));
        assert(ip.len() == k);
        assert(fp.len() == n - k - 1);
    }
    if k == 0 || k + 1 == n {
        return None;
    }
    if !range_all_digits(&cs, k + 1, n) {
        return None;
    }
    let neg = cs[0] == '-';
    let from: usize = if cs[0] == '-' || cs[0] == '+' { 1 } else { 0 };
    proof {
        assert(ip[0] == cs@[0]);
        if from == 1 {
            assert(ip.drop_first() =~= cs@.subrange(1, k as int));
        }
    }
    if from == k || !range_all_digits(&cs, from, k) {
        return None;
    }
    proof {
        let id = cs@.subrange(from as int, k as int);
        assert(id.len() > 0);
        assert(id[0] == cs@[from as int]);
        crate::text::lemma_digit_not_sign(id[0]);
        let fr = cs@.subrange(k + 1, n as int);
        assert(fr[0] == cs@[k + 1]);
        crate::text::lemma_digit_not_sign(fr[0]);
    }
    let whole = match BigInt::parse_decimal_range(&cs, from, k) {
        Some(w) => w,
        None => {
            return None;
        },
    };
    let frac = match BigInt::parse_decimal_range(&cs, k + 1, n) {
        Some(f) => f,
        None => {
            return None;
        },
    };
    let scale = BigInt::pow10(n - k - 1);
    let mut numer = whole.mul(scale.clone()).add(frac);
    if neg {
        numer = numer.neg();
    }
    Number::from_parts(numer, scale)
}

} // verus!
