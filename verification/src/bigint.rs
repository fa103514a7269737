//! Signed arbitrary-precision integers stored as base-10^9 limbs.
use vstd::prelude::*;
use std::cmp::Ordering;
use vstd::std_specs::cmp::{PartialEqSpecImpl, PartialOrdSpecImpl};
use crate::limbs::{
    BASE, pow_base, pow_ten, lemma_pow_base_add, lemma_limbs_update, limbs_value, limbs_ok, limbs_trimmed, same_from, lemma_pow_base_pos,
    lemma_pow_base_mono, lemma_limbs_push, lemma_limbs_take_step, lemma_limbs_bound,
    lemma_limbs_lower, lemma_limbs_zero, lemma_shorter_smaller, lemma_same_from_step, lemma_same_from_zero, lemma_same_from_end,
    lemma_top_difference, lemma_skip_step, lemma_skip_positive,
};
use crate::text::{
    push_char, push_all, nat_digits, fixed_digits, dec_int, dec_nat, dec_fixed, lemma_dec_split,
    str_chars, all_digits, digits_value, char_digit, range_all_digits, digit_value,
};

verus! {

/// A signed integer of any size: a sign in {-1, 0, 1} and little-endian limbs.
#[derive(Debug)]
pub struct BigInt {
    sign: i8,
    digits: Vec<u32>,
}

/// The length of a limb vector, by std `Vec::len`. Trusted: the length is the
/// number of limbs, and, since a `Vec` never allocates more than `isize::MAX`
/// bytes (std documents this), four bytes per limb times the length stays within
/// `isize::MAX`.
#[verifier::external_body]
fn limb_count(v: &Vec<u32>) -> (n: usize)
    ensures
        n == v@.len(),
        4 * n <= isize::MAX,
{
    v.len()
}

/// The three-way comparison of two mathematical integers.
pub open spec fn order_of(a: int, b: int) -> Ordering {
    if a < b {
        Ordering::Less
    } else if a == b {
        Ordering::Equal
    } else {
        Ordering::Greater
    }
}

impl View for BigInt {
    type V = int;

    closed spec fn view(&self) -> int {
        self.sign * limbs_value(self.digits@)
    }
}

impl BigInt {
    #[verifier::type_invariant]
    closed spec fn inv(self) -> bool {
        &&& (self.sign == 0 || self.sign == 1 || self.sign == -1)
        &&& (self.sign == 0) == (self.digits@.len() == 0)
        &&& limbs_ok(self.digits@)
        &&& limbs_trimmed(self.digits@)
    }

    closed spec fn magnitude(self) -> nat {
        limbs_value(self.digits@)
    }

    proof fn lemma_view_parts(&self)
        requires
            self.inv(),
        ensures
            self.sign == 0 ==> self@ == 0 && self.magnitude() == 0,
            self.sign == 1 ==> self@ == self.magnitude() && self@ > 0,
            self.sign == -1 ==> self@ == -self.magnitude() && self@ < 0,
            self.sign == 0 || self.sign == 1 || self.sign == -1,
            limbs_ok(self.digits@),
            limbs_trimmed(self.digits@),
            self.digits@.len() > 0 ==> self.magnitude() >= pow_base((self.digits@.len() - 1) as nat),
            self.magnitude() < pow_base(self.digits@.len()),
    {
        lemma_limbs_bound(self.digits@);
        if self.digits@.len() > 0 {
            lemma_limbs_lower(self.digits@);
            lemma_pow_base_pos((self.digits@.len() - 1) as nat);
        }
    }

    /// Zero.
    pub fn zero() -> (r: Self)
        ensures
            r@ == 0,
    {
        BigInt { sign: 0, digits: Vec::new() }
    }

    /// One.
    pub fn one() -> (r: Self)
        ensures
            r@ == 1,
    {
        Self::from_i64(1)
    }

    /// Builds the integer `sign * value(digits)`, dropping most-significant zero limbs.
    fn normalize(sign: i8, digits: Vec<u32>) -> (r: Self)
        requires
            sign == 1 || sign == -1,
            limbs_ok(digits@),
        ensures
            r@ == sign * limbs_value(digits@),
    {
        let mut digits = digits;
        let ghost v = limbs_value(digits@);
        while digits.len() > 0 && digits[digits.len() - 1] == 0
            invariant
                limbs_ok(digits@),
                limbs_value(digits@) == v,
            decreases digits.len(),
        {
            let ghost before = digits@;
            digits.pop();
            proof {
                assert(before =~= digits@.push(0));
                lemma_limbs_push(digits@, 0);
                let p = pow_base(digits@.len());
                assert((0u32 as nat) * p == 0) by (nonlinear_arith);
                assert forall|i: int| 0 <= i < digits@.len() implies #[trigger] digits@[i] < BASE by {
                    assert(digits@[i] == before[i]);
                }
            }
        }
        if digits.len() == 0 {
            proof {
                assert(limbs_value(digits@) == 0);
                assert(sign * 0 == 0);
            }
            BigInt { sign: 0, digits }
        } else {
            BigInt { sign, digits }
        }
    }

    /// The integer equal to `value`.
    pub fn from_i64(value: i64) -> (r: Self)
        ensures
            r@ == value as int,
    {
        if value == 0 {
            return Self::zero();
        }
        let sign: i8 = if value < 0 { -1 } else { 1 };
        let wide: i128 = value as i128;
        let mut n: u64 = if value < 0 { (-wide) as u64 } else { value as u64 };
        let ghost abs: int = n as int;
        let mut digits: Vec<u32> = Vec::new();
        proof {
            assert(limbs_value(digits@) == 0);
            assert(pow_base(0) == 1);
        }
        while n > 0
            invariant
                limbs_ok(digits@),
                limbs_value(digits@) + pow_base(digits@.len()) * n == abs,
            decreases n,
        {
            let d: u64 = n % 1_000_000_000u64;
            let q: u64 = n / 1_000_000_000u64;
            proof {
                let p = pow_base(digits@.len());
                lemma_limbs_push(digits@, d as u32);
                assert(pow_base(digits@.len() + 1) == 1_000_000_000 * p);
                assert(p * n == (d as nat) * p + (1_000_000_000 * p) * q) by (nonlinear_arith)
                    requires
                        n == 1_000_000_000 * q + d,
                ;
            }
            digits.push(d as u32);
            n = q;
        }
        proof {
            assert(pow_base(digits@.len()) * 0 == 0) by (nonlinear_arith);
        }
        Self::normalize(sign, digits)
    }

    /// Whether this is zero.
    pub fn is_zero(&self) -> (r: bool)
        ensures
            r == (self@ == 0),
    {
        proof {
            use_type_invariant(self);
            self.lemma_view_parts();
        }
        self.sign == 0
    }

    /// Limbwise sum of the magnitudes.
    fn add_abs(&self, other: &Self) -> (r: Vec<u32>)
        ensures
            limbs_ok(r@),
            limbs_value(r@) == self.magnitude() + other.magnitude(),
    {
        proof {
            use_type_invariant(self);
            use_type_invariant(other);
            self.lemma_view_parts();
            other.lemma_view_parts();
        }
        let a = &self.digits;
        let b = &other.digits;
        let max_len = if a.len() >= b.len() { a.len() } else { b.len() };
        let mut out: Vec<u32> = Vec::new();
        let mut carry: u64 = 0;
        let mut i: usize = 0;
        while i < max_len
            invariant
                i <= max_len,
                max_len == a@.len() || max_len == b@.len(),
                a@.len() <= max_len,
                b@.len() <= max_len,
                limbs_ok(a@),
                limbs_ok(b@),
                out@.len() == i,
                limbs_ok(out@),
                carry <= 1,
                limbs_value(out@) + carry * pow_base(i as nat) == limbs_value(
                    a@.take(if i <= a@.len() { i as int } else { a@.len() as int }),
                ) + limbs_value(b@.take(if i <= b@.len() { i as int } else { b@.len() as int })),
            decreases max_len - i,
        {
            let x: u64 = if i < a.len() { a[i] as u64 } else { 0 };
            let y: u64 = if i < b.len() { b[i] as u64 } else { 0 };
            let sum: u64 = x + y + carry;
            let d: u64 = sum % 1_000_000_000u64;
            let c: u64 = sum / 1_000_000_000u64;
            proof {
                let p = pow_base(i as nat);
                if i < a@.len() {
                    lemma_limbs_take_step(a@, i as int);
                } else {
                    assert(a@.take(a@.len() as int) =~= a@);
                }
                if i < b@.len() {
                    lemma_limbs_take_step(b@, i as int);
                } else {
                    assert(b@.take(b@.len() as int) =~= b@);
                }
                lemma_limbs_push(out@, d as u32);
                assert(pow_base((i + 1) as nat) == 1_000_000_000 * p);
                assert((d as nat) * p + c * (1_000_000_000 * p) == (x + y + carry) * p)
                    by (nonlinear_arith)
                    requires
                        sum == 1_000_000_000 * c + d,
                        sum == x + y + carry,
                ;
                assert(x * p + y * p + carry * p == (x + y + carry) * p) by (nonlinear_arith);
            }
            out.push(d as u32);
            carry = c;
            i = i + 1;
        }
        proof {
            assert(a@.take(a@.len() as int) =~= a@);
            assert(b@.take(b@.len() as int) =~= b@);
        }
        if carry > 0 {
            proof {
                lemma_limbs_push(out@, carry as u32);
            }
            out.push(carry as u32);
        } else {
            proof {
                assert(carry * pow_base(i as nat) == 0);
            }
        }
        out
    }

    /// Limbwise difference of the magnitudes; the first must be at least the second.
    fn sub_abs(&self, other: &Self) -> (r: Vec<u32>)
        requires
            self.magnitude() >= other.magnitude(),
        ensures
            limbs_ok(r@),
            limbs_value(r@) == self.magnitude() - other.magnitude(),
    {
        proof {
            use_type_invariant(self);
            use_type_invariant(other);
            self.lemma_view_parts();
            other.lemma_view_parts();
            if other.digits@.len() > self.digits@.len() {
                lemma_pow_base_mono(self.digits@.len(), (other.digits@.len() - 1) as nat);
            }
        }
        let a = &self.digits;
        let b = &other.digits;
        let mut out: Vec<u32> = Vec::new();
        let mut borrow: i64 = 0;
        let mut i: usize = 0;
        while i < a.len()
            invariant
                i <= a@.len(),
                b@.len() <= a@.len(),
                limbs_ok(a@),
                limbs_ok(b@),
                out@.len() == i,
                limbs_ok(out@),
                borrow == 0 || borrow == 1,
                limbs_value(out@) - borrow * pow_base(i as nat) == limbs_value(a@.take(i as int))
                    - limbs_value(b@.take(if i <= b@.len() { i as int } else { b@.len() as int })),
            decreases a@.len() - i,
        {
            let x: i64 = a[i] as i64 - borrow;
            let y: i64 = if i < b.len() { b[i] as i64 } else { 0 };
            let d: i64;
            let nb: i64;
            if x < y {
                d = x + 1_000_000_000i64 - y;
                nb = 1;
            } else {
                d = x - y;
                nb = 0;
            }
            proof {
                let p = pow_base(i as nat);
                lemma_limbs_take_step(a@, i as int);
                if i < b@.len() {
                    lemma_limbs_take_step(b@, i as int);
                } else {
                    assert(b@.take(b@.len() as int) =~= b@);
                }
                lemma_limbs_push(out@, d as u32);
                assert(pow_base((i + 1) as nat) == 1_000_000_000 * p);
                assert((d as int) * p - nb * (1_000_000_000 * p) == (a@[i as int] - borrow - y) * p)
                    by (nonlinear_arith)
                    requires
                        d - 1_000_000_000 * nb == a@[i as int] - borrow - y,
                ;
                assert((a@[i as int] - borrow - y) * p == a@[i as int] * p - borrow * p - y * p)
                    by (nonlinear_arith);
            }
            out.push(d as u32);
            borrow = nb;
            i = i + 1;
        }
        proof {
            assert(a@.take(a@.len() as int) =~= a@);
            assert(b@.take(b@.len() as int) =~= b@);
            lemma_limbs_bound(out@);
            if borrow == 1 {
                assert(limbs_value(out@) - pow_base(i as nat) < 0);
            }
        }
        out
    }

    closed spec fn magnitude_int(self) -> int {
        limbs_value(self.digits@) as int
    }

    /// Compares magnitudes.
    fn abs_cmp(&self, other: &Self) -> (r: Ordering)
        ensures
            r == order_of(self.magnitude_int(), other.magnitude_int()),
    {
        proof {
            use_type_invariant(self);
            use_type_invariant(other);
        }
        let a = &self.digits;
        let b = &other.digits;
        if a.len() != b.len() {
            if a.len() < b.len() {
                proof {
                    lemma_shorter_smaller(a@, b@);
                    assert(self.magnitude_int() < other.magnitude_int());
                }
                return Ordering::Less;
            } else {
                proof {
                    lemma_shorter_smaller(b@, a@);
                }
                return Ordering::Greater;
            }
        }
        let mut i: usize = a.len();
        proof {
            lemma_same_from_end(a@, b@);
        }
        while i > 0
            invariant
                i <= a@.len(),
                a@.len() == b@.len(),
                a@.len() <= usize::MAX,
                a@ == self.digits@,
                b@ == other.digits@,
                limbs_ok(a@),
                limbs_ok(b@),
                same_from(a@, b@, i),
            decreases i,
        {
            let j = i - 1;
            proof {
                lemma_top_difference(a@, b@, j);
            }
            if a[j] < b[j] {
                proof {
                    assert(self.magnitude_int() < other.magnitude_int());
                }
                return Ordering::Less;
            } else if a[j] > b[j] {
                proof {
                    assert(self.magnitude_int() > other.magnitude_int());
                }
                return Ordering::Greater;
            }
            proof {
                lemma_same_from_step(a@, b@, j);
            }
            i = j;
        }
        proof {
            lemma_same_from_zero(a@, b@);
        }
        Ordering::Equal
    }
}

impl BigInt {
    /// Multiplies by a single limb-sized factor.
    fn mul_u32(&self, rhs: u32) -> (r: Self)
        requires
            rhs < BASE,
        ensures
            r@ == self@ * rhs,
    {
        proof {
            use_type_invariant(self);
            self.lemma_view_parts();
        }
        if self.is_zero() || rhs == 0 {
            proof {
                assert(self@ * rhs == 0) by (nonlinear_arith)
                    requires
                        self@ == 0 || rhs == 0,
                ;
            }
            return Self::zero();
        }
        let a = &self.digits;
        let mut out: Vec<u32> = Vec::new();
        let mut carry: u64 = 0;
        let mut i: usize = 0;
        proof {
            assert(a@.take(0) =~= Seq::<u32>::empty());
            assert(limbs_value(a@.take(0)) == 0);
            assert(limbs_value(out@) == 0);
        }
        while i < a.len()
            invariant
                i <= a@.len(),
                a@ == self.digits@,
                limbs_ok(a@),
                out@.len() == i,
                limbs_ok(out@),
                carry < BASE,
                rhs < BASE,
                limbs_value(out@) + carry * pow_base(i as nat) == limbs_value(a@.take(i as int))
                    * rhs,
            decreases a@.len() - i,
        {
            let x: u64 = a[i] as u64;
            proof {
                assert(x * rhs <= 999_999_999 * 999_999_999) by (nonlinear_arith)
                    requires
                        x < 1_000_000_000,
                        rhs < 1_000_000_000,
                ;
            }
            let prod: u64 = x * (rhs as u64) + carry;
            let d: u64 = prod % 1_000_000_000u64;
            let c: u64 = prod / 1_000_000_000u64;
            proof {
                let p = pow_base(i as nat);
                let va = limbs_value(a@.take(i as int));
                lemma_limbs_take_step(a@, i as int);
                lemma_limbs_push(out@, d as u32);
                assert(pow_base((i + 1) as nat) == 1_000_000_000 * p);
                assert(c < 1_000_000_000) by (nonlinear_arith)
                    requires
                        prod == 1_000_000_000 * c + d,
                        d >= 0,
                        prod == x * rhs + carry,
                        x < 1_000_000_000,
                        rhs < 1_000_000_000,
                        carry < 1_000_000_000,
                ;
                assert((d as nat) * p + c * (1_000_000_000 * p) == (x * rhs + carry) * p)
                    by (nonlinear_arith)
                    requires
                        prod == 1_000_000_000 * c + d,
                        prod == x * rhs + carry,
                ;
                assert((x * rhs + carry) * p + va * rhs == (va + x * p) * rhs + carry * p)
                    by (nonlinear_arith);
            }
            out.push(d as u32);
            carry = c;
            i = i + 1;
        }
        proof {
            assert(a@.take(a@.len() as int) =~= a@);
        }
        if carry > 0 {
            proof {
                lemma_limbs_push(out@, carry as u32);
            }
            out.push(carry as u32);
        } else {
            proof {
                assert(carry * pow_base(i as nat) == 0);
            }
        }
        let r = Self::normalize(self.sign, out);
        proof {
            let m = self.magnitude();
            assert(self.sign * (m * rhs) == (self.sign * m) * rhs) by (nonlinear_arith);
        }
        r
    }

    /// `10^exp`.
    pub fn pow10(exp: usize) -> (r: Self)
        ensures
            r@ == pow_ten(exp as nat),
    {
        let mut n = Self::one();
        let mut k: usize = 0;
        while k < exp
            invariant
                k <= exp,
                n@ == pow_ten(k as nat),
            decreases exp - k,
        {
            n = n.mul_u32(10);
            k = k + 1;
        }
        n
    }

    /// The negation.
    pub fn neg(self) -> (r: Self)
        ensures
            r@ == -self@,
    {
        proof {
            use_type_invariant(&self);
            let m = self.magnitude();
            assert((-self.sign) * m == -(self.sign * m)) by (nonlinear_arith);
        }
        BigInt { sign: -self.sign, digits: self.digits }
    }

    /// The product.
    pub fn mul(self, rhs: Self) -> (r: Self)
        ensures
            r@ == self@ * rhs@,
    {
        proof {
            use_type_invariant(&self);
            use_type_invariant(&rhs);
            self.lemma_view_parts();
            rhs.lemma_view_parts();
        }
        if self.is_zero() || rhs.is_zero() {
            proof {
                assert(self@ * rhs@ == 0) by (nonlinear_arith)
                    requires
                        self@ == 0 || rhs@ == 0,
                ;
            }
            return Self::zero();
        }
        let a = &self.digits;
        let b = &rhs.digits;
        let n = limb_count(a);
        let m = limb_count(b);
        let total = n + m;
        let mut out: Vec<u32> = Vec::new();
        let mut k: usize = 0;
        while k < total
            invariant
                k <= total,
                out@.len() == k,
                forall|t: int| 0 <= t < k ==> #[trigger] out@[t] == 0,
            decreases total - k,
        {
            out.push(0);
            k = k + 1;
        }
        proof {
            lemma_limbs_zero(out@);
            assert(a@.take(0) =~= Seq::<u32>::empty());
            assert(limbs_value(a@.take(0)) == 0);
            assert(0 * limbs_value(b@) == 0);
        }
        let mut i: usize = 0;
        while i < n
            invariant
                i <= n,
                n == a@.len(),
                m == b@.len(),
                total == n + m,
                a@ == self.digits@,
                b@ == rhs.digits@,
                limbs_ok(a@),
                limbs_ok(b@),
                out@.len() == total,
                limbs_ok(out@),
                forall|t: int| i + m <= t < total ==> #[trigger] out@[t] == 0,
                limbs_value(out@) == limbs_value(a@.take(i as int)) * limbs_value(b@),
            decreases n - i,
        {
            let x: u64 = a[i] as u64;
            let mut carry: u64 = 0;
            let mut j: usize = 0;
            let ghost base_val = limbs_value(a@.take(i as int)) * limbs_value(b@);
            proof {
                assert(b@.take(0) =~= Seq::<u32>::empty());
                assert(limbs_value(b@.take(0)) == 0);
                assert(x * pow_base(i as nat) * 0 == 0) by (nonlinear_arith);
                assert(carry * pow_base((i + j) as nat) == 0);
            }
            while j < m
                invariant
                    i < n,
                    j <= m,
                    n == a@.len(),
                    m == b@.len(),
                    total == n + m,
                    x == a@[i as int],
                    x < BASE,
                    limbs_ok(b@),
                    out@.len() == total,
                    limbs_ok(out@),
                    carry < BASE,
                    forall|t: int| i + m <= t < total ==> #[trigger] out@[t] == 0,
                    limbs_value(out@) + carry * pow_base((i + j) as nat) == base_val + x * pow_base(
                        i as nat,
                    ) * limbs_value(b@.take(j as int)),
                decreases m - j,
            {
                let idx = i + j;
                let y: u64 = b[j] as u64;
                let o: u64 = out[idx] as u64;
                proof {
                    assert(x * y <= 999_999_999 * 999_999_999) by (nonlinear_arith)
                        requires
                            x < 1_000_000_000,
                            y < 1_000_000_000,
                    ;
                }
                let cur: u64 = o + x * y + carry;
                let d: u64 = cur % 1_000_000_000u64;
                let c: u64 = cur / 1_000_000_000u64;
                proof {
                    let p = pow_base(idx as nat);
                    let pi = pow_base(i as nat);
                    let pj = pow_base(j as nat);
                    lemma_pow_base_add(i as nat, j as nat);
                    lemma_limbs_take_step(b@, j as int);
                    lemma_limbs_update(out@, idx as int, d as u32);
                    assert(pow_base((idx + 1) as nat) == 1_000_000_000 * p);
                    assert(c < 1_000_000_000) by (nonlinear_arith)
                        requires
                            cur == 1_000_000_000 * c + d,
                            d >= 0,
                            cur == o + x * y + carry,
                            o < 1_000_000_000,
                            x < 1_000_000_000,
                            y < 1_000_000_000,
                            carry < 1_000_000_000,
                    ;
                    assert((d as nat) * p + c * (1_000_000_000 * p) == (o + x * y + carry) * p)
                        by (nonlinear_arith)
                        requires
                            cur == 1_000_000_000 * c + d,
                            cur == o + x * y + carry,
                    ;
                    let vb = limbs_value(b@.take(j as int));
                    assert((o + x * y + carry) * p - o * p == x * pi * (vb + y * pj) - x * pi * vb
                        + carry * p) by (nonlinear_arith)
                        requires
                            p == pi * pj,
                    ;
                }
                out.set(idx, d as u32);
                carry = c;
                j = j + 1;
            }
            proof {
                assert(b@.take(m as int) =~= b@);
                lemma_limbs_take_step(a@, i as int);
                lemma_limbs_update(out@, (i + m) as int, carry as u32);
                let pi = pow_base(i as nat);
                let pm = pow_base((i + m) as nat);
                assert(out@[(i + m) as int] == 0);
                assert((out@[(i + m) as int] as nat) * pm == 0) by (nonlinear_arith)
                    requires
                        out@[(i + m) as int] == 0,
                ;
                assert(limbs_value(out@.update((i + m) as int, carry as u32)) == base_val + x * pi
                    * limbs_value(b@));
                assert((limbs_value(a@.take(i as int)) + x * pi) * limbs_value(b@) == base_val + x
                    * pi * limbs_value(b@)) by (nonlinear_arith)
                    requires
                        base_val == limbs_value(a@.take(i as int)) * limbs_value(b@),
                ;
            }
            out.set(i + m, carry as u32);
            i = i + 1;
        }
        proof {
            assert(a@.take(n as int) =~= a@);
        }
        let sign: i8 = self.sign * rhs.sign;
        let r = Self::normalize(sign, out);
        proof {
            let ma = self.magnitude();
            let mb = rhs.magnitude();
            assert((self.sign * rhs.sign) * (ma * mb) == (self.sign * ma) * (rhs.sign * mb))
                by (nonlinear_arith);
        }
        r
    }

    /// Compares by numeric value.
    pub fn cmp(&self, other: &Self) -> (r: Ordering)
        ensures
            r == order_of(self@, other@),
    {
        proof {
            use_type_invariant(self);
            use_type_invariant(other);
            self.lemma_view_parts();
            other.lemma_view_parts();
        }
        if self.sign < other.sign {
            Ordering::Less
        } else if self.sign > other.sign {
            Ordering::Greater
        } else if self.sign == 0 {
            Ordering::Equal
        } else if self.sign == 1 {
            self.abs_cmp(other)
        } else {
            other.abs_cmp(self)
        }
    }

    /// The sum.
    pub fn add(self, rhs: Self) -> (r: Self)
        ensures
            r@ == self@ + rhs@,
    {
        proof {
            use_type_invariant(&self);
            use_type_invariant(&rhs);
            self.lemma_view_parts();
            rhs.lemma_view_parts();
        }
        if self.is_zero() {
            return rhs;
        }
        if rhs.is_zero() {
            return self;
        }
        if self.sign == rhs.sign {
            let d = self.add_abs(&rhs);
            return Self::normalize(self.sign, d);
        }
        match self.abs_cmp(&rhs) {
            Ordering::Greater => {
                let d = self.sub_abs(&rhs);
                Self::normalize(self.sign, d)
            },
            Ordering::Less => {
                let d = rhs.sub_abs(&self);
                Self::normalize(rhs.sign, d)
            },
            Ordering::Equal => Self::zero(),
        }
    }

    /// The difference.
    pub fn sub(self, rhs: Self) -> (r: Self)
        ensures
            r@ == self@ - rhs@,
    {
        self.add(rhs.neg())
    }
}

/// The integer denoted by optional sign `-`/`+` followed by at least one decimal digit.
pub open spec fn decimal_value(s: Seq<char>) -> Option<int> {
    if s.len() == 0 {
        None
    } else {
        let rest = if s[0] == '-' || s[0] == '+' {
            s.drop_first()
        } else {
            s
        };
        if rest.len() == 0 || !all_digits(rest) {
            None
        } else if s[0] == '-' {
            Some(-digits_value(rest))
        } else {
            Some(digits_value(rest) as int)
        }
    }
}

impl BigInt {
    /// Parses `cs[start..end]` as an optionally signed decimal integer.
    pub fn parse_decimal_range(cs: &Vec<char>, start: usize, end: usize) -> (r: Option<Self>)
        requires
            start <= end <= cs@.len(),
        ensures
            match decimal_value(cs@.subrange(start as int, end as int)) {
                Some(v) => r matches Some(b) && b@ == v,
                None => r is None,
            },
    {
        let ghost s = cs@.subrange(start as int, end as int);
        if start == end {
            return None;
        }
        let first = cs[start];
        let neg = first == '-';
        let from = if first == '-' || first == '+' { start + 1 } else { start };
        proof {
            assert(s[0] == first);
            if first == '-' || first == '+' {
                assert(s.drop_first() =~= cs@.subrange(from as int, end as int));
            } else {
                assert(s =~= cs@.subrange(from as int, end as int));
            }
        }
        if from == end || !range_all_digits(cs, from, end) {
            return None;
        }
        let ghost rest = cs@.subrange(from as int, end as int);
        let mut result = Self::zero();
        let mut i = from;
        proof {
            assert(rest.take(0) =~= Seq::<char>::empty());
        }
        while i < end
            invariant
                from <= i <= end,
                end <= cs@.len(),
                rest == cs@.subrange(from as int, end as int),
                all_digits(rest),
                result@ == digits_value(rest.take(i - from)),
            decreases end - i,
        {
            let c = cs[i];
            proof {
                assert(rest[i - from] == c);
                assert(crate::text::is_digit(rest[i - from]));
            }
            let d = char_digit(c);
            result = result.mul_u32(10);
            result = result.add(Self::from_i64(d as i64));
            proof {
                let t = rest.take(i + 1 - from);
                assert(t.drop_last() =~= rest.take(i - from));
                assert(t.last() == c);
            }
            i = i + 1;
        }
        proof {
            assert(rest.take(end - from) =~= rest);
        }
        if neg {
            Some(result.neg())
        } else {
            Some(result)
        }
    }

    /// Parses an optionally signed decimal integer such as `-42` or `+7`.
    pub fn parse_decimal(s: &str) -> (r: Option<Self>)
        ensures
            match decimal_value(s@) {
                Some(v) => r matches Some(b) && b@ == v,
                None => r is None,
            },
    {
        let cs = str_chars(s);
        proof {
            assert(cs@.subrange(0, cs@.len() as int) =~= s@);
        }
        Self::parse_decimal_range(&cs, 0, cs.len())
    }

    /// The decimal rendering: an optional `-` then the digits without leading zeros.
    pub fn to_decimal(&self) -> (r: String)
        ensures
            r@ == dec_int(self@),
    {
        proof {
            use_type_invariant(self);
            self.lemma_view_parts();
        }
        let mut s = String::new();
        if self.sign == 0 {
            push_char(&mut s, '0');
            proof {
                assert(s@ =~= dec_int(self@));
            }
            return s;
        }
        if self.sign < 0 {
            push_char(&mut s, '-');
        }
        let ghost prefix = s@;
        let d = &self.digits;
        let n = d.len();
        let top = nat_digits(d[n - 1] as u64);
        push_all(&mut s, &top);
        let mut i: usize = n - 1;
        proof {
            lemma_skip_step(d@, (n - 1) as int);
            assert(d@.skip(n as int) =~= Seq::<u32>::empty());
            assert(limbs_value(d@.skip(n as int)) == 0);
        }
        while i > 0
            invariant
                i < n,
                n == d@.len(),
                d@ == self.digits@,
                limbs_ok(d@),
                limbs_trimmed(d@),
                s@ == prefix + dec_nat(limbs_value(d@.skip(i as int))),
            decreases i,
        {
            let j = i - 1;
            let low = fixed_digits(d[j] as u64, 9);
            proof {
                lemma_skip_step(d@, j as int);
                lemma_skip_positive(d@, i as int);
                crate::limbs::lemma_pow_ten_nine();
                let hi = limbs_value(d@.skip(i as int));
                assert(d@[j as int] < BASE);
                lemma_dec_split(hi, d@[j as int] as nat, 9);
                assert(hi * 1_000_000_000 == 1_000_000_000 * hi);
            }
            push_all(&mut s, &low);
            proof {
                assert(s@ =~= prefix + dec_nat(limbs_value(d@.skip(j as int))));
            }
            i = j;
        }
        proof {
            assert(d@.skip(0) =~= d@);
            if self.sign < 0 {
                assert(s@ =~= dec_int(self@));
            } else {
                assert(s@ =~= dec_int(self@));
            }
        }
        s
    }
}

impl Clone for BigInt {
    fn clone(&self) -> (r: Self)
        ensures
            r@ == self@,
    {
        proof {
            use_type_invariant(self);
        }
        let digits = self.digits.clone();
        proof {
            assert(digits@ =~= self.digits@);
        }
        BigInt { sign: self.sign, digits }
    }
}

impl PartialEq for BigInt {
    fn eq(&self, other: &Self) -> (r: bool) {
        match self.cmp(other) {
            Ordering::Equal => true,
            _ => false,
        }
    }
}

impl PartialEqSpecImpl for BigInt {
    open spec fn obeys_eq_spec() -> bool {
        true
    }

    open spec fn eq_spec(&self, other: &Self) -> bool {
        self@ == other@
    }
}

impl Eq for BigInt {
}

impl PartialOrd for BigInt {
    fn partial_cmp(&self, other: &Self) -> (r: Option<Ordering>) {
        Some(self.cmp(other))
    }
}

impl PartialOrdSpecImpl for BigInt {
    open spec fn obeys_partial_cmp_spec() -> bool {
        true
    }

    open spec fn partial_cmp_spec(&self, other: &Self) -> Option<Ordering> {
        Some(order_of(self@, other@))
    }
}

} // verus!
