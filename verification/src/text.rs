//! Characters, decimal renderings and string building.
use vstd::prelude::*;
use crate::limbs::pow_ten;

verus! {

/// Appends one character to a string, by std `String::push`. Trusted: the new
/// contents are the old ones followed by `c`.
#[verifier::external_body]
pub(crate) fn push_char(s: &mut String, c: char)
    ensures
        final(s)@ == old(s)@.push(c),
{
    s.push(c);
}

/// The characters of `s`, in order.
pub fn str_chars(s: &str) -> (r: Vec<char>)
    ensures
        r@ == s@,
{
    let mut out: Vec<char> = Vec::new();
    for c in it: s.chars()
        invariant
            out@ == it.seq().take(it.index() as int),
    {
        out.push(c);
    }
    out
}

/// The decimal digit character for `d < 10`.
pub open spec fn digit_char(d: nat) -> char {
    if d == 0 {
        '0'
    } else if d == 1 {
        '1'
    } else if d == 2 {
        '2'
    } else if d == 3 {
        '3'
    } else if d == 4 {
        '4'
    } else if d == 5 {
        '5'
    } else if d == 6 {
        '6'
    } else if d == 7 {
        '7'
    } else if d == 8 {
        '8'
    } else {
        '9'
    }
}

/// Whether `c` is one of `0`..`9`.
pub open spec fn is_digit(c: char) -> bool {
    '0' <= c && c <= '9'
}

/// The numeric value of a digit character.
pub open spec fn digit_value(c: char) -> nat {
    (c as int - '0' as int) as nat
}

/// The usual decimal rendering of `n`, without leading zeros (`"0"` for zero).
pub open spec fn dec_nat(n: nat) -> Seq<char>
    decreases n,
{
    if n < 10 {
        seq![digit_char(n)]
    } else {
        dec_nat(n / 10).push(digit_char(n % 10))
    }
}

/// The lowest `w` decimal digits of `n`, zero-padded to exactly `w` characters.
pub open spec fn dec_fixed(n: nat, w: nat) -> Seq<char>
    decreases w,
{
    if w == 0 {
        Seq::empty()
    } else {
        dec_fixed(n / 10, (w - 1) as nat).push(digit_char(n % 10))
    }
}

/// The decimal rendering of an integer, with a leading `-` when negative.
pub open spec fn dec_int(v: int) -> Seq<char> {
    if v < 0 {
        seq!['-'] + dec_nat((-v) as nat)
    } else {
        dec_nat(v as nat)
    }
}

/// The character for the digit `d`.
pub fn digit_to_char(d: u64) -> (c: char)
    requires
        d < 10,
    ensures
        c == digit_char(d as nat),
        is_digit(c),
{
    match d {
        0 => '0',
        1 => '1',
        2 => '2',
        3 => '3',
        4 => '4',
        5 => '5',
        6 => '6',
        7 => '7',
        8 => '8',
        _ => '9',
    }
}

/// The decimal digits of `n`.
pub fn nat_digits(n: u64) -> (r: Vec<char>)
    ensures
        r@ == dec_nat(n as nat),
    decreases n,
{
    if n < 10 {
        let mut v: Vec<char> = Vec::new();
        v.push(digit_to_char(n));
        proof {
            assert(v@ =~= seq![digit_char(n as nat)]);
        }
        v
    } else {
        let mut v = nat_digits(n / 10);
        v.push(digit_to_char(n % 10));
        v
    }
}

/// The lowest `w` decimal digits of `n`, zero-padded.
pub fn fixed_digits(n: u64, w: usize) -> (r: Vec<char>)
    ensures
        r@ == dec_fixed(n as nat, w as nat),
    decreases w,
{
    if w == 0 {
        let v: Vec<char> = Vec::new();
        proof {
            assert(v@ =~= Seq::<char>::empty());
        }
        v
    } else {
        let mut v = fixed_digits(n / 10, w - 1);
        v.push(digit_to_char(n % 10));
        v
    }
}

/// Appends every character of `chars` to `s`.
pub fn push_all(s: &mut String, chars: &Vec<char>)
    ensures
        final(s)@ == old(s)@ + chars@,
{
    let mut i: usize = 0;
    while i < chars.len()
        invariant
            i <= chars@.len(),
            s@ == old(s)@ + chars@.take(i as int),
        decreases chars@.len() - i,
    {
        push_char(s, chars[i]);
        proof {
            assert(chars@.take(i + 1) =~= chars@.take(i as int).push(chars@[i as int]));
        }
        i = i + 1;
    }
    proof {
        assert(chars@.take(chars@.len() as int) =~= chars@);
    }
}

/// The decimal rendering of `n` as a string.
pub fn usize_to_string(n: usize) -> (r: String)
    ensures
        r@ == dec_nat(n as nat),
{
    let mut s = String::new();
    let digits = nat_digits(n as u64);
    push_all(&mut s, &digits);
    proof {
        assert(s@ =~= dec_nat(n as nat));
    }
    s
}

/// A number whose top part is non-zero renders as its top part followed by the
/// zero-padded low `w` digits.
pub proof fn lemma_dec_split(hi: nat, lo: nat, w: nat)
    requires
        hi > 0,
        lo < pow_ten(w),
    ensures
        dec_nat(hi * pow_ten(w) + lo) == dec_nat(hi) + dec_fixed(lo, w),
    decreases w,
{
    if w == 0 {
        assert(lo == 0);
        assert(hi * 1 == hi);
        assert(dec_nat(hi) + Seq::<char>::empty() =~= dec_nat(hi));
    } else {
        let p = pow_ten((w - 1) as nat);
        let q = lo / 10;
        let r = lo % 10;
        let x = hi * p + q;
        assert(lo == 10 * q + r);
        assert(q < p) by (nonlinear_arith)
            requires
                lo < 10 * p,
                lo == 10 * q + r,
                0 <= r,
        ;
        lemma_dec_split(hi, q, (w - 1) as nat);
        assert(hi * (10 * p) + lo == 10 * x + r) by (nonlinear_arith)
            requires
                x == hi * p + q,
                lo == 10 * q + r,
        ;
        assert(p >= 1) by {
            crate::limbs::lemma_pow_ten_pos((w - 1) as nat);
        }
        assert(x >= 1) by (nonlinear_arith)
            requires
                hi >= 1,
                p >= 1,
                x == hi * p + q,
                q >= 0,
        ;
        let n = 10 * x + r;
        assert(n >= 10);
        assert(n / 10 == x && n % 10 == r) by (nonlinear_arith)
            requires
                n == 10 * x + r,
                0 <= r < 10,
        ;
        assert(dec_nat(n) == dec_nat(x).push(digit_char(r)));
        assert(dec_fixed(lo, w) == dec_fixed(q, (w - 1) as nat).push(digit_char(r)));
        assert(dec_nat(hi) + dec_fixed(lo, w) =~= (dec_nat(hi) + dec_fixed(q, (w - 1) as nat)).push(
            digit_char(r),
        ));
    }
}

/// Every character of `s` is a decimal digit.
pub open spec fn all_digits(s: Seq<char>) -> bool {
    forall|i: int| 0 <= i < s.len() ==> #[trigger] is_digit(s[i])
}

/// The value of a string of decimal digits (most significant first).
pub open spec fn digits_value(s: Seq<char>) -> nat
    decreases s.len(),
{
    if s.len() == 0 {
        0
    } else {
        10 * digits_value(s.drop_last()) + digit_value(s.last())
    }
}

/// The numeric value of a digit character.
pub fn char_digit(c: char) -> (d: u32)
    requires
        is_digit(c),
    ensures
        d == digit_value(c),
        d < 10,
{
    (c as u32) - ('0' as u32)
}

/// Whether every character in `cs[start..end]` is a decimal digit.
pub fn range_all_digits(cs: &Vec<char>, start: usize, end: usize) -> (r: bool)
    requires
        start <= end <= cs@.len(),
    ensures
        r == all_digits(cs@.subrange(start as int, end as int)),
{
    let mut i = start;
    while i < end
        invariant
            start <= i <= end,
            end <= cs@.len(),
            forall|k: int| start <= k < i ==> #[trigger] is_digit(cs@[k]),
        decreases end - i,
    {
        let c = cs[i];
        if !('0' <= c && c <= '9') {
            proof {
                assert(!is_digit(cs@.subrange(start as int, end as int)[i - start]));
            }
            return false;
        }
        i = i + 1;
    }
    proof {
        let sub = cs@.subrange(start as int, end as int);
        assert forall|k: int| 0 <= k < sub.len() implies #[trigger] is_digit(sub[k]) by {
            assert(sub[k] == cs@[start + k]);
        }
    }
    true
}

/// The position of the first `c` in `s`, if any.
pub open spec fn first_index_of(s: Seq<char>, c: char) -> Option<int>
    decreases s.len(),
{
    if s.len() == 0 {
        None
    } else if s[0] == c {
        Some(0)
    } else {
        match first_index_of(s.drop_first(), c) {
            Some(i) => Some(i + 1),
            None => None,
        }
    }
}

proof fn lemma_first_index_skip(s: Seq<char>, c: char, i: int)
    requires
        0 <= i <= s.len(),
        forall|j: int| 0 <= j < i ==> s[j] != c,
    ensures
        first_index_of(s, c) == (match first_index_of(s.skip(i), c) {
            Some(k) => Some(k + i),
            None => None,
        }),
    decreases i,
{
    if i > 0 {
        let t = s.drop_first();
        assert forall|j: int| 0 <= j < i - 1 implies t[j] != c by {
            assert(t[j] == s[j + 1]);
        }
        lemma_first_index_skip(t, c, i - 1);
        assert(t.skip(i - 1) =~= s.skip(i));
    } else {
        assert(s.skip(0) =~= s);
    }
}

/// The position of the first `c` in `cs`, if any.
pub fn find_char(cs: &Vec<char>, c: char) -> (r: Option<usize>)
    ensures
        match r {
            Some(i) => first_index_of(cs@, c) == Some(i as int) && i < cs@.len(),
            None => first_index_of(cs@, c) is None,
        },
{
    let mut i: usize = 0;
    while i < cs.len()
        invariant
            i <= cs@.len(),
            forall|j: int| 0 <= j < i ==> cs@[j] != c,
        decreases cs@.len() - i,
    {
        if cs[i] == c {
            proof {
                lemma_first_index_skip(cs@, c, i as int);
                assert(cs@.skip(i as int)[0] == c);
            }
            return Some(i);
        }
        i = i + 1;
    }
    proof {
        lemma_first_index_skip(cs@, c, i as int);
        assert(cs@.skip(i as int).len() == 0);
    }
    None
}

/// A digit is neither sign character.
pub proof fn lemma_digit_not_sign(c: char)
    requires
        is_digit(c),
    ensures
        c != '-',
        c != '+',
{
}

/// Unicode `White_Space`, the set `char::is_whitespace` tests for.
pub open spec fn is_whitespace(c: char) -> bool {
    let u = c as int;
    ||| 0x09 <= u <= 0x0d
    ||| u == 0x20
    ||| u == 0x85
    ||| u == 0xa0
    ||| u == 0x1680
    ||| 0x2000 <= u <= 0x200a
    ||| u == 0x2028
    ||| u == 0x2029
    ||| u == 0x202f
    ||| u == 0x205f
    ||| u == 0x3000
}

/// Whether `c` is Unicode white space.
pub fn char_is_whitespace(c: char) -> (r: bool)
    ensures
        r == is_whitespace(c),
{
    let u = c as u32;
    (0x09 <= u && u <= 0x0d) || u == 0x20 || u == 0x85 || u == 0xa0 || u == 0x1680 || (0x2000 <= u
        && u <= 0x200a) || u == 0x2028 || u == 0x2029 || u == 0x202f || u == 0x205f || u == 0x3000
}

/// Whether two character vectors are equal.
pub fn chars_eq(a: &Vec<char>, b: &Vec<char>) -> (r: bool)
    ensures
        r == (a@ == b@),
{
    if a.len() != b.len() {
        return false;
    }
    let mut i: usize = 0;
    while i < a.len()
        invariant
            i <= a@.len(),
            a@.len() == b@.len(),
            forall|k: int| 0 <= k < i ==> a@[k] == b@[k],
        decreases a@.len() - i,
    {
        if a[i] != b[i] {
            return false;
        }
        i = i + 1;
    }
    proof {
        assert(a@ =~= b@);
    }
    true
}

/// Whether two strings are equal.
pub fn str_eq(a: &str, b: &str) -> (r: bool)
    ensures
        r == (a@ == b@),
{
    let x = str_chars(a);
    let y = str_chars(b);
    chars_eq(&x, &y)
}

/// The string made of the characters `cs[from..]`.
pub fn string_from_chars(cs: &Vec<char>, from: usize) -> (r: String)
    requires
        from <= cs@.len(),
    ensures
        r@ == cs@.skip(from as int),
{
    let mut s = String::new();
    let mut i = from;
    while i < cs.len()
        invariant
            from <= i <= cs@.len(),
            s@ == cs@.subrange(from as int, i as int),
        decreases cs@.len() - i,
    {
        push_char(&mut s, cs[i]);
        proof {
            assert(cs@.subrange(from as int, i + 1) =~= cs@.subrange(from as int, i as int).push(
                cs@[i as int],
            ));
        }
        i = i + 1;
    }
    proof {
        assert(cs@.subrange(from as int, cs@.len() as int) =~= cs@.skip(from as int));
    }
    s
}

/// A one-character string.
pub fn char_string(c: char) -> (r: String)
    ensures
        r@ == seq![c],
{
    let mut s = String::new();
    push_char(&mut s, c);
    proof {
        assert(s@ =~= seq![c]);
    }
    s
}

} // verus!
