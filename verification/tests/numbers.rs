use emlisp::{parse_number, BigInt, Number};
use std::cmp::Ordering;

fn big(s: &str) -> BigInt {
    BigInt::parse_decimal(s).expect("decimal")
}

#[test]
fn bigint_decimal_rendering() {
    assert_eq!(BigInt::zero().to_decimal(), "0");
    assert_eq!(BigInt::one().to_decimal(), "1");
    assert_eq!(BigInt::from_i64(-42).to_decimal(), "-42");
    assert_eq!(BigInt::from_i64(i64::MIN).to_decimal(), "-9223372036854775808");
    assert_eq!(BigInt::from_i64(i64::MAX).to_decimal(), "9223372036854775807");
    assert_eq!(BigInt::from_i64(1_000_000_007).to_decimal(), "1000000007");
}

#[test]
fn bigint_parse_decimal_accepts_signs() {
    assert_eq!(big("+12").to_decimal(), "12");
    assert_eq!(big("-0").to_decimal(), "0");
    assert!(big("-0").is_zero());
    assert_eq!(big("000123").to_decimal(), "123");
    assert_eq!(big("-123456789012345678901234567890").to_decimal(), "-123456789012345678901234567890");
}

#[test]
fn bigint_parse_decimal_rejects_malformed() {
    assert!(BigInt::parse_decimal("").is_none());
    assert!(BigInt::parse_decimal("-").is_none());
    assert!(BigInt::parse_decimal("+").is_none());
    assert!(BigInt::parse_decimal("1a").is_none());
    assert!(BigInt::parse_decimal("--1").is_none());
    assert!(BigInt::parse_decimal("1.5").is_none());
}

#[test]
fn bigint_arithmetic_carries_and_borrows() {
    assert_eq!(big("999999999").add(big("1")).to_decimal(), "1000000000");
    assert_eq!(big("1000000000").sub(big("1")).to_decimal(), "999999999");
    assert_eq!(big("1000000000000000000").sub(big("1")).to_decimal(), "999999999999999999");
    assert_eq!(big("5").sub(big("7")).to_decimal(), "-2");
    assert_eq!(big("-5").add(big("5")).to_decimal(), "0");
    assert_eq!(big("-5").add(big("-7")).to_decimal(), "-12");
    assert_eq!(big("7").neg().to_decimal(), "-7");
    assert_eq!(
        big("123456789012345678901234567890").mul(big("-987654321098765432109876543210")).to_decimal(),
        "-121932631137021795226185032733622923332237463801111263526900"
    );
    assert_eq!(big("0").mul(big("-5")).to_decimal(), "0");
}

#[test]
fn bigint_pow10() {
    assert_eq!(BigInt::pow10(0).to_decimal(), "1");
    assert_eq!(BigInt::pow10(20).to_decimal(), "100000000000000000000");
}

#[test]
fn bigint_ordering() {
    assert_eq!(big("-3").cmp(&big("2")), Ordering::Less);
    assert_eq!(big("-3").cmp(&big("-20")), Ordering::Greater);
    assert_eq!(big("1000000000").cmp(&big("999999999")), Ordering::Greater);
    assert_eq!(big("42").cmp(&big("42")), Ordering::Equal);
    assert!(big("-1") < BigInt::zero());
    assert!(big("12") == big("+12"));
    assert!(big("12") != big("13"));
}

#[test]
fn number_from_parts_moves_sign_and_rejects_zero_denominator() {
    assert!(Number::from_parts(BigInt::one(), BigInt::zero()).is_none());
    let n = Number::from_parts(BigInt::from_i64(3), BigInt::from_i64(-6)).expect("non-zero");
    assert_eq!(n.to_display(), "-3/6");
    let z = Number::from_parts(BigInt::zero(), BigInt::from_i64(-6)).expect("non-zero");
    assert_eq!(z.to_display(), "0");
    assert!(z.is_integer());
}

#[test]
fn number_arithmetic_is_exact_and_unreduced() {
    let a = parse_number("0.1").unwrap();
    let b = parse_number("0.2").unwrap();
    let sum = a.add(b);
    assert_eq!(sum.to_display(), "30/100");
    assert!(sum == parse_number("0.3").unwrap());
    let q = Number::from_i64(20).mul(Number::from_i64(5).reciprocal().unwrap());
    assert_eq!(q.to_display(), "20/5");
    assert!(q == Number::from_i64(4));
    assert_eq!(Number::from_i64(7).sub(Number::from_i64(10)).to_display(), "-3");
    assert_eq!(Number::from_i64(7).neg().to_display(), "-7");
    assert!(Number::from_i64(0).reciprocal().is_none());
    assert!(Number::from_i64(0).is_zero());
}

#[test]
fn number_accessors_and_ordering() {
    let n = parse_number("-2.5").unwrap();
    assert_eq!(n.numer().to_decimal(), "-25");
    assert_eq!(n.denom().to_decimal(), "10");
    assert!(!n.is_integer());
    assert!(n < Number::from_i64(-2));
    assert_eq!(n.cmp(&Number::from_i64(-3)), Ordering::Greater);
}

#[test]
fn parse_number_forms() {
    assert_eq!(parse_number("42").unwrap().to_display(), "42");
    assert_eq!(parse_number("-7").unwrap().to_display(), "-7");
    assert_eq!(parse_number("3.14").unwrap().to_display(), "314/100");
    assert_eq!(parse_number("+1.5").unwrap().to_display(), "15/10");
    assert_eq!(parse_number("-0.5").unwrap().to_display(), "-5/10");
    assert_eq!(parse_number("0.0").unwrap().to_display(), "0");
    assert!(parse_number(".5").is_none());
    assert!(parse_number("5.").is_none());
    assert!(parse_number("1.2.3").is_none());
    assert!(parse_number("-.5").is_none());
    assert!(parse_number("1.-5").is_none());
    assert!(parse_number("abc").is_none());
    assert!(parse_number("").is_none());
}

#[test]
fn decimal_roundtrip_on_concrete_values() {
    for s in ["0", "-1", "1000000000", "-999999999999999999999"] {
        let b = big(s);
        let back = BigInt::parse_decimal(&b.to_decimal()).unwrap();
        assert!(back == b);
    }
}

#[test]
fn fraction_addition_commutes_and_equality_is_an_equivalence() {
    let a = parse_number("1.5").unwrap();
    let b = parse_number("-0.25").unwrap();
    assert_eq!(a.clone().add(b.clone()).to_display(), b.clone().add(a.clone()).to_display());
    assert_eq!(a.clone().mul(b.clone()).to_display(), b.clone().mul(a.clone()).to_display());
    let x = parse_number("0.5").unwrap();
    let y = Number::from_parts(BigInt::from_i64(2), BigInt::from_i64(4)).unwrap();
    let z = Number::from_parts(BigInt::from_i64(-3), BigInt::from_i64(-6)).unwrap();
    assert!(x == x.clone());
    assert!(x == y && y == x);
    assert!(y == z && x == z);
}

#[test]
fn subtraction_undoes_addition() {
    let a = parse_number("1.25").unwrap();
    let b = parse_number("-0.3").unwrap();
    let back = a.clone().add(b.clone()).sub(b.clone());
    assert!(back == a);
    assert_eq!(back.to_display(), "12500/10000");
}

#[test]
fn number_order_is_total_and_agrees_with_equality() {
    let third = Number::from_parts(BigInt::from_i64(1), BigInt::from_i64(3)).unwrap();
    let half = parse_number("0.5").unwrap();
    let two_quarters = Number::from_parts(BigInt::from_i64(2), BigInt::from_i64(4)).unwrap();
    let one = Number::from_i64(1);
    assert_eq!(third.cmp(&half), Ordering::Less);
    assert_eq!(half.cmp(&third), Ordering::Greater);
    assert_eq!(half.cmp(&two_quarters), Ordering::Equal);
    assert!(half == two_quarters);
    assert!(third < two_quarters && two_quarters < one && third < one);
}
