use rust_bignum::bignum::{compare_bignum, BigNum, BigNumError};
use std::cmp::Ordering;

fn parse(s: &str) -> BigNum {
    BigNum::new_with(s.to_string()).expect("valid number")
}

#[test]
fn parses_leading_zeros_to_canonical_form() {
    let v = parse("007");
    assert_eq!(v.render(), "7");
    assert_eq!(v.len(), 1);
}

#[test]
fn carry_grows_a_new_chunk_at_the_boundary() {
    let a = parse("999999999999999999");
    let b = parse("1");
    let r = a.add(&b);
    assert_eq!(r.render(), "1000000000000000000");
    assert_eq!(r.len(), 2);
}

#[test]
fn subtraction_crossing_zero_is_negative() {
    let r = parse("100").sub(&parse("999"));
    assert_eq!(r.render(), "-899");
}

#[test]
fn multiplication_with_interior_carries() {
    let r = parse("123456789123456789").mul(&parse("2"));
    assert_eq!(r.render(), "246913578246913578");
}

#[test]
fn equal_operands_subtract_to_plain_zero() {
    let r = parse("5").sub(&parse("5"));
    assert_eq!(r.render(), "0");
    assert!(r.is_zero());
}

#[test]
fn minus_zero_parses_to_plain_zero() {
    let v = parse("-0");
    assert_eq!(v.render(), "0");
    assert!(v.is_zero());
}

#[test]
fn surrounding_whitespace_is_trimmed() {
    let v = parse("  -12345678901234567890\t\n");
    assert_eq!(v.render(), "-12345678901234567890");
}

#[test]
fn empty_text_is_invalid() {
    assert_eq!(BigNum::new_with("".to_string()).unwrap_err(), BigNumError::InvalidFormat);
    assert_eq!(BigNum::new_with("   ".to_string()).unwrap_err(), BigNumError::InvalidFormat);
}

#[test]
fn lone_minus_is_invalid() {
    assert_eq!(BigNum::new_with("-".to_string()).unwrap_err(), BigNumError::InvalidFormat);
}

#[test]
fn stray_characters_are_invalid() {
    assert_eq!(BigNum::new_with("12a3".to_string()).unwrap_err(), BigNumError::InvalidFormat);
    assert_eq!(BigNum::new_with("abc".to_string()).unwrap_err(), BigNumError::InvalidFormat);
    assert_eq!(BigNum::new_with("12 34".to_string()).unwrap_err(), BigNumError::InvalidFormat);
    assert_eq!(BigNum::new_with("+5".to_string()).unwrap_err(), BigNumError::InvalidFormat);
}

#[test]
fn addition_is_commutative() {
    let a = parse("123456789123456789123456789");
    let b = parse("-98765432109876543210");
    let r1 = a.add(&b);
    let r2 = b.add(&a);
    assert_eq!(r1.render(), r2.render());
}

#[test]
fn multiplication_is_commutative() {
    let a = parse("-123456789123456789123456789");
    let b = parse("987654321");
    let r1 = a.mul(&b);
    let r2 = b.mul(&a);
    assert_eq!(r1.render(), r2.render());
}

#[test]
fn zero_is_the_additive_identity() {
    let a = parse("-424242424242424242424242");
    let z = BigNum::new_zero();
    assert_eq!(a.add(&z).render(), a.render());
    assert_eq!(z.add(&a).render(), a.render());
}

#[test]
fn multiplying_by_zero_gives_zero() {
    let a = parse("-424242424242424242424242");
    let z = BigNum::new_zero();
    assert_eq!(a.mul(&z).render(), "0");
    assert_eq!(z.mul(&a).render(), "0");
}

#[test]
fn one_is_the_multiplicative_identity() {
    let a = parse("31415926535897932384626433832795028841971");
    let one = parse("1");
    assert_eq!(a.mul(&one).render(), a.render());
}

#[test]
fn subtracting_an_addend_inverts_addition() {
    let a = parse("999999999999999999999999999999");
    let b = parse("-123456789");
    let r = a.add(&b).sub(&b);
    assert_eq!(r.render(), a.render());
}

#[test]
fn negating_one_factor_flips_the_product_sign() {
    let a = parse("123456789123456789");
    let b = parse("987654321987654321");
    let nb = b.with_neg(true);
    let p = a.mul(&b);
    let q = a.mul(&nb);
    assert_eq!(p.render(), "121932631356500531347203169112635269");
    assert_eq!(q.render(), "-121932631356500531347203169112635269");
}

#[test]
fn negating_both_factors_keeps_the_product() {
    let a = parse("-123456789");
    let b = parse("987654321");
    let p = a.mul(&b);
    let q = a.with_neg(true).mul(&b.with_neg(true));
    assert_eq!(q.render(), "121932631112635269");
    assert_eq!(p.render(), "-121932631112635269");
}

#[test]
fn sum_length_grows_by_at_most_one_chunk() {
    let a = parse("999999999999999999999999999999999999");
    let b = parse("999999999999999999999999999999999999");
    let r = a.add(&b);
    assert!(r.len() <= a.len().max(b.len()) + 1);
    assert_eq!(r.render(), "1999999999999999999999999999999999998");
}

#[test]
fn product_length_is_at_most_the_sum_of_lengths() {
    let a = parse("999999999999999999999999999999999999");
    let b = parse("99999999999999999999");
    let r = a.mul(&b);
    assert!(r.len() <= a.len() + b.len());
}

#[test]
fn results_carry_no_leading_zero_chunks() {
    let a = parse("1000000000000000000000000000000000000");
    let b = parse("999999999999999999999999999999999999");
    let d = a.sub(&b);
    assert_eq!(d.render(), "1");
    assert_eq!(d.len(), 1);
}

#[test]
fn magnitude_comparison_ignores_sign() {
    let a = parse("-1000000000000000000000");
    let b = parse("5");
    assert_eq!(compare_bignum(&a, &b), Ordering::Greater);
    assert_eq!(compare_bignum(&b, &a), Ordering::Less);
    assert_eq!(compare_bignum(&a, &parse("1000000000000000000000")), Ordering::Equal);
}

#[test]
fn comparison_on_equal_lengths_is_lexicographic() {
    let a = parse("123456789000000000000000000");
    let b = parse("123456789000000000000000001");
    assert_eq!(compare_bignum(&a, &b), Ordering::Less);
    assert_eq!(compare_bignum(&b, &a), Ordering::Greater);
}

#[test]
fn with_neg_keeps_zero_non_negative() {
    let z = BigNum::new_zero();
    assert_eq!(z.with_neg(true).render(), "0");
    let five = parse("5");
    assert_eq!(five.with_neg(true).render(), "-5");
    assert_eq!(five.with_neg(true).with_neg(false).render(), "5");
}

#[test]
fn render_pads_interior_chunks_to_full_width() {
    let a = parse("1000000000000000000").add(&parse("7"));
    assert_eq!(a.render(), "1000000000000000007");
    let b = parse("2000000000000000000000000000000000005");
    assert_eq!(b.render(), "2000000000000000000000000000000000005");
}

#[test]
fn mixed_sign_addition_reduces_to_subtraction() {
    assert_eq!(parse("-5").add(&parse("3")).render(), "-2");
    assert_eq!(parse("5").add(&parse("-3")).render(), "2");
    assert_eq!(parse("-3").add(&parse("5")).render(), "2");
    assert_eq!(parse("3").add(&parse("-5")).render(), "-2");
}

#[test]
fn same_sign_negative_operands() {
    assert_eq!(parse("-5").add(&parse("-3")).render(), "-8");
    assert_eq!(parse("-5").sub(&parse("-3")).render(), "-2");
    assert_eq!(parse("-3").sub(&parse("-5")).render(), "2");
    assert_eq!(parse("5").sub(&parse("-3")).render(), "8");
    assert_eq!(parse("-5").sub(&parse("3")).render(), "-8");
}

#[test]
fn subtraction_borrows_across_chunk_boundaries() {
    let r = parse("1000000000000000000000000000000000000").sub(&parse("1"));
    assert_eq!(r.render(), "999999999999999999999999999999999999");
}

#[test]
fn render_then_parse_round_trips() {
    let texts = [
        "0",
        "7",
        "-7",
        "1000000000000000000",
        "-999999999999999999999999999999",
        "123456789123456789123456789123456789",
    ];
    for t in texts {
        assert_eq!(parse(t).render(), *t);
    }
}
