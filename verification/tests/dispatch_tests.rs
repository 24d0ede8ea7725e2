use rust_bignum::bignum::{BigNum, BigNumError};
use rust_bignum::ops::apply_op;

fn parse(s: &str) -> BigNum {
    BigNum::new_with(s.to_string()).expect("valid number")
}

#[test]
fn plus_dispatches_to_addition() {
    let r = apply_op(&parse("2"), &parse("3"), "+").unwrap();
    assert_eq!(r.render(), "5");
}

#[test]
fn minus_dispatches_to_subtraction() {
    let r = apply_op(&parse("2"), &parse("3"), "-").unwrap();
    assert_eq!(r.render(), "-1");
}

#[test]
fn star_dispatches_to_multiplication() {
    let r = apply_op(&parse("-2"), &parse("3"), "*").unwrap();
    assert_eq!(r.render(), "-6");
}

#[test]
fn division_is_reported_unsupported() {
    let e = apply_op(&parse("6"), &parse("3"), "/").unwrap_err();
    assert_eq!(e, BigNumError::UnsupportedOperation);
}

#[test]
fn unknown_tokens_are_reported_unsupported() {
    assert_eq!(
        apply_op(&parse("6"), &parse("3"), "%").unwrap_err(),
        BigNumError::UnsupportedOperation
    );
    assert_eq!(
        apply_op(&parse("6"), &parse("3"), "add").unwrap_err(),
        BigNumError::UnsupportedOperation
    );
    assert_eq!(
        apply_op(&parse("6"), &parse("3"), "").unwrap_err(),
        BigNumError::UnsupportedOperation
    );
}
