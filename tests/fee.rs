use stake_pool::fee::{Fee, FeeError, MAX_FEE_PRECISION};
use std::cmp::Ordering;

#[test]
fn fee_too_high() {
    assert_eq!(Fee::try_new(3, 2).unwrap_err(), FeeError::FeeTooHigh);
}

#[test]
fn fee_zero_denominator() {
    assert_eq!(Fee::try_new(0, 0).unwrap_err(), FeeError::InvalidFeeDenominator);
}

#[test]
fn fee_denominator_above_cap() {
    assert_eq!(
        Fee::try_new(1, MAX_FEE_PRECISION + 1).unwrap_err(),
        FeeError::InvalidFeeDenominator
    );
    let f = Fee::try_new(MAX_FEE_PRECISION, MAX_FEE_PRECISION).unwrap();
    assert_eq!(f.numerator(), MAX_FEE_PRECISION);
}

#[test]
fn fee_zero_is_zero_over_one() {
    let z = Fee::zero();
    assert_eq!(z.numerator(), 0);
    assert_eq!(z.denominator(), 1);
    assert_eq!(z.check(), Ok(()));
    assert_eq!(z.apply(1_000), 0);
}

#[test]
fn fee_apply_rounds_down() {
    let f = Fee::try_new(1, 3).unwrap();
    assert_eq!(f.apply(10), 3);
    assert_eq!(f.apply(u64::MAX), u64::MAX / 3);
    let full = Fee::try_new(7, 7).unwrap();
    assert_eq!(full.apply(u64::MAX), u64::MAX);
}

#[test]
fn fee_apply_not_above_amount() {
    let f = Fee::try_new(999, 1000).unwrap();
    for a in [0u64, 1, 999, 1000, 123_456_789, u64::MAX] {
        assert!(f.apply(a) <= a);
    }
    assert_eq!(f.apply(1000), 999);
}

#[test]
fn fee_equal_ratios() {
    let a = Fee::try_new(1, 2).unwrap();
    let b = Fee::try_new(2, 4).unwrap();
    assert!(a == b);
    assert_eq!(a.cmp(&b), Ordering::Equal);
    let c = Fee::try_new(2, 3).unwrap();
    assert!(a != c);
    assert!(a < c);
    assert_eq!(c.cmp(&a), Ordering::Greater);
}

#[test]
fn fee_compose_without_rescale() {
    let a = Fee::try_new(1, 2).unwrap();
    let b = Fee::try_new(3, 5).unwrap();
    let c = a.mul(b);
    assert_eq!(c.numerator(), 3);
    assert_eq!(c.denominator(), 10);
}

#[test]
fn fee_compose_with_rescale() {
    let a = Fee::try_new(500_000_000, MAX_FEE_PRECISION).unwrap();
    let b = Fee::try_new(3, 4).unwrap();
    // denominator 4e9, divisor 4
    let c = a.mul(b);
    assert_eq!(c.numerator(), 375_000_000);
    assert_eq!(c.denominator(), 1_000_000_000);
    let d = Fee::try_new(1, 2).unwrap().mul(Fee::try_new(1, MAX_FEE_PRECISION).unwrap());
    // denominator 2e9, divisor 2; numerator 1 rounds to zero
    assert_eq!(d.numerator(), 0);
    assert_eq!(d.denominator(), MAX_FEE_PRECISION);
    let e = Fee::try_new(1, 1_000_000).unwrap().mul(Fee::try_new(1, 1_500).unwrap());
    // denominator 1.5e9, divisor max(2, 1) = 2
    assert_eq!(e.denominator(), 750_000_000);
    assert!(e.numerator() <= e.denominator());
}

#[test]
fn fee_check_invalid() {
    let f = Fee::default();
    assert_eq!(f.check(), Err(FeeError::InvalidFeeDenominator));
}
