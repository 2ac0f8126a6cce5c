use amm::Fraction;

#[test]
fn new_reduces_to_lowest_terms() {
    let half = Fraction::new(2, 4).unwrap();
    assert_eq!(half.numerator(), 1);
    assert_eq!(half.denominator(), 2);
}

#[test]
fn new_refuses_a_zero_denominator() {
    assert!(Fraction::new(1, 0).is_none());
}

#[test]
fn zero_over_anything_is_zero_over_one() {
    let zero = Fraction::new(0, 7).unwrap();
    assert_eq!(zero, Fraction::zero());
}

#[test]
fn sum_is_exact() {
    let third = Fraction::new(1, 3).unwrap();
    let sixth = Fraction::new(1, 6).unwrap();
    assert_eq!(third.checked_add(&sixth), Fraction::new(1, 2));
}

#[test]
fn product_and_quotient_are_exact() {
    let a = Fraction::new(2, 3).unwrap();
    let b = Fraction::new(9, 4).unwrap();
    assert_eq!(a.checked_mul(&b), Fraction::new(3, 2));
    assert_eq!(a.checked_div(&b), Fraction::new(8, 27));
}

#[test]
fn division_by_zero_gives_nothing() {
    let a = Fraction::new(2, 3).unwrap();
    assert!(a.checked_div(&Fraction::zero()).is_none());
}

#[test]
fn sum_that_does_not_fit_gives_nothing() {
    let big = Fraction::from_integer(u64::MAX);
    assert!(big.checked_add(&Fraction::one()).is_none());
    let small = Fraction::new(1, u64::MAX).unwrap();
    let other = Fraction::new(1, u64::MAX - 1).unwrap();
    assert!(small.checked_add(&other).is_none());
}

#[test]
fn sum_of_large_terms_that_reduces_is_held() {
    let a = Fraction::new(1, u64::MAX).unwrap();
    let sum = a.checked_add(&a).unwrap();
    assert_eq!(sum.numerator(), 2);
    assert_eq!(sum.denominator(), u64::MAX);
}

#[test]
fn order_goes_by_value() {
    let a = Fraction::new(1, 3).unwrap();
    let b = Fraction::new(2, 5).unwrap();
    assert!(a.is_less_than(&b));
    assert!(!b.is_less_than(&a));
    assert!(a.is_equal_to(&Fraction::new(3, 9).unwrap()));
    assert_eq!(a.max(b), b);
    assert_eq!(b.max(a), b);
}

#[test]
fn difference_is_exact_and_never_negative() {
    let half = Fraction::new(1, 2).unwrap();
    let third = Fraction::new(1, 3).unwrap();
    assert_eq!(half.checked_sub(&third), Fraction::new(1, 6));
    assert_eq!(half.checked_sub(&half), Some(Fraction::zero()));
    assert_eq!(third.checked_sub(&half), None);
    let most = Fraction::new(u64::MAX, 1).unwrap();
    let least = Fraction::new(1, u64::MAX).unwrap();
    assert_eq!(most.checked_sub(&least), None);
}
