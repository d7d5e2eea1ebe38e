use porco::Probability;
use porco::ProbabilityError;

#[test]
fn new_accepts_fractions_in_range() {
    let p = Probability::new(3, 4).unwrap();
    assert_eq!(p.num(), 3);
    assert_eq!(p.den(), 4);
    let whole = Probability::new(7, 7).unwrap();
    assert_eq!(whole, Probability::one());
}

#[test]
fn new_rejects_zero_denominator() {
    assert_eq!(Probability::new(1, 0), Err(ProbabilityError::ZeroDenominator));
    assert_eq!(Probability::new(0, 0), Err(ProbabilityError::ZeroDenominator));
}

#[test]
fn new_rejects_magnitude_above_one() {
    assert_eq!(Probability::new(5, 4), Err(ProbabilityError::GreaterThanOne));
}

#[test]
fn equality_ignores_representation() {
    let half = Probability::new(1, 2).unwrap();
    let two_quarters = Probability::new(2, 4).unwrap();
    assert_eq!(half, two_quarters);
    assert_ne!(half, Probability::new(1, 3).unwrap());
    assert_eq!(Probability::new(0, 5).unwrap(), Probability::zero());
}

#[test]
fn checked_add_is_exact() {
    let half = Probability::new(1, 2).unwrap();
    let quarter = Probability::new(1, 4).unwrap();
    let sum = half.checked_add(quarter).unwrap();
    assert_eq!(sum, Probability::new(3, 4).unwrap());
}

#[test]
fn checked_add_reports_unrepresentable_sums() {
    let a = Probability::new(1, u64::MAX).unwrap();
    let b = Probability::new(1, u64::MAX - 1).unwrap();
    assert!(a.checked_add(b).is_none());
}

#[test]
fn checked_mul_is_exact() {
    let half = Probability::new(1, 2).unwrap();
    let third = Probability::new(1, 3).unwrap();
    assert_eq!(half.checked_mul(third).unwrap(), Probability::new(1, 6).unwrap());
}

#[test]
fn checked_div_is_exact_and_rejects_zero() {
    let quarter = Probability::new(1, 4).unwrap();
    let half = Probability::new(1, 2).unwrap();
    assert_eq!(quarter.checked_div(half).unwrap(), half);
    assert!(quarter.checked_div(Probability::zero()).is_none());
}

#[test]
fn operators_compute_exact_fractions() {
    let half = Probability::new(1, 2).unwrap();
    let quarter = Probability::new(1, 4).unwrap();
    assert_eq!(half + quarter, Probability::new(3, 4).unwrap());
    assert_eq!(half - quarter, quarter);
    assert_eq!(half * half, quarter);
    assert_eq!(quarter / half, half);
}

#[test]
fn checked_scale_multiplies_by_count() {
    let sixth = Probability::new(1, 6).unwrap();
    assert_eq!(sixth.checked_scale(3).unwrap(), Probability::new(1, 2).unwrap());
    let tiny = Probability::new(1, u64::MAX).unwrap();
    assert!(tiny.checked_scale(u64::MAX).unwrap() == Probability::one());
}
