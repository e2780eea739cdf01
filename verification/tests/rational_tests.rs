use interior_point::rational::Rat;

fn rat(n: i64, d: i64) -> Rat {
    Rat::new(n, d).unwrap()
}

#[test]
fn construction_reduces_to_lowest_terms() {
    let r = rat(2, 4);
    assert!(r.equals(&rat(1, 2)));
    assert_eq!(r.numer(), 1);
    assert_eq!(r.denom(), 2);

    let s = rat(-6, -8);
    assert!(s.equals(&rat(3, 4)));
    assert_eq!(s.numer(), 3);
    assert_eq!(s.denom(), 4);

    let t = rat(5, -10);
    assert!(t.equals(&rat(-1, 2)));
    assert_eq!(t.numer(), -1);
    assert_eq!(t.denom(), 2);
}

#[test]
fn zero_denominator_is_rejected() {
    assert!(Rat::new(1, 0).is_none());
}

#[test]
fn exact_addition_and_subtraction() {
    let a = rat(1, 3);
    let b = rat(1, 6);
    let sum = a.checked_add(&b).unwrap();
    assert!(sum.equals(&rat(1, 2)));

    let diff = a.checked_sub(&b).unwrap();
    assert!(diff.equals(&rat(1, 6)));

    let z = a.checked_sub(&a).unwrap();
    assert!(z.equals(&Rat::zero()));
}

#[test]
fn exact_multiplication_and_reciprocal() {
    let a = rat(3, 4);
    let b = rat(-2, 9);
    let prod = a.checked_mul(&b).unwrap();
    assert!(prod.equals(&rat(-1, 6)));

    let inv = rat(7, 3).inv_pos();
    assert!(inv.equals(&rat(3, 7)));

    let r = rat(-5, 2).recip();
    assert!(r.equals(&rat(-2, 5)));
    let one = rat(-5, 2).checked_mul(&r).unwrap();
    assert!(one.equals(&Rat::one()));
}

#[test]
fn comparisons_follow_the_denoted_values() {
    let a = rat(1, 3);
    let b = rat(2, 6);
    let c = rat(1, 2);
    assert!(a.equals(&b));
    assert!(a.le(&b));
    assert!(!a.lt(&b));
    assert!(a.lt(&c));
    assert!(rat(-1, 2).is_neg());
    assert!(!rat(1, 2).is_neg());
    assert!(rat(0, 5).is_zero());
}

#[test]
fn min_and_max_select_by_value() {
    let a = rat(1, 3);
    let c = rat(1, 2);
    assert!(a.min_of(&c).equals(&a));
    assert!(a.max_of(&c).equals(&c));
    assert!(c.max_of(&a).equals(&c));
}

#[test]
fn overflow_is_reported_not_wrapped() {
    let big = rat(i64::MAX, 1);
    assert!(big.checked_mul(&big).is_none());
    assert!(big.checked_add(&big).is_none());
    // reduction rescues results that cancel
    let half_big = rat(i64::MAX, 2);
    let doubled = half_big.checked_add(&half_big).unwrap();
    assert!(doubled.equals(&big));
}

#[test]
fn negation_is_exact() {
    let a = rat(7, 5);
    assert!(a.neg().equals(&rat(-7, 5)));
    assert!(a.neg().neg().equals(&a));
}
