use interior_point::builder::{
    build_standard_form, orient_cost, prepare_initial_point, ConstraintSign,
};
use interior_point::rational::Rat;

fn rat(n: i64, d: i64) -> Rat {
    Rat::new(n, d).unwrap()
}

fn row(vals: &[(i64, i64)]) -> Vec<Rat> {
    vals.iter().map(|&(n, d)| rat(n, d)).collect()
}

#[test]
fn slack_columns_are_appended_per_inequality() {
    // x + y <= 4;  x - y >= 1;  x + 2y = 3
    let coeffs = vec![
        row(&[(1, 1), (1, 1)]),
        row(&[(1, 1), (-1, 1)]),
        row(&[(1, 1), (2, 1)]),
    ];
    let signs = vec![
        ConstraintSign::LessEq,
        ConstraintSign::GreaterEq,
        ConstraintSign::Equal,
    ];
    let rhs = row(&[(4, 1), (1, 1), (3, 1)]);
    let objective = row(&[(5, 1), (7, 1)]);
    let (a, b, c) = build_standard_form(&coeffs, &signs, &rhs, &objective);

    // two inequalities, so two slack columns
    assert_eq!(a.len(), 3);
    for r in a.iter() {
        assert_eq!(r.len(), 4);
    }
    // row 0 is kept, with slack (1, 0)
    assert!(a[0][0].equals(&rat(1, 1)));
    assert!(a[0][1].equals(&rat(1, 1)));
    assert!(a[0][2].equals(&rat(1, 1)));
    assert!(a[0][3].is_zero());
    // row 1 is negated (>=), with slack (0, 1)
    assert!(a[1][0].equals(&rat(-1, 1)));
    assert!(a[1][1].equals(&rat(1, 1)));
    assert!(a[1][2].is_zero());
    assert!(a[1][3].equals(&rat(1, 1)));
    // row 2 is an equality: kept, no slack
    assert!(a[2][0].equals(&rat(1, 1)));
    assert!(a[2][1].equals(&rat(2, 1)));
    assert!(a[2][2].is_zero());
    assert!(a[2][3].is_zero());
    // right-hand side follows the row signs
    assert!(b[0].equals(&rat(4, 1)));
    assert!(b[1].equals(&rat(-1, 1)));
    assert!(b[2].equals(&rat(3, 1)));
    // cost is padded with zeros
    assert_eq!(c.len(), 4);
    assert!(c[0].equals(&rat(5, 1)));
    assert!(c[1].equals(&rat(7, 1)));
    assert!(c[2].is_zero());
    assert!(c[3].is_zero());
}

#[test]
fn cost_is_negated_only_for_maximization() {
    let objective = row(&[(3, 1), (-2, 1)]);
    let min_c = orient_cost(&objective, false);
    assert!(min_c[0].equals(&rat(3, 1)));
    assert!(min_c[1].equals(&rat(-2, 1)));
    let max_c = orient_cost(&objective, true);
    assert!(max_c[0].equals(&rat(-3, 1)));
    assert!(max_c[1].equals(&rat(2, 1)));
}

#[test]
fn matching_initial_point_is_kept() {
    let initial = row(&[(1, 2), (3, 1)]);
    let r = prepare_initial_point(&initial, 2);
    assert_eq!(r.len(), 2);
    assert!(r[0].equals(&rat(1, 2)));
    assert!(r[1].equals(&rat(3, 1)));
}

#[test]
fn short_initial_point_is_floored_and_extended() {
    let initial = row(&[(-5, 1), (2, 1)]);
    let r = prepare_initial_point(&initial, 4);
    assert_eq!(r.len(), 4);
    // a nonpositive entry is floored at 1/10000
    assert!(r[0].equals(&rat(1, 10000)));
    assert!(r[1].equals(&rat(2, 1)));
    // missing entries become one
    assert!(r[2].equals(&Rat::one()));
    assert!(r[3].equals(&Rat::one()));
}
