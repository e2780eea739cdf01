use interior_point::interior::{
    calculate_a_tilde, calculate_c_tilde, calculate_cp_vector, calculate_p_matrix,
    create_d_matrix, has_improving_direction, max_negative_magnitude,
    perform_interior_point_iteration, InteriorPointError, InteriorPointProblem,
};
use interior_point::matrix::{mat_mul, mat_scale, mat_sub, mat_transpose};
use interior_point::rational::Rat;

fn rat(n: i64, d: i64) -> Rat {
    Rat::new(n, d).unwrap()
}

fn row(vals: &[(i64, i64)]) -> Vec<Rat> {
    vals.iter().map(|&(n, d)| rat(n, d)).collect()
}

fn mat(rows: &[&[(i64, i64)]]) -> Vec<Vec<Rat>> {
    rows.iter().map(|r| row(r)).collect()
}

fn sample_problem(c0: i64, c1: i64, b0: i64) -> InteriorPointProblem {
    InteriorPointProblem {
        a_matrix: mat(&[&[(1, 1), (1, 1)]]),
        b_vector: row(&[(b0, 1)]),
        c_vector: row(&[(c0, 1), (c1, 1)]),
        x_vector: row(&[(1, 1), (1, 1)]),
        alpha: rat(1, 2),
    }
}

#[test]
fn scaling_keeps_positive_components_exactly() {
    let x = row(&[(3, 2), (7, 1)]);
    let d = create_d_matrix(&x);
    assert!(d[0][0].equals(&rat(3, 2)));
    assert!(d[1][1].equals(&rat(7, 1)));
    assert!(d[0][1].is_zero());
    assert!(d[1][0].is_zero());
}

#[test]
fn scaling_clamps_nonpositive_components_to_the_floor() {
    let x = row(&[(-1, 1), (0, 1), (2, 1)]);
    let d = create_d_matrix(&x);
    assert!(d[0][0].equals(&rat(1, 100000000)));
    assert!(d[1][1].equals(&rat(1, 100000000)));
    assert!(d[2][2].equals(&rat(2, 1)));
}

#[test]
fn scaled_system_multiplies_columns_and_cost() {
    let a = mat(&[&[(1, 1), (2, 1)], &[(3, 1), (4, 1)]]);
    let d = mat(&[&[(2, 1), (0, 1)], &[(0, 1), (1, 2)]]);
    let at = calculate_a_tilde(&a, &d).unwrap();
    assert!(at[0][0].equals(&rat(2, 1)));
    assert!(at[0][1].equals(&rat(1, 1)));
    assert!(at[1][0].equals(&rat(6, 1)));
    assert!(at[1][1].equals(&rat(2, 1)));
    let c = row(&[(1, 1), (-2, 1)]);
    let ct = calculate_c_tilde(&c, &d).unwrap();
    assert!(ct[0].equals(&rat(2, 1)));
    assert!(ct[1].equals(&rat(-1, 1)));
}

#[test]
fn projector_of_the_unit_row_matrix() {
    // A~ = [1, 1]: M = 2 + 1e-8, so P differs from [[1/2, -1/2], [-1/2, 1/2]]
    // by exactly the regularization.
    let at = mat(&[&[(1, 1), (1, 1)]]);
    let p = calculate_p_matrix(&at).unwrap();
    assert!(p[0][0].equals(&rat(100000001, 200000001)));
    assert!(p[0][1].equals(&rat(-100000000, 200000001)));
    assert!(p[1][0].equals(&rat(-100000000, 200000001)));
    assert!(p[1][1].equals(&rat(100000001, 200000001)));
}

#[test]
fn projector_annihilates_the_scaled_constraints_up_to_eps() {
    // P A~^T has every entry equal to eps * (A~^T M^(-1)), here 1/200000001.
    let at = mat(&[&[(1, 1), (1, 1)]]);
    let p = calculate_p_matrix(&at).unwrap();
    let t = mat_transpose(&at);
    let pt = mat_mul(&p, &t).unwrap();
    assert!(pt[0][0].equals(&rat(1, 200000001)));
    assert!(pt[1][0].equals(&rat(1, 200000001)));
}

#[test]
fn projector_idempotence_defect_is_exactly_scaled() {
    // P P - P = -eps * (A~^T S S A~), entrywise -10^8 / 200000001^2.
    let at = mat(&[&[(1, 1), (1, 1)]]);
    let p = calculate_p_matrix(&at).unwrap();
    let pp = mat_mul(&p, &p).unwrap();
    let defect = mat_sub(&pp, &p).unwrap();
    // 200000001^2 does not fit an i64 literal pair, so rebuild the value:
    // -10^8 / 200000001^2 == (-10^8 / 200000001) * (1 / 200000001)
    let expected = rat(-100000000, 200000001)
        .checked_mul(&rat(1, 200000001))
        .unwrap();
    for i in 0..2 {
        for j in 0..2 {
            assert!(defect[i][j].equals(&expected), "entry ({}, {})", i, j);
        }
    }
}

#[test]
fn projected_cost_and_direction_magnitude() {
    let at = mat(&[&[(1, 1), (1, 1)]]);
    let p = calculate_p_matrix(&at).unwrap();
    let ct = row(&[(-1, 1), (-1, 1)]);
    let cp = calculate_cp_vector(&p, &ct).unwrap();
    assert!(cp[0].equals(&rat(-1, 200000001)));
    assert!(cp[1].equals(&rat(-1, 200000001)));
    let v = max_negative_magnitude(&cp);
    assert!(v.equals(&rat(1, 200000001)));
}

#[test]
fn symmetric_problem_converges_immediately() {
    // A = [1, 1], b = [4], c = [-1, -1], x0 = [1, 1], alpha = 1/2:
    // cp = [-1/200000001, -1/200000001], below the 1e-8 threshold.
    let mut problem = sample_problem(-1, -1, 4);
    match perform_interior_point_iteration(&mut problem) {
        Err(InteriorPointError::NoImprovement) => {}
        _ => panic!("expected NoImprovement"),
    }
    assert!(problem.x_vector[0].equals(&Rat::one()));
    assert!(problem.x_vector[1].equals(&Rat::one()));
}

#[test]
fn nonnegative_projected_cost_converges() {
    // With positive costs every projected component is nonnegative.
    let mut problem = sample_problem(1, 1, 4);
    match perform_interior_point_iteration(&mut problem) {
        Err(InteriorPointError::NoImprovement) => {}
        _ => panic!("expected NoImprovement"),
    }
    assert!(problem.x_vector[0].equals(&Rat::one()));
    assert!(problem.x_vector[1].equals(&Rat::one()));
}

#[test]
fn repeating_on_an_unchanged_problem_repeats_the_outcome() {
    let mut problem = sample_problem(-1, -1, 4);
    for _ in 0..2 {
        match perform_interior_point_iteration(&mut problem) {
            Err(InteriorPointError::NoImprovement) => {}
            _ => panic!("expected NoImprovement"),
        }
        assert!(problem.x_vector[0].equals(&Rat::one()));
        assert!(problem.x_vector[1].equals(&Rat::one()));
    }
}

#[test]
fn improving_direction_moves_the_iterate() {
    // A = [1, 1], b = [2], c = [-2, -1], x0 = [1, 1], alpha = 1/2.
    let mut problem = sample_problem(-2, -1, 2);
    let it = perform_interior_point_iteration(&mut problem).unwrap();
    // cp = [-100000002/200000001, 99999999/200000001]
    assert!(it.cp_vector[0].equals(&rat(-100000002, 200000001)));
    assert!(it.cp_vector[1].equals(&rat(99999999, 200000001)));
    // factor clamps at 1/2; the new iterate moves off the symmetric point
    assert!(it.current_x[0].equals(&rat(150000000, 200000001)));
    assert!(it.current_x[1].equals(&rat(500000001, 400000002)));
    // the problem now carries the new iterate
    assert!(problem.x_vector[0].equals(&it.current_x[0]));
    assert!(problem.x_vector[1].equals(&it.current_x[1]));
    // the snapshot keeps the scaling that was current when the step began
    assert!(it.d_matrix[0][0].equals(&Rat::one()));
    assert!(it.d_matrix[1][1].equals(&Rat::one()));
    assert!(it.a_tilde_matrix[0][0].equals(&Rat::one()));
    assert!(it.a_tilde_matrix[0][1].equals(&Rat::one()));
    assert!(it.c_tilde_vector[0].equals(&rat(-2, 1)));
    assert!(it.c_tilde_vector[1].equals(&rat(-1, 1)));
}

#[test]
fn failed_iterations_leave_the_problem_unchanged() {
    let mut problem = sample_problem(3, 3, 4);
    let before0 = problem.x_vector[0];
    let before1 = problem.x_vector[1];
    assert!(perform_interior_point_iteration(&mut problem).is_err());
    assert!(problem.x_vector[0].equals(&before0));
    assert!(problem.x_vector[1].equals(&before1));
}

#[test]
fn improving_direction_test_matches_the_engine() {
    // the symmetric problem's projected cost sits below the noise floor
    let cp_small = row(&[(-1, 200000001), (-1, 200000001)]);
    assert!(!has_improving_direction(&cp_small));
    // a clearly negative component is an improving direction
    let cp_big = row(&[(-1, 2), (1, 2)]);
    assert!(has_improving_direction(&cp_big));
    // nonnegative projected costs never improve
    let cp_pos = row(&[(0, 1), (3, 4)]);
    assert!(!has_improving_direction(&cp_pos));
}

#[test]
fn scaled_system_reports_overflow_exactly() {
    // an entry at the representation limit overflows when doubled by the
    // scaling, and survives when halved
    let a = vec![row(&[(i64::MAX, 1)])];
    let d_double = vec![row(&[(2, 1)])];
    let d_half = vec![row(&[(1, 2)])];
    assert!(matches!(
        calculate_a_tilde(&a, &d_double),
        Err(InteriorPointError::ArithmeticOverflow)
    ));
    assert!(calculate_a_tilde(&a, &d_half).is_ok());
}
