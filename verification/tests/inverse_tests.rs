use interior_point::inverse::{left_inverse, InverseOutcome};
use interior_point::matrix::{mat_identity, mat_mul, mat_vec_mul};
use interior_point::rational::Rat;

fn rat(n: i64, d: i64) -> Rat {
    Rat::new(n, d).unwrap()
}

fn mat(rows: &[&[(i64, i64)]]) -> Vec<Vec<Rat>> {
    rows.iter()
        .map(|r| r.iter().map(|&(n, d)| rat(n, d)).collect())
        .collect()
}

fn assert_is_identity(p: &Vec<Vec<Rat>>) {
    let id = mat_identity(p.len());
    for i in 0..p.len() {
        for j in 0..p.len() {
            assert!(p[i][j].equals(&id[i][j]), "entry ({}, {}) differs", i, j);
        }
    }
}

#[test]
fn diagonal_matrix_is_inverted() {
    let m = mat(&[&[(2, 1), (0, 1)], &[(0, 1), (4, 1)]]);
    match left_inverse(&m) {
        InverseOutcome::Inverse(s) => {
            assert!(s[0][0].equals(&rat(1, 2)));
            assert!(s[1][1].equals(&rat(1, 4)));
            assert!(s[0][1].equals(&Rat::zero()));
            assert!(s[1][0].equals(&Rat::zero()));
            assert_is_identity(&mat_mul(&s, &m).unwrap());
        }
        _ => panic!("expected an inverse"),
    }
}

#[test]
fn dense_matrix_is_inverted() {
    let m = mat(&[&[(1, 1), (2, 1)], &[(3, 1), (5, 1)]]);
    match left_inverse(&m) {
        InverseOutcome::Inverse(s) => {
            // determinant is -1, so the inverse is [[-5, 2], [3, -1]]
            assert!(s[0][0].equals(&rat(-5, 1)));
            assert!(s[0][1].equals(&rat(2, 1)));
            assert!(s[1][0].equals(&rat(3, 1)));
            assert!(s[1][1].equals(&rat(-1, 1)));
            assert_is_identity(&mat_mul(&s, &m).unwrap());
        }
        _ => panic!("expected an inverse"),
    }
}

#[test]
fn one_by_one_matrix_is_inverted() {
    let m = mat(&[&[(5, 1)]]);
    match left_inverse(&m) {
        InverseOutcome::Inverse(s) => {
            assert!(s[0][0].equals(&rat(1, 5)));
        }
        _ => panic!("expected an inverse"),
    }
}

#[test]
fn duplicated_rows_yield_a_null_space_certificate() {
    let m = mat(&[&[(1, 1), (1, 1)], &[(1, 1), (1, 1)]]);
    match left_inverse(&m) {
        InverseOutcome::Singular(v) => {
            assert_eq!(v.len(), 2);
            assert!(v.iter().any(|e| !e.is_zero()));
            let image = mat_vec_mul(&m, &v).unwrap();
            for e in image.iter() {
                assert!(e.is_zero());
            }
        }
        _ => panic!("expected a singularity certificate"),
    }
}

#[test]
fn zero_matrix_yields_a_null_space_certificate() {
    let m = mat(&[&[(0, 1)]]);
    match left_inverse(&m) {
        InverseOutcome::Singular(v) => {
            assert_eq!(v.len(), 1);
            assert!(!v[0].is_zero());
        }
        _ => panic!("expected a singularity certificate"),
    }
}
