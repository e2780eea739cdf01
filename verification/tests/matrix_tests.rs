use interior_point::matrix::{
    mat_add, mat_identity, mat_mul, mat_scale, mat_sub, mat_transpose, mat_vec_mul,
};
use interior_point::rational::Rat;

fn rat(n: i64, d: i64) -> Rat {
    Rat::new(n, d).unwrap()
}

fn row(vals: &[(i64, i64)]) -> Vec<Rat> {
    vals.iter().map(|&(n, d)| rat(n, d)).collect()
}

fn mat(rows: &[&[(i64, i64)]]) -> Vec<Vec<Rat>> {
    rows.iter().map(|r| row(r)).collect()
}

fn assert_mat_eq(a: &Vec<Vec<Rat>>, b: &Vec<Vec<Rat>>) {
    assert_eq!(a.len(), b.len());
    for i in 0..a.len() {
        assert_eq!(a[i].len(), b[i].len());
        for j in 0..a[i].len() {
            assert!(a[i][j].equals(&b[i][j]), "entry ({}, {}) differs", i, j);
        }
    }
}

#[test]
fn identity_has_unit_diagonal() {
    let id = mat_identity(3);
    for i in 0..3 {
        for j in 0..3 {
            if i == j {
                assert!(id[i][j].equals(&Rat::one()));
            } else {
                assert!(id[i][j].equals(&Rat::zero()));
            }
        }
    }
}

#[test]
fn product_of_small_matrices() {
    let a = mat(&[&[(1, 1), (2, 1)], &[(3, 1), (4, 1)]]);
    let b = mat(&[&[(0, 1), (1, 1)], &[(1, 2), (-1, 1)]]);
    let p = mat_mul(&a, &b).unwrap();
    let expected = mat(&[&[(1, 1), (-1, 1)], &[(2, 1), (-1, 1)]]);
    assert_mat_eq(&p, &expected);
}

#[test]
fn identity_is_a_unit_for_the_product() {
    let a = mat(&[&[(1, 2), (2, 3)], &[(-1, 5), (7, 4)]]);
    let id = mat_identity(2);
    let left = mat_mul(&id, &a).unwrap();
    let right = mat_mul(&a, &id).unwrap();
    assert_mat_eq(&left, &a);
    assert_mat_eq(&right, &a);
}

#[test]
fn transpose_swaps_indices() {
    let a = mat(&[&[(1, 1), (2, 1), (3, 1)]]);
    let t = mat_transpose(&a);
    assert_eq!(t.len(), 3);
    for i in 0..3 {
        assert_eq!(t[i].len(), 1);
        assert!(t[i][0].equals(&a[0][i]));
    }
}

#[test]
fn entrywise_sum_difference_and_scaling() {
    let a = mat(&[&[(1, 2), (1, 3)]]);
    let b = mat(&[&[(1, 2), (2, 3)]]);
    let s = mat_add(&a, &b).unwrap();
    assert_mat_eq(&s, &mat(&[&[(1, 1), (1, 1)]]));
    let d = mat_sub(&a, &b).unwrap();
    assert_mat_eq(&d, &mat(&[&[(0, 1), (-1, 3)]]));
    let c = mat_scale(&rat(3, 1), &a).unwrap();
    assert_mat_eq(&c, &mat(&[&[(3, 2), (1, 1)]]));
}

#[test]
fn matrix_vector_product() {
    let a = mat(&[&[(1, 1), (2, 1)], &[(0, 1), (1, 2)]]);
    let x = row(&[(1, 1), (4, 1)]);
    let y = mat_vec_mul(&a, &x).unwrap();
    assert_eq!(y.len(), 2);
    assert!(y[0].equals(&rat(9, 1)));
    assert!(y[1].equals(&rat(2, 1)));
}

#[test]
fn overflowing_entries_are_reported_not_wrapped() {
    let big = rat(i64::MAX, 1);
    let a = vec![vec![big, big]];
    let id2 = mat_identity(2);
    // the sum MAX + MAX leaves the representation: the product of the row
    // with itself cannot be formed
    let t = mat_transpose(&a);
    assert!(mat_mul(&a, &t).is_none());
    // multiplying by the identity stays in range
    assert!(mat_mul(&a, &id2).is_some());
    assert!(mat_add(&a, &a).is_none());
    assert!(mat_scale(&rat(2, 1), &a).is_none());
    assert!(mat_scale(&rat(1, 2), &a).is_some());
}
