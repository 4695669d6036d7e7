//! The dense solver, vectors, and the generic matrix.

use pixie::linalg::{solve, DenseMatrix, LinAlgError, Vector};
use pixie::matrix::{solve as matrix_solve, LinAlgError as MatrixError, Matrix};

fn bits(x: f64) -> u64 {
    x.to_bits()
}

fn val(x: u64) -> f64 {
    f64::from_bits(x)
}

fn dense_from(rows: &[&[f64]]) -> DenseMatrix {
    let r = rows.len();
    let c = if r == 0 { 0 } else { rows[0].len() };
    let mut m = DenseMatrix::zeros(r, c);
    for (i, row) in rows.iter().enumerate() {
        for (j, x) in row.iter().enumerate() {
            m.put(i, j, bits(*x));
        }
    }
    m
}

fn vector_from(xs: &[f64]) -> Vector {
    let mut v = Vector::zeros(xs.len());
    for (i, x) in xs.iter().enumerate() {
        v.put(i, bits(*x));
    }
    v
}

#[test]
fn solve_identity() {
    let a = dense_from(&[&[1.0, 0.0], &[0.0, 1.0]]);
    let b = vector_from(&[3.0, 4.0]);
    let x = solve(a, b).expect("identity system");
    assert_eq!(x.get(0), bits(3.0));
    assert_eq!(x.get(1), bits(4.0));
}

#[test]
fn solve_diagonal_exact() {
    let a = dense_from(&[&[2.0, 0.0], &[0.0, 4.0]]);
    let b = vector_from(&[6.0, 8.0]);
    let x = solve(a, b).expect("diagonal system");
    assert_eq!(x.get(0), bits(3.0));
    assert_eq!(x.get(1), bits(2.0));
}

#[test]
fn solve_needs_pivoting() {
    // A zero in the leading position forces a row swap.
    let a = dense_from(&[&[0.0, 1.0], &[1.0, 0.0]]);
    let b = vector_from(&[5.0, 7.0]);
    let x = solve(a, b).expect("permuted system");
    assert_eq!(x.get(0), bits(7.0));
    assert_eq!(x.get(1), bits(5.0));
}

#[test]
fn solve_singular_matrix() {
    let a = dense_from(&[&[1.0, 1.0], &[1.0, 1.0]]);
    let b = vector_from(&[1.0, 2.0]);
    let e = solve(a, b).expect_err("rank-deficient matrix");
    assert_eq!(e, LinAlgError::SingularMatrix);
}

#[test]
fn solve_incompatible_dimensions() {
    let a = dense_from(&[&[1.0, 0.0], &[0.0, 1.0]]);
    let b = vector_from(&[1.0, 2.0, 3.0]);
    let e = solve(a, b).expect_err("shape mismatch");
    assert_eq!(e, LinAlgError::IncompatibleDimensions);
}

#[test]
fn solve_residual_is_small() {
    // The divider system: residual within 1e-9 (1 + |A| |x|) in the max norm.
    let rows: &[&[f64]] = &[
        &[0.001, -0.001, 1.0],
        &[-0.001, 0.002, 0.0],
        &[1.0, 0.0, 0.0],
    ];
    let a = dense_from(rows);
    let bvals = [0.0, 0.0, 10.0];
    let b = vector_from(&bvals);
    let x = solve(a, b).expect("well-conditioned system");
    let xs: Vec<f64> = (0..3).map(|i| val(x.get(i))).collect();
    let mut res_inf: f64 = 0.0;
    let mut a_inf: f64 = 0.0;
    let mut x_inf: f64 = 0.0;
    for i in 0..3 {
        let mut row_sum = 0.0;
        let mut ax = 0.0;
        for j in 0..3 {
            row_sum += rows[i][j].abs();
            ax += rows[i][j] * xs[j];
        }
        a_inf = a_inf.max(row_sum);
        x_inf = x_inf.max(xs[i].abs());
        res_inf = res_inf.max((ax - bvals[i]).abs());
    }
    assert!(res_inf <= 1e-9 * (1.0 + a_inf * x_inf));
}

#[test]
fn squared_norm_exact() {
    let v = vector_from(&[3.0, 4.0]);
    assert_eq!(v.squared_norm(), bits(25.0));
}

#[test]
fn squared_diff_is_euclidean() {
    let v = vector_from(&[3.0, 2.0]);
    let w = vector_from(&[1.0, 2.0]);
    assert_eq!(v.squared_diff(&w), bits(4.0));
    assert_eq!(v.squared_diff(&v), bits(0.0));
}

#[test]
fn vector_zeros_and_put() {
    let mut v = Vector::zeros(3);
    assert_eq!(v.len(), 3);
    assert_eq!(v.get(1), bits(0.0));
    v.put(1, bits(2.5));
    assert_eq!(v.get(1), bits(2.5));
    assert_eq!(v.get(0), bits(0.0));
}

#[test]
fn matrix_repeat_fills() {
    let m: Matrix<u64> = Matrix::repeat(2, 3, 7);
    assert_eq!(m.num_rows, 2);
    assert_eq!(m.num_col, 3);
    for i in 0..2 {
        for j in 0..3 {
            assert_eq!(m.get(i, j), 7);
        }
    }
}

#[test]
fn matrix_swap_row_swaps() {
    let mut m: Matrix<u64> = Matrix::repeat(2, 2, 0);
    m.put(0, 0, 1);
    m.put(0, 1, 2);
    m.put(1, 0, 3);
    m.put(1, 1, 4);
    m.swap_row(0, 1);
    assert_eq!(m.get(0, 0), 3);
    assert_eq!(m.get(0, 1), 4);
    assert_eq!(m.get(1, 0), 1);
    assert_eq!(m.get(1, 1), 2);
}

#[test]
fn matrix_augment_appends_column() {
    let mut m: Matrix<u64> = Matrix::repeat(2, 2, 5);
    let mut col: Matrix<u64> = Matrix::repeat(2, 1, 0);
    col.put(0, 0, 8);
    col.put(1, 0, 9);
    m.augment(&col);
    assert_eq!(m.num_col, 3);
    assert_eq!(m.get(0, 2), 8);
    assert_eq!(m.get(1, 2), 9);
    assert_eq!(m.get(0, 0), 5);
}

#[test]
fn dense_augment_appends_vector() {
    let mut m = DenseMatrix::zeros(2, 2);
    m.put(0, 0, bits(1.0));
    let v = vector_from(&[2.0, 3.0]);
    m.augment(&v);
    assert_eq!(m.m.num_col, 3);
    assert_eq!(m.get(0, 2), bits(2.0));
    assert_eq!(m.get(1, 2), bits(3.0));
}

#[test]
fn matrix_solve_single_column() {
    let mut a: Matrix<u64> = Matrix::repeat(2, 2, bits(0.0));
    a.put(0, 0, bits(2.0));
    a.put(1, 1, bits(4.0));
    let mut r: Matrix<u64> = Matrix::repeat(2, 1, bits(0.0));
    r.put(0, 0, bits(6.0));
    r.put(1, 0, bits(8.0));
    let x = matrix_solve(a, r).expect("diagonal system as matrices");
    assert_eq!(x.num_rows, 2);
    assert_eq!(x.num_col, 1);
    assert_eq!(x.get(0, 0), bits(3.0));
    assert_eq!(x.get(1, 0), bits(2.0));
}

#[test]
fn matrix_solve_rejects_wide_rhs() {
    let a: Matrix<u64> = Matrix::repeat(2, 2, bits(1.0));
    let r: Matrix<u64> = Matrix::repeat(2, 2, bits(1.0));
    let e = matrix_solve(a, r).expect_err("two-column right-hand side");
    assert_eq!(e, MatrixError::IncompatibleDimensions);
}
