use my_zk_rs::ff::Fp25519;
use my_zk_rs::matrix::{
    eval_mle, mul_vec, vec_mul, ColumnMajorMatrix, DenseMatrix, Matrix, SparseMatrix,
};
use std::collections::BTreeMap;
use my_zk_rs::mle::{DenseMultilinearPoly, MultilinearPoly};

fn f(value: u64) -> Fp25519 {
    Fp25519::from_u64(value)
}

#[test]
fn vec_mul_is_the_transpose_of_mul_vec() {
    let dense = DenseMatrix::<_, 4, 2, 3>::from_usize([[1, 2, 3], [4, 5, 6]]);
    let row_vec = [7, 11].map(f);

    // v^T M = (7*1 + 11*4, 7*2 + 11*5, 7*3 + 11*6)
    assert_eq!(dense.vec_mul(&row_vec), [51, 69, 87].map(f).to_vec());
    assert_eq!(vec_mul(&dense, &row_vec), [51, 69, 87].map(f).to_vec());
}

#[test]
fn mle_extends_the_matrix_entries() {
    let dense = DenseMatrix::<_, 4, 2, 2>::from_usize([[1, 2], [3, 4]]);

    for row in 0..2usize {
        for col in 0..2usize {
            assert_eq!(
                eval_mle(&dense, &[f(row as u64)], &[f(col as u64)]),
                dense.get(row, col)
            );
        }
    }
}

#[test]
fn column_major_matrix_reads_rows_with_a_stride() {
    let m = ColumnMajorMatrix::new([0u64, 1, 2, 3, 4, 5].map(f).to_vec(), 2);

    assert_eq!(m.shape(), (2, 3));
    assert_eq!(m.row(0), [0u64, 2, 4].map(f));
    assert_eq!(m.row(1), [1u64, 3, 5].map(f));
    assert_eq!(m.get(1, 2), f(5));
}

#[test]
fn column_major_mle_evaluation_splits_into_row_and_column_points() {
    let poly = DenseMultilinearPoly::new((1..=8).map(f).collect(), 3);
    let t = ColumnMajorMatrix::new(poly.evals().to_vec(), 2);
    let point = [f(2), f(3), f(5)];

    assert_eq!(eval_mle(&t, &point[..1], &point[1..]), poly.eval(&point));
}

#[test]
fn dense_mul_vec_computes_each_row() {
    let dense = DenseMatrix::<_, 4, 2, 4>::from_usize([[1, 2, 0, 4], [0, 6, 7, 0]]);
    let vec = [3, 5, 7, 11].map(f);
    // (3 + 10 + 44, 30 + 49)
    assert_eq!(dense.mul_vec(&vec), vec![f(57), f(79)]);
    assert_eq!(mul_vec(&dense, &vec), vec![f(57), f(79)]);
}

#[test]
fn column_major_products_agree_with_dense() {
    // entries[row + rows * col]: the dense matrix [[1, 3, 5], [2, 4, 6]].
    let cm = ColumnMajorMatrix::new((1..=6).map(f).collect(), 2);
    let dense = DenseMatrix::<_, 4, 2, 3>::from_usize([[1, 3, 5], [2, 4, 6]]);
    let vec = [7, 8, 9].map(f);
    let row_vec = [10, 20].map(f);
    assert_eq!(cm.mul_vec(&vec), dense.mul_vec(&vec));
    assert_eq!(cm.vec_mul(&row_vec), dense.vec_mul(&row_vec));
    assert_eq!(cm.vec_mul(&row_vec), vec![f(50), f(110), f(170)]);
}

#[test]
fn mle_of_a_matrix_interpolates_between_rows() {
    // eq((2), i) weights: 1 - 2 = -1 for row 0 and 2 for row 1.
    let dense = DenseMatrix::<_, 4, 2, 1>::from_usize([[10], [30]]);
    assert_eq!(eval_mle(&dense, &[f(2)], &[]), f(50));
}

fn sparse_from_dense<const R: usize, const C: usize>(
    dense: &DenseMatrix<my_zk_rs::ff::F25519Config, 4, R, C>,
) -> SparseMatrix<my_zk_rs::ff::F25519Config, 4> {
    let mut entries = BTreeMap::new();
    for row in 0..R {
        for col in 0..C {
            entries.insert((row, col), dense.get(row, col));
        }
    }
    SparseMatrix::new(entries, R, C)
}

#[test]
fn dense_and_sparse_matrices_agree_on_mul_vec_and_mle() {
    let dense = DenseMatrix::<_, 4, 2, 4>::from_usize([[1, 2, 0, 4], [0, 6, 7, 0]]);
    let sparse = sparse_from_dense(&dense);
    let vec = [3, 5, 7, 11].map(f);
    let row_vec = [23, 29].map(f);
    let rx = [f(13)];
    let ry = [f(17), f(19)];

    assert_eq!(dense.mul_vec(&vec), sparse.mul_vec(&vec));
    assert_eq!(dense.vec_mul(&row_vec), sparse.vec_mul(&row_vec));
    assert_eq!(eval_mle(&dense, &rx, &ry), eval_mle(&sparse, &rx, &ry));
}

#[test]
fn sparse_matrix_drops_zero_entries_and_reads_them_as_zero() {
    let mut entries = BTreeMap::new();
    entries.insert((0, 1), f(5));
    entries.insert((1, 0), f(0));
    let sparse = SparseMatrix::new(entries, 2, 3);
    assert_eq!(sparse.shape(), (2, 3));
    assert_eq!(sparse.get(0, 1), f(5));
    assert_eq!(sparse.get(1, 0), f(0));
    assert_eq!(sparse.get(1, 2), f(0));
    assert_eq!(sparse.mul_vec(&[f(1), f(2), f(3)]), vec![f(10), f(0)]);
}
