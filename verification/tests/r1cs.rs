use my_zk_rs::ff::Fp25519;
use my_zk_rs::matrix::DenseMatrix;
use my_zk_rs::r1cs::{R1CSStructure, R1CS};

fn f(value: u64) -> Fp25519 {
    Fp25519::from_u64(value)
}

/// x * y = out, with io = [x, out], witness = [y] and z = [1, x, out, y].
fn mul_r1cs() -> R1CS<my_zk_rs::ff::F25519Config, 4, DenseMatrix<my_zk_rs::ff::F25519Config, 4, 1, 4>> {
    R1CS::new(
        DenseMatrix::from_usize([[0, 1, 0, 0]]),
        DenseMatrix::from_usize([[0, 0, 0, 1]]),
        DenseMatrix::from_usize([[0, 0, 1, 0]]),
        R1CSStructure::new(1, 2, 1),
    )
}

#[test]
fn dense_assignment_and_satisfaction() {
    let r1cs = mul_r1cs();

    let z = r1cs.assignment(&[f(3), f(15)], &[f(5)]);
    assert_eq!(z, [Fp25519::one(), f(3), f(15), f(5)]);
    assert!(r1cs.is_sat(&z));

    let bad = r1cs.assignment(&[f(3), f(14)], &[f(5)]);
    assert!(!r1cs.is_sat(&bad));
}

#[test]
fn structure_counts_the_dense_assignment() {
    let structure = R1CSStructure::new(3, 2, 4);
    assert_eq!(structure.dense_len(), 7);
    assert_eq!(structure.num_constraints, 3);
}

#[test]
fn every_constraint_must_hold() {
    // Row 0: x * y = out; row 1: x * x = y.
    let r1cs = R1CS::new(
        DenseMatrix::<my_zk_rs::ff::F25519Config, 4, 2, 4>::from_usize([[0, 1, 0, 0], [0, 1, 0, 0]]),
        DenseMatrix::from_usize([[0, 0, 0, 1], [0, 1, 0, 0]]),
        DenseMatrix::from_usize([[0, 0, 1, 0], [0, 0, 0, 1]]),
        R1CSStructure::new(2, 2, 1),
    );
    assert!(r1cs.is_sat(&r1cs.assignment(&[f(3), f(27)], &[f(9)])));
    assert!(!r1cs.is_sat(&r1cs.assignment(&[f(3), f(15)], &[f(5)])));
}
