use my_zk_rs::curve::{Bls12381FrConfig, Fr as F};
use my_zk_rs::matrix::{ColumnMajorMatrix, DenseMatrix, Matrix};
use my_zk_rs::mle::{DenseMultilinearPoly, MultilinearPoly};
use my_zk_rs::r1cs::{R1CSStructure, R1CS};
use my_zk_rs::spartan_r1cs::{ceil_log2, SpartanR1CS};

type C = Bls12381FrConfig;

fn f(v: u64) -> F {
    F::from(v)
}

/// x * y = out, with io = [x, out], witness = [y] and z = [1, x, out, y].
fn mul_r1cs() -> R1CS<C, 4, DenseMatrix<C, 4, 1, 4>> {
    R1CS::new(
        DenseMatrix::from_usize([[0, 1, 0, 0]]),
        DenseMatrix::from_usize([[0, 0, 0, 1]]),
        DenseMatrix::from_usize([[0, 0, 1, 0]]),
        R1CSStructure::new(1, 2, 1),
    )
}

fn spartan() -> SpartanR1CS<C, 4, ColumnMajorMatrix<C, 4>> {
    SpartanR1CS::from_r1cs(&mul_r1cs())
}

#[test]
fn spartan_assignment_places_witness_and_public_halves() {
    let spartan = spartan();

    assert_eq!(spartan.half_len(), 4);
    assert_eq!(spartan.a.shape(), (1, 8));
    assert_eq!(spartan.half_vars(), 2);
    assert_eq!(spartan.vars(), 3);
    assert_eq!(spartan.constraint_vars(), 0);

    let z = spartan.assignment(&[f(3), f(15)], &[f(5)]);
    assert_eq!(
        z,
        [
            f(5),
            F::zero(),
            F::zero(),
            F::zero(),
            F::one(),
            f(3),
            f(15),
            F::zero(),
        ]
    );
}

#[test]
fn spartan_satisfaction_agrees_with_dense() {
    let r1cs = mul_r1cs();
    let spartan = spartan();

    let io = [f(3), f(15)];
    let witness = [f(5)];
    assert!(r1cs.is_sat(&r1cs.assignment(&io, &witness)));
    assert!(spartan.is_sat(&spartan.assignment(&io, &witness)));

    let bad_io = [f(3), f(14)];
    assert!(!r1cs.is_sat(&r1cs.assignment(&bad_io, &witness)));
    assert!(!spartan.is_sat(&spartan.assignment(&bad_io, &witness)));
}

#[test]
fn assignment_eval_splits_into_witness_and_public_halves() {
    let spartan = spartan();
    let io = [f(3), f(15)];
    let witness = [f(5)];

    let point = [f(7), f(11), f(13)];
    let expected = DenseMultilinearPoly::from_evals(spartan.assignment(&io, &witness)).eval(&point);
    let witness_eval = spartan.witness_mle(&witness).eval(&point[..2]);

    assert_eq!(spartan.assignment_eval(&io, &point, witness_eval), expected);
}

#[test]
fn relaid_matrices_move_the_constant_column_to_the_public_half() {
    let spartan = spartan();
    // A selects x: dense column 1, which moves to half_len + 1 = 5.
    assert_eq!(spartan.a.get(0, 5), F::one());
    // B selects y: dense column 3, the first witness, which moves to column 0.
    assert_eq!(spartan.b.get(0, 0), F::one());
    // C selects out: dense column 2, which moves to column 6.
    assert_eq!(spartan.c.get(0, 6), F::one());
    for col in [1, 2, 3, 4, 7] {
        assert_eq!(spartan.a.get(0, col), F::zero());
    }
}

#[test]
fn ceil_log2_rounds_up() {
    assert_eq!(ceil_log2(0), 0);
    assert_eq!(ceil_log2(1), 0);
    assert_eq!(ceil_log2(3), 2);
    assert_eq!(ceil_log2(4), 2);
    assert_eq!(ceil_log2(5), 3);
}
