use ark_std::rand::{rngs::StdRng, SeedableRng};
use my_zk_rs::curve::{random_scalar, Bls12381FrConfig, Fr as F};
use my_zk_rs::matrix::{ColumnMajorMatrix, DenseMatrix};
use my_zk_rs::mle::DenseMultilinearPoly;
use my_zk_rs::r1cs::{R1CSStructure, R1CS};
use my_zk_rs::spartan_nark::SpartanNarkInstance;
use my_zk_rs::spartan_r1cs::SpartanR1CS;
use my_zk_rs::transcript::Transcript;

type C = Bls12381FrConfig;
type Instance = SpartanNarkInstance<ColumnMajorMatrix<C, 4>>;

fn f(v: u64) -> F {
    F::from(v)
}

/// x * y = t, t * y = out, with io = [x, out], witness = [y, t] and the dense
/// layout z = [1, x, out, y, t].
fn square_mul_instance() -> Instance {
    let r1cs = R1CS::new(
        DenseMatrix::<C, 4, 2, 5>::from_usize([[0, 1, 0, 0, 0], [0, 0, 0, 0, 1]]),
        DenseMatrix::from_usize([[0, 0, 0, 1, 0], [0, 0, 0, 1, 0]]),
        DenseMatrix::from_usize([[0, 0, 0, 0, 1], [0, 0, 1, 0, 0]]),
        R1CSStructure::new(2, 2, 2),
    );
    SpartanNarkInstance::encode(SpartanR1CS::from_r1cs(&r1cs)).unwrap()
}

fn example_io_witness() -> ([F; 2], [F; 2]) {
    // x = 3, y = 5, t = 15, out = 75
    ([f(3), f(75)], [f(5), f(15)])
}

#[test]
fn spartan_nark_prove_commits_to_the_witness_mle() {
    let instance = square_mul_instance();
    let (io, witness) = example_io_witness();

    let mut transcript = Transcript::new(b"spartan-nark-test");
    let proof = instance
        .prove(&io, &witness, &mut transcript, &mut StdRng::seed_from_u64(42))
        .unwrap();

    let mut rng = StdRng::seed_from_u64(42);
    let blinds = (0..instance.pcs().num_rows())
        .map(|_| random_scalar(&mut rng))
        .collect::<Vec<_>>();
    let expected_mle = DenseMultilinearPoly::new(vec![f(5), f(15), F::zero(), F::zero()], 2);
    let expected = instance.pcs().commit(&expected_mle, &blinds);
    assert_eq!(proof.witness_com.rows, expected.rows);
}

#[test]
fn spartan_nark_complete_proof_verifies_and_replays_the_transcript() {
    let instance = square_mul_instance();
    let (io, witness) = example_io_witness();

    let mut prover_transcript = Transcript::new(b"spartan-nark-test");
    let proof = instance
        .prove(&io, &witness, &mut prover_transcript, &mut StdRng::seed_from_u64(42))
        .unwrap();

    let mut transcript = Transcript::new(b"spartan-nark-test");
    assert!(instance.verify(&io, &proof, &mut transcript));
    assert_eq!(
        transcript.challenge_field::<C, 4>(b"probe"),
        prover_transcript.challenge_field::<C, 4>(b"probe")
    );
}

#[test]
fn spartan_nark_verifier_rejects_changed_statement_and_proof_values() {
    let instance = square_mul_instance();
    let (io, witness) = example_io_witness();

    let prove = || {
        let mut transcript = Transcript::new(b"spartan-nark-test");
        instance
            .prove(&io, &witness, &mut transcript, &mut StdRng::seed_from_u64(42))
            .unwrap()
    };

    let proof = prove();
    let mut transcript = Transcript::new(b"spartan-nark-test");
    assert!(!instance.verify(&[f(4), f(75)], &proof, &mut transcript));

    let mut proof = prove();
    proof.va += f(1);
    let mut transcript = Transcript::new(b"spartan-nark-test");
    assert!(!instance.verify(&io, &proof, &mut transcript));

    let mut proof = prove();
    proof.witness_eval += f(1);
    let mut transcript = Transcript::new(b"spartan-nark-test");
    assert!(!instance.verify(&io, &proof, &mut transcript));
}

#[test]
fn odd_witness_dimension_uses_a_rectangular_hyrax_matrix() {
    let r1cs = R1CS::new(
        DenseMatrix::<C, 4, 1, 3>::from_usize([[0, 0, 1]]),
        DenseMatrix::from_usize([[1, 0, 0]]),
        DenseMatrix::from_usize([[0, 1, 0]]),
        R1CSStructure::new(1, 1, 1),
    );
    let instance: Instance = SpartanNarkInstance::encode(SpartanR1CS::from_r1cs(&r1cs)).unwrap();
    assert_eq!(instance.r1cs().half_vars(), 1);
    assert_eq!(instance.pcs().num_vars, 1);
    assert_eq!(instance.pcs().num_rows(), 1);
    assert_eq!(instance.pcs().rows.len(), 2);

    let io = [f(9)];
    let witness = [f(9)];
    let mut prover_transcript = Transcript::new(b"spartan-nark-odd-test");
    let proof = instance
        .prove(&io, &witness, &mut prover_transcript, &mut StdRng::seed_from_u64(7))
        .unwrap();
    let mut verifier_transcript = Transcript::new(b"spartan-nark-odd-test");
    assert!(instance.verify(&io, &proof, &mut verifier_transcript));
}

#[test]
fn verifier_rejects_io_of_the_wrong_length() {
    let instance = square_mul_instance();
    let (io, witness) = example_io_witness();
    let mut transcript = Transcript::new(b"spartan-nark-test");
    let proof = instance
        .prove(&io, &witness, &mut transcript, &mut StdRng::seed_from_u64(42))
        .unwrap();
    let mut transcript = Transcript::new(b"spartan-nark-test");
    assert!(!instance.verify(&[f(3)], &proof, &mut transcript));
}

#[test]
fn spartan_nark_opening_commits_to_the_witness_evaluation() {
    let instance = square_mul_instance();
    let (io, witness) = example_io_witness();

    let mut transcript = Transcript::new(b"spartan-nark-test");
    let proof = instance
        .prove(&io, &witness, &mut transcript, &mut StdRng::seed_from_u64(7))
        .unwrap();

    let expected = instance.pcs().scalar.commit(&proof.witness_eval, &F::zero());
    assert_eq!(proof.witness_opening.result_com, expected);
    assert_ne!(proof.va, proof.vb);
}
