use ark_std::rand::{rngs::StdRng, SeedableRng};
use my_zk_rs::curve::{random_scalar, Bls12381FrConfig, Fr as F};
use my_zk_rs::matrix::{ColumnMajorMatrix, DenseMatrix};
use my_zk_rs::mle::DenseMultilinearPoly;
use my_zk_rs::r1cs::{R1CSStructure, R1CS};
use my_zk_rs::spartan_nizk::{SpartanNizkInstance, SpartanNizkProof};
use my_zk_rs::spartan_r1cs::SpartanR1CS;
use my_zk_rs::transcript::Transcript;

type C = Bls12381FrConfig;
type Instance = SpartanNizkInstance<ColumnMajorMatrix<C, 4>>;

fn f(v: u64) -> F {
    F::from(v)
}

/// x * y = t, t * y = out, with io = [x, out], witness = [y, t] and the dense
/// layout z = [1, x, out, y, t]. Two constraint rows give the first
/// sum-check one round.
fn square_mul_instance() -> Instance {
    let r1cs = R1CS::new(
        DenseMatrix::<C, 4, 2, 5>::from_usize([[0, 1, 0, 0, 0], [0, 0, 0, 0, 1]]),
        DenseMatrix::from_usize([[0, 0, 0, 1, 0], [0, 0, 0, 1, 0]]),
        DenseMatrix::from_usize([[0, 0, 0, 0, 1], [0, 0, 1, 0, 0]]),
        R1CSStructure::new(2, 2, 2),
    );
    SpartanNizkInstance::encode(SpartanR1CS::from_r1cs(&r1cs)).unwrap()
}

fn example_io_witness() -> ([F; 2], [F; 2]) {
    // x = 3, y = 5, t = 15, out = 75
    ([f(3), f(75)], [f(5), f(15)])
}

fn prove_with_seed(instance: &Instance, io: &[F], witness: &[F], seed: u64) -> SpartanNizkProof {
    let mut transcript = Transcript::new(b"spartan-nizk-test");
    instance
        .prove(io, witness, &mut transcript, &mut StdRng::seed_from_u64(seed))
        .unwrap()
}

fn verifies(instance: &Instance, io: &[F], proof: &SpartanNizkProof) -> bool {
    let mut transcript = Transcript::new(b"spartan-nizk-test");
    instance.verify(io, proof, &mut transcript)
}

#[test]
fn spartan_nizk_prove_commits_to_the_witness_mle() {
    let instance = square_mul_instance();
    let (io, witness) = example_io_witness();
    let proof = prove_with_seed(&instance, &io, &witness, 42);

    let mut rng = StdRng::seed_from_u64(42);
    let blinds = (0..instance.pcs().num_rows())
        .map(|_| random_scalar(&mut rng))
        .collect::<Vec<_>>();
    let expected_mle = DenseMultilinearPoly::new(vec![f(5), f(15), F::zero(), F::zero()], 2);
    let expected = instance.pcs().commit(&expected_mle, &blinds);
    assert_eq!(proof.witness_com.rows, expected.rows);
}

#[test]
fn spartan_nizk_complete_proof_verifies_and_replays_the_transcript() {
    let instance = square_mul_instance();
    let (io, witness) = example_io_witness();

    let mut prover_transcript = Transcript::new(b"spartan-nizk-test");
    let proof = instance
        .prove(&io, &witness, &mut prover_transcript, &mut StdRng::seed_from_u64(42))
        .unwrap();
    assert_eq!(proof.sc1.poly_coms.len(), 1);
    assert_eq!(proof.sc2.poly_coms.len(), 3);

    let mut transcript = Transcript::new(b"spartan-nizk-test");
    assert!(instance.verify(&io, &proof, &mut transcript));
    assert_eq!(
        transcript.challenge_field::<C, 4>(b"probe"),
        prover_transcript.challenge_field::<C, 4>(b"probe")
    );
}

#[test]
fn proofs_are_randomized_but_all_verify() {
    let instance = square_mul_instance();
    let (io, witness) = example_io_witness();
    let lhs = prove_with_seed(&instance, &io, &witness, 1);
    let rhs = prove_with_seed(&instance, &io, &witness, 2);

    assert_ne!(lhs.witness_com.rows, rhs.witness_com.rows);
    assert_ne!(lhs.va_com, rhs.va_com);
    assert_ne!(lhs.sc1.poly_coms, rhs.sc1.poly_coms);
    assert_ne!(lhs.sc2.eval_coms, rhs.sc2.eval_coms);
    assert_ne!(lhs.witness_opening.result_com, rhs.witness_opening.result_com);

    for proof in [lhs, rhs] {
        assert!(verifies(&instance, &io, &proof));
    }
}

#[test]
fn spartan_nizk_verifier_rejects_changed_statement_and_proof_values() {
    let instance = square_mul_instance();
    let (io, witness) = example_io_witness();
    let prove = || prove_with_seed(&instance, &io, &witness, 42);
    let g = instance.pcs().scalar.generator;

    assert!(!verifies(&instance, &[f(4), f(75)], &prove()));

    let mut proof = prove();
    proof.va_com = proof.va_com + g;
    assert!(!verifies(&instance, &io, &proof));

    let mut proof = prove();
    proof.prod_com = proof.prod_com + g;
    assert!(!verifies(&instance, &io, &proof));

    let mut proof = prove();
    proof.sc1.eval_coms[0] = proof.sc1.eval_coms[0] + g;
    assert!(!verifies(&instance, &io, &proof));

    let mut proof = prove();
    proof.sc2.poly_coms[1] = proof.sc2.poly_coms[1] + g;
    assert!(!verifies(&instance, &io, &proof));

    let mut proof = prove();
    proof.witness_opening.result_com = proof.witness_opening.result_com + g;
    assert!(!verifies(&instance, &io, &proof));

    let mut proof = prove();
    proof.sc2_equality.z += f(1);
    assert!(!verifies(&instance, &io, &proof));

    let mut proof = prove();
    proof.sc2.proofs.pop();
    assert!(!verifies(&instance, &io, &proof));
}

#[test]
fn single_constraint_instance_has_a_zero_round_first_sumcheck() {
    // witness * 1 = out: one constraint row, so the first sum-check has no
    // round and its final claim commitment stays the identity.
    let r1cs = R1CS::new(
        DenseMatrix::<C, 4, 1, 3>::from_usize([[0, 0, 1]]),
        DenseMatrix::from_usize([[1, 0, 0]]),
        DenseMatrix::from_usize([[0, 1, 0]]),
        R1CSStructure::new(1, 1, 1),
    );
    let instance: Instance = SpartanNizkInstance::encode(SpartanR1CS::from_r1cs(&r1cs)).unwrap();
    assert_eq!(instance.r1cs().constraint_vars(), 0);
    assert_eq!(instance.pcs().num_rows(), 1);
    assert_eq!(instance.pcs().rows.len(), 2);

    let io = [f(9)];
    let witness = [f(9)];
    let mut prover_transcript = Transcript::new(b"spartan-nizk-odd-test");
    let proof = instance
        .prove(&io, &witness, &mut prover_transcript, &mut StdRng::seed_from_u64(7))
        .unwrap();
    assert!(proof.sc1.poly_coms.is_empty());

    let mut verifier_transcript = Transcript::new(b"spartan-nizk-odd-test");
    assert!(instance.verify(&io, &proof, &mut verifier_transcript));
}
