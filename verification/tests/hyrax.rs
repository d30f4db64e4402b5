use ark_std::rand::{rngs::StdRng, SeedableRng};
use my_zk_rs::curve::{Bls12381FrConfig, Fr as F};
use my_zk_rs::hyrax::{HyraxPCS, HyraxPCSCommitment, HyraxPCSProof};
use my_zk_rs::mle::{DenseMultilinearPoly, MultilinearPoly};
use my_zk_rs::transcript::Transcript;

type Poly = DenseMultilinearPoly<Bls12381FrConfig, 4>;

fn test_rng() -> StdRng {
    StdRng::seed_from_u64(42)
}

fn f(v: u64) -> F {
    F::from(v)
}

fn example() -> (HyraxPCS, Poly, Vec<F>, HyraxPCSCommitment, Vec<F>, F) {
    let pcs = HyraxPCS::setup(b"hyrax-test", 4).unwrap();
    let poly = DenseMultilinearPoly::new((1..=16u64).map(|i| f(i * i)).collect(), 4);
    let blinds = [3, 5, 7, 11].map(f).to_vec();
    let commitment = pcs.commit(&poly, &blinds);
    let point = [2, 3, 5, 7].map(f).to_vec();
    let result_blind = f(13);
    (pcs, poly, blinds, commitment, point, result_blind)
}

fn prove_example() -> (HyraxPCS, Poly, HyraxPCSCommitment, Vec<F>, F, HyraxPCSProof) {
    let (pcs, poly, blinds, commitment, point, result_blind) = example();
    let mut transcript = Transcript::new(b"hyrax-opening");
    let proof = pcs
        .open(
            &commitment,
            &poly,
            &blinds,
            &point,
            &result_blind,
            &mut transcript,
            &mut test_rng(),
        )
        .unwrap();
    (pcs, poly, commitment, point, result_blind, proof)
}

#[test]
fn commitment_uses_the_papers_column_major_matrix_layout() {
    let (pcs, poly, blinds, commitment, _, _) = example();
    let evals = poly.evals();
    for row in 0..4 {
        let expected_row = [evals[row], evals[row + 4], evals[row + 8], evals[row + 12]];
        assert_eq!(
            commitment.rows[row],
            pcs.rows.commit(&expected_row, &blinds[row])
        );
    }
}

#[test]
fn proof_commits_to_the_mle_evaluation_and_verifies() {
    let (pcs, poly, commitment, point, result_blind, proof) = prove_example();
    assert_eq!(
        proof.result_com,
        pcs.scalar.commit(&poly.eval(&point), &result_blind)
    );

    let mut transcript = Transcript::new(b"hyrax-opening");
    assert!(pcs.verify(&commitment, &point, &proof, &mut transcript));
}

#[test]
fn odd_variable_count_uses_a_rectangular_matrix() {
    let pcs = HyraxPCS::setup(b"hyrax-odd", 3).unwrap();
    assert_eq!(pcs.num_rows(), 2);
    assert_eq!(pcs.rows.len(), 4);

    let poly = DenseMultilinearPoly::new((1..=8u64).map(f).collect(), 3);
    let blinds = [3, 5].map(f).to_vec();
    let commitment = pcs.commit(&poly, &blinds);
    assert_eq!(commitment.rows.len(), 2);

    let point = [2, 3, 5].map(f).to_vec();
    let result_blind = f(13);
    let mut prover_transcript = Transcript::new(b"hyrax-opening");
    let proof = pcs
        .open(
            &commitment,
            &poly,
            &blinds,
            &point,
            &result_blind,
            &mut prover_transcript,
            &mut test_rng(),
        )
        .unwrap();
    assert_eq!(
        proof.result_com,
        pcs.scalar.commit(&poly.eval(&point), &result_blind)
    );

    let mut verifier_transcript = Transcript::new(b"hyrax-opening");
    assert!(pcs.verify(&commitment, &point, &proof, &mut verifier_transcript));
}

#[test]
fn zero_variable_polynomial_uses_the_length_one_ipa_base_case() {
    let pcs = HyraxPCS::setup(b"hyrax-constant", 0).unwrap();
    let poly = DenseMultilinearPoly::new(vec![f(42)], 0);
    let blinds = [f(7)];
    let commitment = pcs.commit(&poly, &blinds);
    let mut prover_transcript = Transcript::new(b"hyrax-opening");
    let proof = pcs
        .open(
            &commitment,
            &poly,
            &blinds,
            &[],
            &f(11),
            &mut prover_transcript,
            &mut test_rng(),
        )
        .unwrap();
    assert!(proof.ipa.minus.is_empty());

    let mut verifier_transcript = Transcript::new(b"hyrax-opening");
    assert!(pcs.verify(&commitment, &[], &proof, &mut verifier_transcript));
}

#[test]
fn verifier_rejects_invalid_public_shapes_without_panicking() {
    let (pcs, _, commitment, point, _, mut proof) = prove_example();
    proof.ipa.plus.pop();
    let mut transcript = Transcript::new(b"hyrax-opening");
    assert!(!pcs.verify(&commitment, &point, &proof, &mut transcript));

    let mut transcript = Transcript::new(b"hyrax-opening");
    assert!(!pcs.verify(
        &HyraxPCSCommitment { rows: vec![] },
        &point,
        &proof,
        &mut transcript
    ));
}

#[test]
fn verifier_rejects_another_point() {
    let (pcs, _, commitment, mut point, _, proof) = prove_example();
    point[0] += f(1);
    let mut transcript = Transcript::new(b"hyrax-opening");
    assert!(!pcs.verify(&commitment, &point, &proof, &mut transcript));
}
