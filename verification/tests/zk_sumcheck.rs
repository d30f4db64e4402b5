use ark_std::rand::{rngs::StdRng, SeedableRng};
use my_zk_rs::curve::Fr as F;
use my_zk_rs::mle::{DenseMultilinearPoly, MultilinearPoly};
use my_zk_rs::pedersen::ScalarPedersen;
use my_zk_rs::transcript::Transcript;
use my_zk_rs::zk_sumcheck::{ZkSumcheckKey, ZkSumcheckOutput, ZkSumcheckProof};

fn key(degree: usize) -> ZkSumcheckKey {
    let scalar = ScalarPedersen::setup(b"zk-sumcheck-test").unwrap();
    ZkSumcheckKey::setup(b"zk-sumcheck-test-coeffs", degree, scalar).unwrap()
}

fn table(values: &[u64]) -> Vec<F> {
    values.iter().map(|&v| F::from(v)).collect()
}

fn quadratic_example() -> (Vec<DenseMultilinearPoly<my_zk_rs::curve::Bls12381FrConfig, 4>>, F) {
    let a = DenseMultilinearPoly::new(table(&[2, 3, 5, 7, 11, 13, 17, 19]), 3);
    let b = DenseMultilinearPoly::new(table(&[23, 29, 31, 37, 41, 43, 47, 53]), 3);
    let mut claim = F::from(0u64);
    for i in 0..8 {
        claim = claim + a.evals()[i] * b.evals()[i];
    }
    (vec![a, b], claim)
}

#[test]
fn zk_sumcheck_round_trips_and_hides_the_round_polynomials() {
    let key = key(2);
    let (polys, claim) = quadratic_example();
    let claim_blind = F::from(9u64);
    let claim_com = key.scalar.commit(&claim, &claim_blind);
    let comb = |v: &[F]| v[0] * v[1];

    let mut prover_transcript = Transcript::new(b"zk-sumcheck");
    let ZkSumcheckOutput {
        proof,
        point,
        final_evals,
        final_claim,
        final_blind,
        final_com,
    } = ZkSumcheckProof::prove(
        &key,
        polys.clone(),
        claim,
        claim_blind,
        comb,
        &mut prover_transcript,
        &mut StdRng::seed_from_u64(42),
    )
    .unwrap();

    assert_eq!(point.len(), 3);
    assert_eq!(final_evals, vec![polys[0].eval(&point), polys[1].eval(&point)]);
    assert_eq!(final_claim, comb(&final_evals));
    assert_eq!(final_com, key.scalar.commit(&final_claim, &final_blind));
    assert_eq!(&final_com, proof.eval_coms.last().unwrap());

    let mut verifier_transcript = Transcript::new(b"zk-sumcheck");
    let (verifier_final_com, verifier_point) = proof
        .verify(&key, &claim_com, &mut verifier_transcript)
        .unwrap();
    assert_eq!(verifier_point, point);
    assert_eq!(verifier_final_com, final_com);

    let mut other_transcript = Transcript::new(b"zk-sumcheck");
    let other = ZkSumcheckProof::prove(
        &key,
        polys,
        claim,
        claim_blind,
        comb,
        &mut other_transcript,
        &mut StdRng::seed_from_u64(7),
    )
    .unwrap();
    assert_ne!(other.proof.poly_coms, proof.poly_coms);
    let mut verifier_transcript = Transcript::new(b"zk-sumcheck");
    assert!(other
        .proof
        .verify(&key, &claim_com, &mut verifier_transcript)
        .is_some());
}

#[test]
fn zero_rounds_return_the_initial_claim_commitment() {
    let key = key(2);
    let polys = vec![
        DenseMultilinearPoly::new(vec![F::from(3u64)], 0),
        DenseMultilinearPoly::new(vec![F::from(5u64)], 0),
    ];
    let (claim, claim_blind) = (F::from(15u64), F::from(4u64));
    let claim_com = key.scalar.commit(&claim, &claim_blind);

    let mut transcript = Transcript::new(b"zk-sumcheck");
    let output = ZkSumcheckProof::prove(
        &key,
        polys,
        claim,
        claim_blind,
        |v: &[F]| v[0] * v[1],
        &mut transcript,
        &mut StdRng::seed_from_u64(42),
    )
    .unwrap();
    assert!(output.proof.poly_coms.is_empty());
    assert_eq!(output.final_com, claim_com);
    assert_eq!(output.final_blind, claim_blind);

    let mut transcript = Transcript::new(b"zk-sumcheck");
    let (final_com, point) = output
        .proof
        .verify(&key, &claim_com, &mut transcript)
        .unwrap();
    assert!(point.is_empty());
    assert_eq!(final_com, claim_com);
}

#[test]
fn wrong_claim_commitment_and_tampered_proofs_are_rejected() {
    let key = key(2);
    let (polys, claim) = quadratic_example();
    let claim_blind = F::from(9u64);
    let claim_com = key.scalar.commit(&claim, &claim_blind);

    let mut transcript = Transcript::new(b"zk-sumcheck");
    let output = ZkSumcheckProof::prove(
        &key,
        polys,
        claim,
        claim_blind,
        |v: &[F]| v[0] * v[1],
        &mut transcript,
        &mut StdRng::seed_from_u64(42),
    )
    .unwrap();

    let wrong_claim_com = key.scalar.commit(&(claim + F::from(1u64)), &claim_blind);
    let mut transcript = Transcript::new(b"zk-sumcheck");
    assert!(output
        .proof
        .verify(&key, &wrong_claim_com, &mut transcript)
        .is_none());

    let mut tampered = output.proof.clone();
    tampered.eval_coms[1] = tampered.eval_coms[1] + key.scalar.generator;
    let mut transcript = Transcript::new(b"zk-sumcheck");
    assert!(tampered.verify(&key, &claim_com, &mut transcript).is_none());

    let mut tampered = output.proof.clone();
    tampered.proofs.pop();
    let mut transcript = Transcript::new(b"zk-sumcheck");
    assert!(tampered.verify(&key, &claim_com, &mut transcript).is_none());
}

#[test]
fn key_degree_bounds_the_round_polynomials() {
    let key = key(2);
    let polys = vec![DenseMultilinearPoly::new(table(&[1, 2, 3, 4]), 2)];
    let comb = |v: &[F]| v[0] * v[0] * v[0];
    let mut claim = F::from(0u64);
    for i in 1..=4u64 {
        claim = claim + F::from(i * i * i);
    }
    let claim_com = key.scalar.commit(&claim, &F::from(0u64));

    let mut transcript = Transcript::new(b"zk-sumcheck");
    let output = ZkSumcheckProof::prove(
        &key,
        polys,
        claim,
        F::from(0u64),
        comb,
        &mut transcript,
        &mut StdRng::seed_from_u64(42),
    )
    .unwrap();
    let mut transcript = Transcript::new(b"zk-sumcheck");
    assert!(output
        .proof
        .verify(&key, &claim_com, &mut transcript)
        .is_some());
    assert_ne!(output.final_claim, comb(&output.final_evals));
}

#[test]
fn zk_key_degree_is_one_less_than_its_generators() {
    let key = key(3);
    assert_eq!(key.degree(), 3);
    assert_eq!(key.coeffs.len(), 4);
    assert_eq!(key.coeffs.blind, key.scalar.blind);
}
