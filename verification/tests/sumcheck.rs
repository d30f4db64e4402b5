use my_zk_rs::ff::Fp25519 as F;
use my_zk_rs::mle::{DenseMultilinearPoly, MultilinearPoly};
use my_zk_rs::sumcheck::{SumcheckOutput, SumcheckProof};
use my_zk_rs::transcript::Transcript;

fn f(x: u64) -> F {
    F::from_u64(x)
}

fn table(values: &[u64]) -> Vec<F> {
    values.iter().map(|&v| f(v)).collect()
}

#[test]
fn arbitrary_quadratic_sumcheck_with_nonzero_claim() {
    let (r_a, r_b) = (f(31), f(37));
    let a_evals = table(&[2, 3, 5, 7, 11, 13, 17, 19]);
    let b_evals = table(&[23, 29, 31, 37, 41, 43, 47, 53]);
    let z_evals = table(&[1, 4, 9, 16, 25, 36, 49, 64]);

    let comb = |v: &[F]| (r_a * v[0] + r_b * v[1]) * v[2];
    let mut expected_sum = f(0);
    for i in 0..8 {
        expected_sum = expected_sum + comb(&[a_evals[i], b_evals[i], z_evals[i]]);
    }
    assert_ne!(expected_sum, f(0));

    let polys = vec![
        DenseMultilinearPoly::new(a_evals, 3),
        DenseMultilinearPoly::new(b_evals, 3),
        DenseMultilinearPoly::new(z_evals, 3),
    ];

    let mut prover_transcript = Transcript::new(b"arbitrary-sumcheck-test");
    let SumcheckOutput {
        proof,
        point: prover_r,
        final_evals,
    } = SumcheckProof::prove(polys, expected_sum, 2, comb, &mut prover_transcript);

    let mut verifier_transcript = Transcript::new(b"arbitrary-sumcheck-test");
    let (final_claim, verifier_r) = proof
        .verify(expected_sum, 2, &mut verifier_transcript)
        .unwrap();

    assert_eq!(prover_r, verifier_r);
    assert_eq!(verifier_r.len(), 3);
    assert_eq!(final_evals.len(), 3);
    assert_eq!(final_claim, comb(&final_evals));
}

#[test]
fn wrong_claim_is_rejected() {
    let polys = vec![
        DenseMultilinearPoly::new(table(&[1, 2, 3, 4]), 2),
        DenseMultilinearPoly::new(table(&[5, 6, 7, 8]), 2),
    ];
    let comb = |v: &[F]| v[0] * v[1];
    let true_sum = f(5 + 12 + 21 + 32);

    let mut prover_transcript = Transcript::new(b"wrong-claim-test");
    let output = SumcheckProof::prove(polys, true_sum, 2, comb, &mut prover_transcript);

    let mut verifier_transcript = Transcript::new(b"wrong-claim-test");
    assert!(output
        .proof
        .verify(true_sum + f(1), 2, &mut verifier_transcript)
        .is_none());
}

#[test]
fn verifier_enforces_the_protocol_degree_bound() {
    let polys = vec![DenseMultilinearPoly::new(table(&[1, 2, 3, 4]), 2)];
    let claim = f(1 + 2 + 3 + 4);
    let mut prover_transcript = Transcript::new(b"degree-bound-test");
    let output = SumcheckProof::prove(polys, claim, 3, |v: &[F]| v[0], &mut prover_transcript);

    let mut verifier_transcript = Transcript::new(b"degree-bound-test");
    assert!(output
        .proof
        .verify(claim, 2, &mut verifier_transcript)
        .is_none());
}

#[test]
fn final_evaluations_are_the_factors_at_the_challenge_point() {
    let a = table(&[3, 1, 4, 1, 5, 9, 2, 6]);
    let b = table(&[2, 7, 1, 8, 2, 8, 1, 8]);
    let comb = |v: &[F]| v[0] * v[1] + f(1);
    let mut claim = f(0);
    for i in 0..8 {
        claim = claim + comb(&[a[i], b[i]]);
    }
    let polys = vec![
        DenseMultilinearPoly::new(a.clone(), 3),
        DenseMultilinearPoly::new(b.clone(), 3),
    ];
    let mut transcript = Transcript::new(b"final-evals");
    let out = SumcheckProof::prove(polys, claim, 2, comb, &mut transcript);
    let pa = DenseMultilinearPoly::new(a, 3);
    let pb = DenseMultilinearPoly::new(b, 3);
    assert_eq!(out.final_evals[0], pa.eval(&out.point));
    assert_eq!(out.final_evals[1], pb.eval(&out.point));

    let mut verifier = Transcript::new(b"final-evals");
    let (final_claim, point) = out.proof.verify(claim, 2, &mut verifier).unwrap();
    assert_eq!(point, out.point);
    assert_eq!(final_claim, comb(&out.final_evals));
}

#[test]
fn round_polynomial_values_are_the_partial_sums() {
    let polys = vec![
        DenseMultilinearPoly::new(table(&[1, 2, 3, 4]), 2),
        DenseMultilinearPoly::new(table(&[5, 6, 7, 8]), 2),
    ];
    let comb = |v: &[F]| v[0] * v[1];
    let s = SumcheckProof::round_polynomial(&polys, f(70), 2, &comb);

    assert_eq!(s.evals(), &[f(26), f(44), f(66)][..]);
}
