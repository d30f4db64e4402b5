use ark_std::rand::{rngs::StdRng, SeedableRng};
use my_zk_rs::curve::{Fr as F, G1};
use my_zk_rs::helpers::inner_product;
use my_zk_rs::ipa::{pow2_shape, InnerProductProof, LinearInnerProductProof};
use my_zk_rs::pedersen::{ScalarPedersen, VectorPedersen};
use my_zk_rs::transcript::Transcript;

fn test_rng() -> StdRng {
    StdRng::seed_from_u64(42)
}

fn committers(n: usize) -> (VectorPedersen, ScalarPedersen) {
    (
        VectorPedersen::setup(b"ipa-test", n).unwrap(),
        ScalarPedersen::setup(b"ipa-test").unwrap(),
    )
}

fn prove_example(
    n: usize,
) -> (VectorPedersen, ScalarPedersen, Vec<F>, G1, G1, InnerProductProof) {
    let (vector, scalar) = committers(n);
    let x = (1..=n).map(|i| F::from(i as u64)).collect::<Vec<_>>();
    let a = (0..n).map(|i| F::from((2 * i + 3) as u64)).collect::<Vec<_>>();
    let vector_blind = F::from(11u64);
    let scalar_blind = F::from(13u64);
    let y = inner_product(&x, &a);
    let c_x = vector.commit(&x, &vector_blind);
    let c_y = scalar.commit(&y, &scalar_blind);
    let mut transcript = Transcript::new(b"ipa-proof");
    let proof = InnerProductProof::prove(
        &vector,
        &scalar,
        &c_x,
        &c_y,
        &x,
        &vector_blind,
        &a,
        &scalar_blind,
        &mut transcript,
        &mut test_rng(),
    )
    .unwrap();
    (vector, scalar, a, c_x, c_y, proof)
}

#[test]
fn logarithmic_ipa_accepts_valid_statements_including_length_one() {
    for n in [1usize, 2, 4, 8] {
        let (vector, scalar, a, c_x, c_y, proof) = prove_example(n);
        let mut transcript = Transcript::new(b"ipa-proof");
        assert!(proof.verify(&vector, &scalar, &a, &c_x, &c_y, &mut transcript));
        assert_eq!(proof.minus.len(), n.ilog2() as usize);
    }
}

#[test]
fn logarithmic_ipa_rejects_changed_public_inputs_and_proof() {
    let (vector, scalar, mut a, c_x, c_y, proof) = prove_example(4);
    a[0] += F::from(1u64);
    let mut transcript = Transcript::new(b"ipa-proof");
    assert!(!proof.verify(&vector, &scalar, &a, &c_x, &c_y, &mut transcript));

    let (vector, scalar, a, c_x, c_y, mut proof) = prove_example(4);
    let wrong_c_y = c_y + scalar.generator;
    let mut transcript = Transcript::new(b"ipa-proof");
    assert!(!proof.verify(&vector, &scalar, &a, &c_x, &wrong_c_y, &mut transcript));

    proof.z1 += F::from(1u64);
    let mut transcript = Transcript::new(b"ipa-proof");
    assert!(!proof.verify(&vector, &scalar, &a, &c_x, &c_y, &mut transcript));
}

#[test]
fn verifier_rejects_wrong_shapes_and_distinct_blind_generators() {
    let (vector, scalar, a, c_x, c_y, mut proof) = prove_example(4);
    proof.minus.pop();
    let mut transcript = Transcript::new(b"ipa-proof");
    assert!(!proof.verify(&vector, &scalar, &a, &c_x, &c_y, &mut transcript));

    let other_scalar = ScalarPedersen::setup(b"other-domain").unwrap();
    let (_, _, _, _, _, proof) = prove_example(4);
    let mut transcript = Transcript::new(b"ipa-proof");
    assert!(!proof.verify(&vector, &other_scalar, &a, &c_x, &c_y, &mut transcript));
}

#[test]
fn linear_ipa_accepts_valid_statements_and_rejects_tampering() {
    for n in [1usize, 3, 4] {
        let (vector, scalar) = committers(n);
        let x = (1..=n).map(|i| F::from(i as u64)).collect::<Vec<_>>();
        let a = (0..n).map(|i| F::from((i + 2) as u64)).collect::<Vec<_>>();
        let (vector_blind, scalar_blind) = (F::from(11u64), F::from(13u64));
        let c_x = vector.commit(&x, &vector_blind);
        let c_y = scalar.commit(&inner_product(&x, &a), &scalar_blind);
        let mut transcript = Transcript::new(b"lipa-proof");
        let proof = LinearInnerProductProof::prove(
            &vector,
            &scalar,
            &c_x,
            &c_y,
            &x,
            &vector_blind,
            &a,
            &scalar_blind,
            &mut transcript,
            &mut test_rng(),
        );
        assert_eq!(proof.z.len(), n);

        let mut transcript = Transcript::new(b"lipa-proof");
        assert!(proof.verify(&vector, &scalar, &a, &c_x, &c_y, &mut transcript));

        let mut wrong_a = a.clone();
        wrong_a[0] += F::from(1u64);
        let mut transcript = Transcript::new(b"lipa-proof");
        assert!(!proof.verify(&vector, &scalar, &wrong_a, &c_x, &c_y, &mut transcript));

        let mut transcript = Transcript::new(b"lipa-proof");
        assert!(!proof.verify(
            &vector,
            &scalar,
            &a,
            &(c_x + vector.generators[0]),
            &c_y,
            &mut transcript
        ));

        let mut tampered = proof.clone();
        tampered.z_beta += F::from(1u64);
        let mut transcript = Transcript::new(b"lipa-proof");
        assert!(!tampered.verify(&vector, &scalar, &a, &c_x, &c_y, &mut transcript));
    }
}

#[test]
fn try_prove_refuses_a_wrong_inner_product() {
    let (vector, scalar) = committers(2);
    let x = vec![F::from(1u64), F::from(2u64)];
    let a = vec![F::from(3u64), F::from(4u64)];
    let c_x = vector.commit(&x, &F::from(5u64));
    let wrong_c_y = scalar.commit(&F::from(12u64), &F::from(6u64));
    let mut transcript = Transcript::new(b"ipa-proof");
    assert!(InnerProductProof::try_prove(
        &vector,
        &scalar,
        &c_x,
        &wrong_c_y,
        &x,
        &F::from(5u64),
        &a,
        &F::from(6u64),
        &mut transcript,
        &mut test_rng(),
    )
    .is_none());
    let c_y = scalar.commit(&F::from(11u64), &F::from(6u64));
    assert!(InnerProductProof::try_prove(
        &vector,
        &scalar,
        &c_x,
        &c_y,
        &x,
        &F::from(5u64),
        &a,
        &F::from(6u64),
        &mut transcript,
        &mut test_rng(),
    )
    .is_some());
}

#[test]
fn pow2_shape_recognises_powers_of_two() {
    assert_eq!(pow2_shape(1), (true, 0));
    assert_eq!(pow2_shape(8), (true, 3));
    assert!(!pow2_shape(0).0);
    assert!(!pow2_shape(6).0);
}
