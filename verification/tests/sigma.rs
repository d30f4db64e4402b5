use ark_std::rand::{rngs::StdRng, SeedableRng};
use my_zk_rs::curve::Fr as F;
use my_zk_rs::pedersen::{ScalarPedersen, VectorPedersen};
use my_zk_rs::sigma::{EqualityProof, KnowledgeProof, ProductProof};
use my_zk_rs::transcript::Transcript;

fn test_rng() -> StdRng {
    StdRng::seed_from_u64(42)
}

fn committers(n: usize) -> (VectorPedersen, ScalarPedersen) {
    (
        VectorPedersen::setup(b"ipa-test", n).unwrap(),
        ScalarPedersen::setup(b"ipa-test").unwrap(),
    )
}

#[test]
fn knowledge_proof_round_trips_and_binds_the_commitment() {
    let (_, scalar) = committers(1);
    let (value, blind) = (F::from(21u64), F::from(5u64));
    let commitment = scalar.commit(&value, &blind);

    let mut transcript = Transcript::new(b"knowledge");
    let proof = KnowledgeProof::prove(
        &scalar,
        &commitment,
        &value,
        &blind,
        &mut transcript,
        &mut test_rng(),
    );

    let mut transcript = Transcript::new(b"knowledge");
    assert!(proof.verify(&scalar, &commitment, &mut transcript));

    let mut transcript = Transcript::new(b"knowledge");
    assert!(!proof.verify(&scalar, &(commitment + scalar.generator), &mut transcript));

    let mut tampered = proof.clone();
    tampered.z1 += F::from(1u64);
    let mut transcript = Transcript::new(b"knowledge");
    assert!(!tampered.verify(&scalar, &commitment, &mut transcript));
}

#[test]
fn equality_proof_accepts_same_value_and_rejects_different_values() {
    let (_, scalar) = committers(1);
    let value = F::from(21u64);
    let (lhs_blind, rhs_blind) = (F::from(5u64), F::from(7u64));
    let lhs = scalar.commit(&value, &lhs_blind);
    let rhs = scalar.commit(&value, &rhs_blind);

    let mut transcript = Transcript::new(b"equality");
    let proof = EqualityProof::prove(
        &scalar,
        &lhs,
        &rhs,
        &value,
        &lhs_blind,
        &rhs_blind,
        &mut transcript,
        &mut test_rng(),
    );

    let mut transcript = Transcript::new(b"equality");
    assert!(proof.verify(&scalar, &lhs, &rhs, &mut transcript));

    let other = scalar.commit(&(value + F::from(1u64)), &rhs_blind);
    let mut transcript = Transcript::new(b"equality");
    assert!(!proof.verify(&scalar, &lhs, &other, &mut transcript));
}

#[test]
fn product_proof_accepts_products_and_rejects_non_products() {
    let (_, scalar) = committers(1);
    let (x, y) = (F::from(6u64), F::from(7u64));
    let (x_blind, y_blind, z_blind) = (F::from(3u64), F::from(5u64), F::from(11u64));
    let x_com = scalar.commit(&x, &x_blind);
    let y_com = scalar.commit(&y, &y_blind);
    let z_com = scalar.commit(&(x * y), &z_blind);

    let mut transcript = Transcript::new(b"product");
    let proof = ProductProof::prove(
        &scalar,
        &x_com,
        &y_com,
        &z_com,
        &x,
        &x_blind,
        &y,
        &y_blind,
        &z_blind,
        &mut transcript,
        &mut test_rng(),
    );

    let mut transcript = Transcript::new(b"product");
    assert!(proof.verify(&scalar, &x_com, &y_com, &z_com, &mut transcript));

    let wrong_z = scalar.commit(&(x * y + F::from(1u64)), &z_blind);
    let mut transcript = Transcript::new(b"product");
    assert!(!proof.verify(&scalar, &x_com, &y_com, &wrong_z, &mut transcript));

    let mut tampered = proof.clone();
    tampered.z[4] += F::from(1u64);
    let mut transcript = Transcript::new(b"product");
    assert!(!tampered.verify(&scalar, &x_com, &y_com, &z_com, &mut transcript));
}

#[test]
fn try_prove_refuses_a_commitment_to_another_value() {
    let (_, scalar) = committers(1);
    let commitment = scalar.commit(&F::from(21u64), &F::from(5u64));
    let mut transcript = Transcript::new(b"knowledge");
    let refused = KnowledgeProof::try_prove(
        &scalar,
        &commitment,
        &F::from(22u64),
        &F::from(5u64),
        &mut transcript,
        &mut test_rng(),
    );
    assert!(refused.is_none());
    let accepted = KnowledgeProof::try_prove(
        &scalar,
        &commitment,
        &F::from(21u64),
        &F::from(5u64),
        &mut transcript,
        &mut test_rng(),
    );
    assert!(accepted.is_some());
}

#[test]
fn prove_with_fixed_blinds_is_deterministic() {
    let (_, scalar) = committers(1);
    let (value, blind) = (F::from(9u64), F::from(4u64));
    let commitment = scalar.commit(&value, &blind);
    let (t1, t2) = (F::from(100u64), F::from(200u64));
    let mut lhs = Transcript::new(b"knowledge");
    let mut rhs = Transcript::new(b"knowledge");
    let a = KnowledgeProof::prove_with(&scalar, &commitment, &value, &blind, &t1, &t2, &mut lhs);
    let b = KnowledgeProof::prove_with(&scalar, &commitment, &value, &blind, &t1, &t2, &mut rhs);
    assert_eq!(a.alpha, b.alpha);
    assert_eq!(a.z1, b.z1);
    assert_eq!(a.alpha, scalar.commit(&t1, &t2));
    let mut transcript = Transcript::new(b"knowledge");
    assert!(a.verify(&scalar, &commitment, &mut transcript));
}
