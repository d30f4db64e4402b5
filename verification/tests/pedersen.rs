use my_zk_rs::curve::{Fr as F, G1};
use my_zk_rs::pedersen::{decimal_bytes, ScalarPedersen, VectorPedersen};

#[test]
fn vector_commitment_is_additively_homomorphic() {
    let committer = VectorPedersen::setup(b"pedersen-test", 3).unwrap();

    let lhs = committer.commit(&[F::from(1u64), F::from(2u64), F::from(3u64)], &F::from(7u64));
    let rhs = committer.commit(&[F::from(10u64), F::from(20u64), F::from(30u64)], &F::from(11u64));
    let sum = committer.commit(&[F::from(11u64), F::from(22u64), F::from(33u64)], &F::from(18u64));

    assert_eq!(lhs + rhs, sum);
}

#[test]
fn vector_and_scalar_keys_of_one_domain_share_the_blind_generator() {
    let vector = VectorPedersen::setup(b"pedersen-test", 2).unwrap();
    let scalar = ScalarPedersen::setup(b"pedersen-test").unwrap();
    assert_eq!(vector.blind, scalar.blind);
    assert_ne!(vector.generators[0], scalar.generator);
    assert_ne!(vector.generators[0], vector.generators[1]);
    assert_eq!(vector.mul_bases, vector.generators);
    assert_eq!(vector.len(), 2);
    assert!(!vector.is_empty());
}

#[test]
fn scalar_commitment_is_value_times_g_plus_blind_times_h() {
    let key = ScalarPedersen::setup(b"pedersen-test").unwrap();
    let (value, blind) = (F::from(5u64), F::from(7u64));
    assert_eq!(key.commit(&value, &blind), key.generator * value + key.blind * blind);
}

#[test]
fn short_vectors_use_the_leading_generators() {
    let key = VectorPedersen::setup(b"pedersen-test", 3).unwrap();
    let (value, blind) = (F::from(5u64), F::from(7u64));
    assert_eq!(
        key.commit(&[value], &blind),
        key.generators[0] * value + key.blind * blind
    );
}

#[test]
fn zero_is_the_additive_identity() {
    let key = ScalarPedersen::setup(b"pedersen-test").unwrap();
    assert_eq!(key.generator + G1::zero(), key.generator);
    assert_eq!(key.generator - key.generator, G1::zero());
    let mut expected = [0u8; 96];
    expected[0] = 0x40;
    assert_eq!(G1::zero().to_uncompressed(), expected);
}

#[test]
fn generator_messages_count_in_decimal() {
    assert_eq!(decimal_bytes(0), b"0".to_vec());
    assert_eq!(decimal_bytes(7), b"7".to_vec());
    assert_eq!(decimal_bytes(1203), b"1203".to_vec());
}
