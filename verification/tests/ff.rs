use my_zk_rs::ff::{Fp25519, MODULUS_LIMBS, NUM_LIMBS};
use num_bigint::BigUint;

fn to_big(limbs: [u64; NUM_LIMBS]) -> BigUint {
    let mut bytes = Vec::new();
    for limb in limbs {
        bytes.extend_from_slice(&limb.to_le_bytes());
    }
    BigUint::from_bytes_le(&bytes)
}

fn from_big(value: &BigUint) -> [u64; NUM_LIMBS] {
    let mut bytes = value.to_bytes_le();
    bytes.resize(32, 0);
    let mut limbs = [0u64; NUM_LIMBS];
    for (i, limb) in limbs.iter_mut().enumerate() {
        let mut word = [0u8; 8];
        word.copy_from_slice(&bytes[i * 8..(i + 1) * 8]);
        *limb = u64::from_le_bytes(word);
    }
    limbs
}

fn modulus() -> BigUint {
    to_big(MODULUS_LIMBS)
}

fn next_limbs(state: &mut u64) -> [u64; NUM_LIMBS] {
    let mut limbs = [0u64; NUM_LIMBS];
    for limb in &mut limbs {
        *state = state
            .wrapping_mul(0xda94_2042_e4dd_58b5)
            .wrapping_add(0x9e37_79b9_7f4a_7c15);
        *limb = *state;
    }
    limbs
}

#[test]
fn constructors_round_trip_and_reduce() {
    assert_eq!(Fp25519::zero().to_limbs(), [0, 0, 0, 0]);
    assert_eq!(Fp25519::one().to_limbs(), [1, 0, 0, 0]);
    assert_eq!(Fp25519::from_u64(42).to_limbs(), [42, 0, 0, 0]);
    assert_eq!(Fp25519::new(MODULUS_LIMBS).to_limbs(), [0, 0, 0, 0]);

    let mut p_plus_five = MODULUS_LIMBS;
    p_plus_five[0] += 5;
    assert_eq!(Fp25519::new(p_plus_five).to_limbs(), [5, 0, 0, 0]);
}

#[test]
fn small_arithmetic_examples() {
    let two = Fp25519::from_u64(2);
    let three = Fp25519::from_u64(3);

    assert_eq!((two + three).to_limbs(), [5, 0, 0, 0]);
    assert_eq!((two * three).to_limbs(), [6, 0, 0, 0]);
    assert_eq!((three - two).to_limbs(), [1, 0, 0, 0]);

    assert_eq!(
        (two - three).to_limbs(),
        [
            0xffffffffffffffec,
            0xffffffffffffffff,
            0xffffffffffffffff,
            0x7fffffffffffffff,
        ],
    );
}

#[test]
fn arithmetic_matches_ark_ff_on_vectors() {
    let vectors = [
        [0, 0, 0, 0],
        [1, 0, 0, 0],
        [2, 0, 0, 0],
        [19, 0, 0, 0],
        [u64::MAX, 0, 0, 0],
        [0, 1, 0, 0],
        [
            0x0123456789abcdef,
            0xfedcba9876543210,
            0x0f0f0f0f0f0f0f0f,
            0x7f0f0f0f0f0f0f0f,
        ],
        [
            0xfffffffffffffff0,
            0xffffffffffffffff,
            0xffffffffffffffff,
            0x7fffffffffffffff,
        ],
        [
            0xffffffffffffffff,
            0xffffffffffffffff,
            0xffffffffffffffff,
            0xffffffffffffffff,
        ],
    ];
    let p = modulus();

    for a_limbs in vectors {
        for b_limbs in vectors {
            let a = Fp25519::new(a_limbs);
            let b = Fp25519::new(b_limbs);
            let big_a = to_big(a_limbs) % &p;
            let big_b = to_big(b_limbs) % &p;

            assert_eq!((a + b).to_limbs(), from_big(&((&big_a + &big_b) % &p)));
            assert_eq!((a - b).to_limbs(), from_big(&((&big_a + &p - &big_b) % &p)));
            assert_eq!((a * b).to_limbs(), from_big(&((&big_a * &big_b) % &p)));
        }
    }
}

#[test]
fn multiplication_matches_ark_ff_on_deterministic_inputs() {
    let mut state = 0x1319_8a2e_0370_7344u64;
    let p = modulus();

    for _ in 0..256 {
        let a_limbs = next_limbs(&mut state);
        let b_limbs = next_limbs(&mut state);
        let a = Fp25519::new(a_limbs);
        let b = Fp25519::new(b_limbs);

        assert_eq!(
            (a * b).to_limbs(),
            from_big(&((to_big(a_limbs) * to_big(b_limbs)) % &p))
        );
    }
}

#[test]
fn mul_batch_matches_scalar_mul() {
    let mut state = 0x9e37_79b9_7f4a_7c15u64;
    let lhs = (0..64)
        .map(|_| Fp25519::new(next_limbs(&mut state)))
        .collect::<Vec<_>>();
    let rhs = (0..64)
        .map(|_| Fp25519::new(next_limbs(&mut state)))
        .collect::<Vec<_>>();
    let mut out = vec![Fp25519::zero(); lhs.len()];

    Fp25519::mul_batch(&lhs, &rhs, &mut out);

    for i in 0..lhs.len() {
        assert_eq!(out[i], lhs[i] * rhs[i]);
    }
}

#[test]
fn canonical_limbs_can_be_loaded_by_ark_ff() {
    let x = Fp25519::new([
        0xffffffffffffffff,
        0xffffffffffffffff,
        0xffffffffffffffff,
        0xffffffffffffffff,
    ]);
    let expected = to_big([u64::MAX; 4]) % modulus();

    assert_eq!(x.to_limbs(), from_big(&expected));
}
