//! The BLS12-381 curve: its scalar field as an [`Fp`], and the points of its
//! group G1, each carried as its canonical uncompressed encoding (96 bytes).
//!
//! The curve arithmetic itself is done by `ark-bls12-381`. Its results are
//! named, not restated: `g1_add_spec`, `g1_mul_spec` and the rest stand for
//! what the curve code returns on given encodings. Two points are equal exactly
//! when their encodings are, since every point held here is the serialization
//! of a normalized affine point.

use crate::ff::{Fp, FpConfig};
use crate::helpers::all_wf;
use crate::limbs::{lemma_base_pow_small, lemma_value_4, limbs_value};
use ark_ec::hashing::HashToCurve;
use ark_ec::{AffineRepr, CurveGroup, VariableBaseMSM};
use ark_ff::PrimeField;
use ark_serialize::{CanonicalDeserialize, CanonicalSerialize};
use vstd::prelude::*;

verus! {

/// The scalar field of BLS12-381.
#[derive(Debug, Clone, Copy, PartialEq, Eq)]
pub struct Bls12381FrConfig;

/// The order `r` of the BLS12-381 groups.
pub open spec fn fr_modulus() -> nat {
    0x73eda753299d7d483339d80809a1d80553bda402fffe5bfeffffffff00000001nat
}

impl FpConfig<4> for Bls12381FrConfig {
    open spec fn modulus_spec() -> Seq<u64> {
        seq![0xffffffff00000001, 0x53bda402fffe5bfe, 0x3339d80809a1d805, 0x73eda753299d7d48]
    }

    open spec fn generator_spec() -> Seq<u64> {
        seq![7, 0, 0, 0]
    }

    fn modulus() -> (r: [u64; 4]) {
        let r = [0xffffffff00000001, 0x53bda402fffe5bfe, 0x3339d80809a1d805, 0x73eda753299d7d48];
        proof {
            assert(r@ =~= Self::modulus_spec());
        }
        r
    }

    fn generator() -> (r: [u64; 4]) {
        let r = [7, 0, 0, 0];
        proof {
            assert(r@ =~= Self::generator_spec());
        }
        r
    }

    proof fn lemma_config_ok() {
        lemma_base_pow_small();
        lemma_value_4(Self::modulus_spec());
        lemma_value_4(Self::generator_spec());
        assert(limbs_value(Self::modulus_spec()) == fr_modulus());
    }
}

/// An element of the scalar field of BLS12-381.
pub type Fr = Fp<Bls12381FrConfig, 4>;

/// The modulus of [`Fr`] is the group order.
pub proof fn lemma_fr_modulus()
    ensures
        Fr::modulus_value() == fr_modulus(),
{
    Bls12381FrConfig::lemma_config_ok();
    lemma_base_pow_small();
    lemma_value_4(Bls12381FrConfig::modulus_spec());
}

/// Whether `bytes` is an uncompressed G1 encoding that
/// `ark-bls12-381` reads back without error (its flags and coordinates).
pub uninterp spec fn g1_valid(bytes: Seq<u8>) -> bool;

/// The encoding of the sum of two points, as `ark-bls12-381` computes it.
pub uninterp spec fn g1_add_spec(a: Seq<u8>, b: Seq<u8>) -> Seq<u8>;

/// The encoding of the difference `a - b` of two points.
pub uninterp spec fn g1_sub_spec(a: Seq<u8>, b: Seq<u8>) -> Seq<u8>;

/// The encoding of `k * p` for a scalar of value `k`.
pub uninterp spec fn g1_mul_spec(p: Seq<u8>, k: nat) -> Seq<u8>;

/// The encoding of the multi-scalar multiplication `sum_i scalars[i] * bases[i]`.
pub uninterp spec fn g1_msm_spec(bases: Seq<Seq<u8>>, scalars: Seq<nat>) -> Seq<u8>;

/// The encoding of the point that hashing `msg` to G1 under `domain` gives.
pub uninterp spec fn g1_hash_spec(domain: Seq<u8>, msg: Seq<u8>) -> Seq<u8>;

/// The uncompressed encoding of the point at infinity: only the infinity
/// flag (bit 6 of the first byte) is set.
pub open spec fn g1_identity() -> Seq<u8> {
    Seq::new(96, |i: int| if i == 0 { 0x40u8 } else { 0u8 })
}

/// The error that hashing to the curve can report.
#[verifier::external_type_specification]
#[verifier::external_body]
pub struct ExHashToCurveError(ark_ec::hashing::HashToCurveError);

/// The random number generator that provers draw their blinding scalars from.
#[verifier::external_type_specification]
#[verifier::external_body]
pub struct ExStdRng(ark_std::rand::rngs::StdRng);

/// `G1Affine::zero()` of `ark-bls12-381`, serialized uncompressed: the flag
/// byte `0x40` followed by zeros, as its serializer writes the identity.
#[verifier::external_body]
fn g1_zero_bytes() -> (r: [u8; 96])
    ensures
        r@ == g1_identity(),
        g1_valid(r@),
{
    let mut r = [0u8; 96];
    ark_bls12_381::G1Affine::zero().serialize_uncompressed(&mut r[..]).unwrap();
    r
}

/// Point addition of `ark-bls12-381` (`G1Affine + G1Affine`) on encodings.
/// Claimed: the result is the named sum and reads back without error.
#[verifier::external_body]
fn g1_add_bytes(a: &[u8; 96], b: &[u8; 96]) -> (r: [u8; 96])
    requires
        g1_valid(a@),
        g1_valid(b@),
    ensures
        r@ == g1_add_spec(a@, b@),
        g1_valid(r@),
{
    let a = ark_bls12_381::G1Affine::deserialize_uncompressed_unchecked(&a[..]).unwrap();
    let b = ark_bls12_381::G1Affine::deserialize_uncompressed_unchecked(&b[..]).unwrap();
    let sum = (a + b).into_affine();
    let mut r = [0u8; 96];
    sum.serialize_uncompressed(&mut r[..]).unwrap();
    r
}

/// Point subtraction of `ark-bls12-381` (`G1Projective - G1Affine`) on
/// encodings. Claimed: the result is the named difference and reads back.
#[verifier::external_body]
fn g1_sub_bytes(a: &[u8; 96], b: &[u8; 96]) -> (r: [u8; 96])
    requires
        g1_valid(a@),
        g1_valid(b@),
    ensures
        r@ == g1_sub_spec(a@, b@),
        g1_valid(r@),
{
    let a = ark_bls12_381::G1Affine::deserialize_uncompressed_unchecked(&a[..]).unwrap();
    let b = ark_bls12_381::G1Affine::deserialize_uncompressed_unchecked(&b[..]).unwrap();
    let diff = (a.into_group() - b).into_affine();
    let mut r = [0u8; 96];
    diff.serialize_uncompressed(&mut r[..]).unwrap();
    r
}

/// Scalar multiplication of `ark-bls12-381` (`G1Affine * Fr`), the scalar
/// given by its canonical limbs. Claimed: the named product, which reads back.
#[verifier::external_body]
fn g1_mul_bytes(p: &[u8; 96], k: &[u64; 4]) -> (r: [u8; 96])
    requires
        g1_valid(p@),
        limbs_value(k@) < fr_modulus(),
    ensures
        r@ == g1_mul_spec(p@, limbs_value(k@)),
        g1_valid(r@),
{
    let p = ark_bls12_381::G1Affine::deserialize_uncompressed_unchecked(&p[..]).unwrap();
    let k = ark_bls12_381::Fr::from_bigint(ark_ff::BigInt(*k)).unwrap();
    let prod = (p * k).into_affine();
    let mut r = [0u8; 96];
    prod.serialize_uncompressed(&mut r[..]).unwrap();
    r
}

/// `G1Projective::msm_unchecked` of `ark-bls12-381` on encodings and
/// canonical scalar limbs of equal count. Claimed: the named result, which reads back.
#[verifier::external_body]
fn g1_msm_bytes(bases: &[[u8; 96]], scalars: &[[u64; 4]]) -> (r: [u8; 96])
    requires
        bases.len() == scalars.len(),
        forall|i: int| 0 <= i < bases.len() ==> g1_valid(#[trigger] bases@[i]@),
        forall|i: int| 0 <= i < scalars.len() ==> limbs_value(#[trigger] scalars@[i]@) < fr_modulus(),
    ensures
        r@ == g1_msm_spec(
            bases@.map_values(|b: [u8; 96]| b@),
            scalars@.map_values(|k: [u64; 4]| limbs_value(k@)),
        ),
        g1_valid(r@),
{
    let bases: Vec<ark_bls12_381::G1Affine> = bases.iter().map(|b| {
        ark_bls12_381::G1Affine::deserialize_uncompressed_unchecked(&b[..]).unwrap()
    }).collect();
    let scalars: Vec<ark_bls12_381::Fr> = scalars.iter().map(|k| {
        ark_bls12_381::Fr::from_bigint(ark_ff::BigInt(*k)).unwrap()
    }).collect();
    let sum = ark_bls12_381::G1Projective::msm_unchecked(&bases, &scalars).into_affine();
    let mut r = [0u8; 96];
    sum.serialize_uncompressed(&mut r[..]).unwrap();
    r
}

/// `HashToCurve::hash` of the hasher `ark-ec` builds for G1 from `domain`
/// (SHA-256 expanded to the base field, then the Wahby-Boneh map). Claimed:
/// the call succeeds, with the named point, which reads back. In `ark-ec`
/// 0.5 `MapToCurveBasedHasher::new` checks the map's parameters only in that
/// crate's own test builds, and the simplified SWU map and the isogeny map
/// of `WBMap` return `Ok` on every input; the expansion asks for a fixed 128
/// bytes, within the expander's bounds.
#[verifier::external_body]
fn g1_hash_bytes(domain: &[u8], msg: &[u8]) -> (r: Result<[u8; 96], ark_ec::hashing::HashToCurveError>)
    ensures
        r is Ok,
        r matches Ok(bytes) ==> bytes@ == g1_hash_spec(domain@, msg@) && g1_valid(bytes@),
{
    let hasher = ark_ec::hashing::map_to_curve_hasher::MapToCurveBasedHasher::<
        ark_bls12_381::G1Projective,
        ark_ff::field_hashers::DefaultFieldHasher<sha2::Sha256, 128>,
        ark_ec::hashing::curve_maps::wb::WBMap<ark_bls12_381::g1::Config>,
    >::new(domain)?;
    let point = hasher.hash(msg)?;
    let mut r = [0u8; 96];
    point.serialize_uncompressed(&mut r[..]).unwrap();
    Ok(r)
}

/// `UniformRand::rand` for `ark_bls12_381::Fr`, as canonical limbs. Claimed:
/// only that the limbs are below the modulus; the value is the generator's.
#[verifier::external_body]
fn random_fr_limbs(rng: &mut ark_std::rand::rngs::StdRng) -> (r: [u64; 4])
    ensures
        limbs_value(r@) < fr_modulus(),
{
    let x = <ark_bls12_381::Fr as ark_std::UniformRand>::rand(rng);
    x.into_bigint().0
}

/// A uniformly random scalar drawn from `rng`.
pub fn random_scalar(rng: &mut ark_std::rand::rngs::StdRng) -> (r: Fr)
    ensures
        r.wf(),
{
    let limbs = random_fr_limbs(rng);
    Fr::new(limbs)
}

/// A point of G1, held as its uncompressed encoding.
#[derive(Clone, Copy, Debug)]
pub struct G1 {
    bytes: [u8; 96],
}

impl G1 {
    /// Every point held is an encoding that the curve code reads back.
    #[verifier::type_invariant]
    spec fn inv(self) -> bool {
        g1_valid(self.bytes@)
    }
}

impl View for G1 {
    type V = Seq<u8>;

    closed spec fn view(&self) -> Seq<u8> {
        self.bytes@
    }
}

/// The encodings of a list of points.
pub open spec fn point_views(s: Seq<G1>) -> Seq<Seq<u8>> {
    s.map_values(|p: G1| p@)
}

/// The values of a list of scalars.
pub open spec fn scalar_values(s: Seq<Fr>) -> Seq<nat> {
    s.map_values(|x: Fr| x.value())
}

/// The canonical limbs of a reduced scalar.
fn scalar_limbs(x: &Fr) -> (r: [u64; 4])
    requires
        x.wf(),
    ensures
        limbs_value(r@) == x.value(),
        limbs_value(r@) < fr_modulus(),
{
    proof {
        x.lemma_value_bound();
        lemma_fr_modulus();
    }
    x.to_limbs()
}

impl G1 {
    /// The point at infinity.
    pub fn zero() -> (r: G1)
        ensures
            r@ == g1_identity(),
    {
        G1 { bytes: g1_zero_bytes() }
    }

    /// `self + rhs`.
    pub fn add_point(&self, rhs: &G1) -> (r: G1)
        ensures
            r@ == g1_add_spec(self@, rhs@),
    {
        proof {
            use_type_invariant(self);
            use_type_invariant(rhs);
        }
        G1 { bytes: g1_add_bytes(&self.bytes, &rhs.bytes) }
    }

    /// `self - rhs`.
    pub fn sub_point(&self, rhs: &G1) -> (r: G1)
        ensures
            r@ == g1_sub_spec(self@, rhs@),
    {
        proof {
            use_type_invariant(self);
            use_type_invariant(rhs);
        }
        G1 { bytes: g1_sub_bytes(&self.bytes, &rhs.bytes) }
    }

    /// `k * self`.
    pub fn mul_scalar(&self, k: &Fr) -> (r: G1)
        requires
            k.wf(),
        ensures
            r@ == g1_mul_spec(self@, k.value()),
    {
        proof {
            use_type_invariant(self);
        }
        let limbs = scalar_limbs(k);
        G1 { bytes: g1_mul_bytes(&self.bytes, &limbs) }
    }

    /// `sum_i scalars[i] * bases[i]`.
    pub fn msm(bases: &[G1], scalars: &[Fr]) -> (r: G1)
        requires
            bases.len() == scalars.len(),
            all_wf(scalars@),
        ensures
            r@ == g1_msm_spec(point_views(bases@), scalar_values(scalars@)),
    {
        let mut enc: Vec<[u8; 96]> = Vec::new();
        let mut limbs: Vec<[u64; 4]> = Vec::new();
        let mut i: usize = 0;
        while i < bases.len()
            invariant
                bases.len() == scalars.len(),
                all_wf(scalars@),
                i <= bases.len(),
                enc.len() == i,
                limbs.len() == i,
                forall|j: int| 0 <= j < i ==> (#[trigger] enc@[j])@ == bases@[j]@,
                forall|j: int| 0 <= j < i ==> g1_valid(#[trigger] enc@[j]@),
                forall|j: int| 0 <= j < i ==> limbs_value(#[trigger] limbs@[j]@) == scalars@[j].value(),
                forall|j: int| 0 <= j < i ==> limbs_value(#[trigger] limbs@[j]@) < fr_modulus(),
            decreases bases.len() - i,
        {
            let p = bases[i];
            proof {
                use_type_invariant(&p);
            }
            enc.push(p.bytes);
            limbs.push(scalar_limbs(&scalars[i]));
            i = i + 1;
        }
        let bytes = g1_msm_bytes(enc.as_slice(), limbs.as_slice());
        proof {
            assert(enc@.map_values(|b: [u8; 96]| b@) =~= point_views(bases@));
            assert(limbs@.map_values(|k: [u64; 4]| limbs_value(k@)) =~= scalar_values(scalars@));
        }
        G1 { bytes }
    }

    /// The point that hashing `msg` to G1 under `domain` gives.
    pub fn hash_to_curve(domain: &[u8], msg: &[u8]) -> (r: Result<G1, ark_ec::hashing::HashToCurveError>)
        ensures
            r is Ok,
            r matches Ok(p) ==> p@ == g1_hash_spec(domain@, msg@),
    {
        match g1_hash_bytes(domain, msg) {
            Ok(bytes) => Ok(G1 { bytes }),
            Err(e) => Err(e),
        }
    }

    /// The uncompressed encoding.
    pub fn to_uncompressed(&self) -> (r: [u8; 96])
        ensures
            r@ == self@,
    {
        self.bytes
    }

    /// Whether two points are equal, compared by their encodings.
    pub fn equals(&self, other: &G1) -> (r: bool)
        ensures
            r == (self@ == other@),
    {
        let mut i: usize = 0;
        while i < 96
            invariant
                i <= 96,
                forall|j: int| 0 <= j < i ==> self.bytes@[j] == other.bytes@[j],
            decreases 96 - i,
        {
            if self.bytes[i] != other.bytes[i] {
                return false;
            }
            i = i + 1;
        }
        proof {
            assert(self.bytes@ =~= other.bytes@);
        }
        true
    }
}

impl PartialEq for G1 {
    fn eq(&self, other: &G1) -> (r: bool) {
        self.equals(other)
    }
}

impl Eq for G1 {

}

impl vstd::std_specs::cmp::PartialEqSpecImpl for G1 {
    open spec fn obeys_eq_spec() -> bool {
        true
    }

    open spec fn eq_spec(&self, other: &G1) -> bool {
        self@ == other@
    }
}

impl vstd::std_specs::ops::AddSpecImpl<G1> for G1 {
    open spec fn obeys_add_spec() -> bool {
        false
    }

    open spec fn add_req(self, rhs: G1) -> bool {
        true
    }

    open spec fn add_spec(self, rhs: G1) -> G1 {
        vstd::pervasive::arbitrary()
    }
}

impl core::ops::Add<G1> for G1 {
    type Output = G1;

    fn add(self, rhs: G1) -> (r: G1)
        ensures
            r@ == g1_add_spec(self@, rhs@),
    {
        self.add_point(&rhs)
    }
}

impl vstd::std_specs::ops::SubSpecImpl<G1> for G1 {
    open spec fn obeys_sub_spec() -> bool {
        false
    }

    open spec fn sub_req(self, rhs: G1) -> bool {
        true
    }

    open spec fn sub_spec(self, rhs: G1) -> G1 {
        vstd::pervasive::arbitrary()
    }
}

impl core::ops::Sub<G1> for G1 {
    type Output = G1;

    fn sub(self, rhs: G1) -> (r: G1)
        ensures
            r@ == g1_sub_spec(self@, rhs@),
    {
        self.sub_point(&rhs)
    }
}

impl vstd::std_specs::ops::MulSpecImpl<Fr> for G1 {
    open spec fn obeys_mul_spec() -> bool {
        false
    }

    open spec fn mul_req(self, rhs: Fr) -> bool {
        rhs.wf()
    }

    open spec fn mul_spec(self, rhs: Fr) -> G1 {
        vstd::pervasive::arbitrary()
    }
}

impl core::ops::Mul<Fr> for G1 {
    type Output = G1;

    fn mul(self, rhs: Fr) -> (r: G1)
        ensures
            r@ == g1_mul_spec(self@, rhs.value()),
    {
        self.mul_scalar(&rhs)
    }
}

} // verus!
