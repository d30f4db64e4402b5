//! Inner-product arguments: for a public vector `a`, a commitment `C_x` to a
//! vector `x` and a commitment `C_y` to a scalar `y`, they show `y = <x, a>`.
//!
//! [`LinearInnerProductProof`] sends a masked copy of `x`, so its size is
//! linear in `|x|`. [`InnerProductProof`] halves the statement in each round
//! and sends two points per round.

use crate::bytes::le_bytes;
use crate::curve::{
    fr_modulus, g1_add_spec, g1_mul_spec, lemma_fr_modulus, point_views, random_scalar,
    scalar_values, Bls12381FrConfig, Fr, G1,
};
use crate::helpers::{all_wf, dot_value, inner_product};
use crate::pedersen::{scalar_commit, vector_commit, ScalarPedersen, VectorPedersen};
use crate::sigma::{fr_after, fr_challenge, fr_lin, lin};
use crate::transcript::{frame, value_bytes, Transcript};
use crate::uni_poly::values_of;
use vstd::prelude::*;
use vstd::string::StringSliceAdditionalSpecFns;

verus! {

/// Each point framed under `label`, in order.
pub open spec fn point_frames(label: Seq<u8>, ps: Seq<Seq<u8>>) -> Seq<u8>
    decreases ps.len(),
{
    if ps.len() == 0 {
        Seq::empty()
    } else {
        point_frames(label, ps.drop_last()) + frame(label, ps.last())
    }
}

/// Each scalar framed under `label` by its canonical bytes, in order.
pub open spec fn scalar_frames(label: Seq<u8>, vs: Seq<int>) -> Seq<u8>
    decreases vs.len(),
{
    if vs.len() == 0 {
        Seq::empty()
    } else {
        scalar_frames(label, vs.drop_last()) + frame(
            label,
            value_bytes::<Bls12381FrConfig, 4>(vs.last()),
        )
    }
}

/// Absorbs each point under `label`.
pub(crate) fn append_points(transcript: &mut Transcript, label: &[u8], ps: &[G1])
    ensures
        final(transcript).absorbed() == old(transcript).absorbed() + point_frames(
            label@,
            point_views(ps@),
        ),
{
    let ghost state = transcript.absorbed();
    let mut i: usize = 0;
    proof {
        assert(point_views(ps@.take(0)) =~= Seq::<Seq<u8>>::empty());
        assert(state + point_frames(label@, Seq::<Seq<u8>>::empty()) =~= state);
    }
    while i < ps.len()
        invariant
            i <= ps.len(),
            transcript.absorbed() == state + point_frames(label@, point_views(ps@.take(i as int))),
        decreases ps.len() - i,
    {
        transcript.append_point(label, &ps[i]);
        proof {
            assert(point_views(ps@.take(i + 1)).drop_last() =~= point_views(ps@.take(i as int)));
            assert(state + point_frames(label@, point_views(ps@.take(i + 1))) =~= state
                + point_frames(label@, point_views(ps@.take(i as int))) + frame(label@, ps@[i as int]@));
        }
        i = i + 1;
    }
    proof {
        assert(ps@.take(ps.len() as int) =~= ps@);
    }
}

/// Absorbs each scalar under `label`.
pub(crate) fn append_scalars(transcript: &mut Transcript, label: &[u8], vs: &[Fr])
    requires
        all_wf(vs@),
    ensures
        final(transcript).absorbed() == old(transcript).absorbed() + scalar_frames(
            label@,
            values_of(vs@),
        ),
{
    let ghost state = transcript.absorbed();
    let mut i: usize = 0;
    proof {
        assert(values_of(vs@.take(0)) =~= Seq::<int>::empty());
        assert(state + scalar_frames(label@, Seq::<int>::empty()) =~= state);
    }
    while i < vs.len()
        invariant
            i <= vs.len(),
            all_wf(vs@),
            transcript.absorbed() == state + scalar_frames(label@, values_of(vs@.take(i as int))),
        decreases vs.len() - i,
    {
        transcript.append_field(label, &vs[i]);
        proof {
            assert(values_of(vs@.take(i + 1)).drop_last() =~= values_of(vs@.take(i as int)));
            assert(state + scalar_frames(label@, values_of(vs@.take(i + 1))) =~= state
                + scalar_frames(label@, values_of(vs@.take(i as int))) + frame(
                label@,
                value_bytes::<Bls12381FrConfig, 4>(values_of(vs@)[i as int]),
            ));
        }
        i = i + 1;
    }
    proof {
        assert(vs@.take(vs.len() as int) =~= vs@);
    }
}

/// The transcript after binding an inner-product statement: the length,
/// the keys, the public vector and both commitments.
pub open spec fn ipa_statement(
    state: Seq<u8>,
    vk: VectorPedersen,
    sk: ScalarPedersen,
    a: Seq<int>,
    cx: Seq<u8>,
    cy: Seq<u8>,
) -> Seq<u8> {
    state + frame("ipa-vector-length".spec_bytes(), le_bytes(a.len(), (usize::BITS / 8) as nat))
        + point_frames("ipa-vector-generator".spec_bytes(), point_views(vk.generators@)) + frame(
        "ipa-scalar-generator".spec_bytes(),
        sk.generator@,
    ) + frame("ipa-vector-blind-generator".spec_bytes(), vk.blind@) + frame(
        "ipa-scalar-blind-generator".spec_bytes(),
        sk.blind@,
    ) + scalar_frames("ipa-public-vector".spec_bytes(), a) + frame(
        "ipa-vector-commitment".spec_bytes(),
        cx,
    ) + frame("ipa-scalar-commitment".spec_bytes(), cy)
}

fn append_statement(
    transcript: &mut Transcript,
    vector_committer: &VectorPedersen,
    scalar_committer: &ScalarPedersen,
    public_vector: &[Fr],
    vector_commitment: &G1,
    scalar_commitment: &G1,
)
    requires
        all_wf(public_vector@),
    ensures
        final(transcript).absorbed() == ipa_statement(
            old(transcript).absorbed(),
            *vector_committer,
            *scalar_committer,
            values_of(public_vector@),
            vector_commitment@,
            scalar_commitment@,
        ),
{
    transcript.append_usize("ipa-vector-length".as_bytes(), public_vector.len());
    append_points(transcript, "ipa-vector-generator".as_bytes(), vector_committer.generators.as_slice());
    transcript.append_point("ipa-scalar-generator".as_bytes(), &scalar_committer.generator);
    transcript.append_point("ipa-vector-blind-generator".as_bytes(), &vector_committer.blind);
    transcript.append_point("ipa-scalar-blind-generator".as_bytes(), &scalar_committer.blind);
    append_scalars(transcript, "ipa-public-vector".as_bytes(), public_vector);
    transcript.append_point("ipa-vector-commitment".as_bytes(), vector_commitment);
    transcript.append_point("ipa-scalar-commitment".as_bytes(), scalar_commitment);
}

/// `<u, v> mod r` as a scalar value.
pub open spec fn fr_dot(u: Seq<Fr>, v: Seq<Fr>) -> nat {
    (dot_value(u, v) % (fr_modulus() as int)) as nat
}

/// The statement `C_x = Com(x; r_x)` and `C_y = Com(<x, a>; r_y)`.
pub open spec fn ipa_openings(
    vk: VectorPedersen,
    sk: ScalarPedersen,
    cx: Seq<u8>,
    cy: Seq<u8>,
    x: Seq<Fr>,
    vector_blind: Fr,
    a: Seq<Fr>,
    scalar_blind: Fr,
) -> bool {
    &&& cx == vector_commit(point_views(vk.mul_bases@), vk.blind@, scalar_values(x), vector_blind.value())
    &&& cy == scalar_commit(sk.generator@, sk.blind@, fr_dot(x, a), scalar_blind.value())
}

/// The linear-size proof of `y = <x, a>`: `delta = Com(d; r_delta)`,
/// `beta = Com(<d, a>; r_beta)` and the openings `z = c x + d`,
/// `z_delta = c r_x + r_delta`, `z_beta = c r_y + r_beta`.
#[derive(Clone, Debug)]
pub struct LinearInnerProductProof {
    pub delta: G1,
    pub beta: G1,
    pub z: Vec<Fr>,
    pub z_delta: Fr,
    pub z_beta: Fr,
}

/// The transcript once the statement, `delta` and `beta` are absorbed.
pub open spec fn lipa_absorbed(
    state: Seq<u8>,
    vk: VectorPedersen,
    sk: ScalarPedersen,
    a: Seq<int>,
    cx: Seq<u8>,
    cy: Seq<u8>,
    delta: Seq<u8>,
    beta: Seq<u8>,
) -> Seq<u8> {
    ipa_statement(state, vk, sk, a, cx, cy) + frame("lipa-delta".spec_bytes(), delta) + frame(
        "lipa-beta".spec_bytes(),
        beta,
    )
}

/// The challenge of a linear proof.
pub open spec fn lipa_challenge(
    state: Seq<u8>,
    vk: VectorPedersen,
    sk: ScalarPedersen,
    a: Seq<int>,
    cx: Seq<u8>,
    cy: Seq<u8>,
    delta: Seq<u8>,
    beta: Seq<u8>,
) -> nat {
    fr_challenge(lipa_absorbed(state, vk, sk, a, cx, cy, delta, beta), "lipa-challenge".spec_bytes())
}

/// The transcript after a linear proof.
pub open spec fn lipa_after(
    state: Seq<u8>,
    vk: VectorPedersen,
    sk: ScalarPedersen,
    a: Seq<int>,
    cx: Seq<u8>,
    cy: Seq<u8>,
    delta: Seq<u8>,
    beta: Seq<u8>,
) -> Seq<u8> {
    fr_after(lipa_absorbed(state, vk, sk, a, cx, cy, delta, beta), "lipa-challenge".spec_bytes())
}

/// The shape both sides need: a non-empty public vector, one generator per
/// entry, and multiplication bases for every generator.
pub open spec fn lipa_shape(vk: VectorPedersen, n: nat) -> bool {
    &&& n > 0
    &&& vk.generators.len() == n
    &&& vk.mul_bases.len() >= n
}

/// The proof that the masks `d`, `r_delta`, `r_beta` and the challenge `c` give.
pub open spec fn lipa_response(
    proof: LinearInnerProductProof,
    vk: VectorPedersen,
    sk: ScalarPedersen,
    x: Seq<Fr>,
    vector_blind: Fr,
    a: Seq<Fr>,
    scalar_blind: Fr,
    d: Seq<Fr>,
    r_delta: nat,
    r_beta: nat,
    c: nat,
) -> bool {
    &&& proof.delta@ == vector_commit(point_views(vk.mul_bases@), vk.blind@, scalar_values(d), r_delta)
    &&& proof.beta@ == scalar_commit(sk.generator@, sk.blind@, fr_dot(d, a), r_beta)
    &&& proof.z.len() == x.len()
    &&& forall|i: int|
        0 <= i < x.len() ==> (#[trigger] proof.z@[i]).value() == fr_lin(
            d[i].value(),
            c,
            x[i].value() as int,
        )
    &&& proof.z_delta.value() == fr_lin(r_delta, c, vector_blind.value() as int)
    &&& proof.z_beta.value() == fr_lin(r_beta, c, scalar_blind.value() as int)
}

/// What the verifier of a linear proof computes: `(accepted, transcript)`,
/// for the public vector `a` given by its values.
pub open spec fn lipa_verify_spec(
    state: Seq<u8>,
    proof: LinearInnerProductProof,
    vk: VectorPedersen,
    sk: ScalarPedersen,
    a: Seq<int>,
    cx: Seq<u8>,
    cy: Seq<u8>,
) -> (bool, Seq<u8>) {
    if !(a.len() > 0 && vk.generators.len() == a.len() && proof.z.len() == a.len()) {
        (false, state)
    } else {
        let c = lipa_challenge(state, vk, sk, a, cx, cy, proof.delta@, proof.beta@);
        (
            vector_commit(point_views(vk.mul_bases@), vk.blind@, scalar_values(proof.z@), proof.z_delta.value())
                == g1_add_spec(g1_mul_spec(cx, c), proof.delta@) && scalar_commit(
                sk.generator@,
                sk.blind@,
                (int_dot(values_of(proof.z@), a) % (fr_modulus() as int)) as nat,
                proof.z_beta.value(),
            ) == g1_add_spec(g1_mul_spec(cy, c), proof.beta@),
            lipa_after(state, vk, sk, a, cx, cy, proof.delta@, proof.beta@),
        )
    }
}

/// The proof is the response, for some masks `d`, `r_delta` and `r_beta`,
/// to the challenge drawn from `state` once the statement and the mask
/// commitments are absorbed.
#[verifier::opaque]
pub open spec fn lipa_proves(
    proof: LinearInnerProductProof,
    vk: VectorPedersen,
    sk: ScalarPedersen,
    cx: Seq<u8>,
    cy: Seq<u8>,
    x: Seq<Fr>,
    vector_blind: Fr,
    a: Seq<Fr>,
    scalar_blind: Fr,
    state: Seq<u8>,
) -> bool {
    exists|d: Seq<Fr>, r_delta: nat, r_beta: nat|
        d.len() == a.len() && all_wf(d) && r_delta < fr_modulus() && r_beta < fr_modulus()
            && #[trigger] lipa_response(
            proof,
            vk,
            sk,
            x,
            vector_blind,
            a,
            scalar_blind,
            d,
            r_delta,
            r_beta,
            lipa_challenge(state, vk, sk, values_of(a), cx, cy, proof.delta@, proof.beta@),
        )
}

impl LinearInnerProductProof {
    pub open spec fn proof_wf(&self) -> bool {
        &&& all_wf(self.z@)
        &&& self.z_delta.wf()
        &&& self.z_beta.wf()
    }

    /// The proof with the masks `d`, `r_delta` and `r_beta`. It is not
    /// defined for a malformed shape or commitments that do not open as given.
    pub fn prove_with(
        vector_committer: &VectorPedersen,
        scalar_committer: &ScalarPedersen,
        vector_commitment: &G1,
        scalar_commitment: &G1,
        x: &[Fr],
        vector_blind: &Fr,
        a: &[Fr],
        scalar_blind: &Fr,
        d: &[Fr],
        r_delta: &Fr,
        r_beta: &Fr,
        transcript: &mut Transcript,
    ) -> (proof: Self)
        requires
            lipa_shape(*vector_committer, a.len() as nat),
            x.len() == a.len(),
            d.len() == a.len(),
            all_wf(x@),
            all_wf(a@),
            all_wf(d@),
            vector_blind.wf(),
            scalar_blind.wf(),
            r_delta.wf(),
            r_beta.wf(),
            ipa_openings(
                *vector_committer,
                *scalar_committer,
                vector_commitment@,
                scalar_commitment@,
                x@,
                *vector_blind,
                a@,
                *scalar_blind,
            ),
        ensures
            proof.proof_wf(),
            lipa_response(
                proof,
                *vector_committer,
                *scalar_committer,
                x@,
                *vector_blind,
                a@,
                *scalar_blind,
                d@,
                r_delta.value(),
                r_beta.value(),
                lipa_challenge(
                    old(transcript).absorbed(),
                    *vector_committer,
                    *scalar_committer,
                    values_of(a@),
                    vector_commitment@,
                    scalar_commitment@,
                    proof.delta@,
                    proof.beta@,
                ),
            ),
            final(transcript).absorbed() == lipa_after(
                old(transcript).absorbed(),
                *vector_committer,
                *scalar_committer,
                values_of(a@),
                vector_commitment@,
                scalar_commitment@,
                proof.delta@,
                proof.beta@,
            ),
    {
        append_statement(transcript, vector_committer, scalar_committer, a, vector_commitment, scalar_commitment);
        let delta = vector_committer.commit(d, r_delta);
        let da = inner_product(d, a);
        let beta = scalar_committer.commit(&da, r_beta);
        proof {
            lemma_fr_modulus();
        }
        transcript.append_point("lipa-delta".as_bytes(), &delta);
        transcript.append_point("lipa-beta".as_bytes(), &beta);
        let c = transcript.challenge_field::<Bls12381FrConfig, 4>("lipa-challenge".as_bytes());
        let mut z: Vec<Fr> = Vec::new();
        let mut i: usize = 0;
        while i < x.len()
            invariant
                x.len() == d.len(),
                all_wf(x@),
                all_wf(d@),
                c.wf(),
                i <= x.len(),
                z.len() == i,
                all_wf(z@),
                forall|k: int|
                    0 <= k < i ==> (#[trigger] z@[k]).value() == fr_lin(
                        d@[k].value(),
                        c.value(),
                        x@[k].value() as int,
                    ),
            decreases x.len() - i,
        {
            z.push(lin(d[i], c, x[i]));
            i = i + 1;
        }
        let z_delta = lin(*r_delta, c, *vector_blind);
        let z_beta = lin(*r_beta, c, *scalar_blind);
        LinearInnerProductProof { delta, beta, z, z_delta, z_beta }
    }

    /// The proof with its masks drawn from `rng`: first the entries of `d`,
    /// then `r_delta` and `r_beta`.
    pub fn prove(
        vector_committer: &VectorPedersen,
        scalar_committer: &ScalarPedersen,
        vector_commitment: &G1,
        scalar_commitment: &G1,
        x: &[Fr],
        vector_blind: &Fr,
        a: &[Fr],
        scalar_blind: &Fr,
        transcript: &mut Transcript,
        rng: &mut ark_std::rand::rngs::StdRng,
    ) -> (proof: Self)
        requires
            lipa_shape(*vector_committer, a.len() as nat),
            x.len() == a.len(),
            all_wf(x@),
            all_wf(a@),
            vector_blind.wf(),
            scalar_blind.wf(),
            ipa_openings(
                *vector_committer,
                *scalar_committer,
                vector_commitment@,
                scalar_commitment@,
                x@,
                *vector_blind,
                a@,
                *scalar_blind,
            ),
        ensures
            proof.proof_wf(),
            proof.z.len() == a.len(),
            lipa_proves(
                proof,
                *vector_committer,
                *scalar_committer,
                vector_commitment@,
                scalar_commitment@,
                x@,
                *vector_blind,
                a@,
                *scalar_blind,
                old(transcript).absorbed(),
            ),
            final(transcript).absorbed() == lipa_after(
                old(transcript).absorbed(),
                *vector_committer,
                *scalar_committer,
                values_of(a@),
                vector_commitment@,
                scalar_commitment@,
                proof.delta@,
                proof.beta@,
            ),
    {
        let mut d: Vec<Fr> = Vec::new();
        let mut i: usize = 0;
        while i < x.len()
            invariant
                i <= x.len(),
                d.len() == i,
                all_wf(d@),
            decreases x.len() - i,
        {
            d.push(random_scalar(rng));
            i = i + 1;
        }
        let r_delta = random_scalar(rng);
        let r_beta = random_scalar(rng);
        let proof = Self::prove_with(
            vector_committer,
            scalar_committer,
            vector_commitment,
            scalar_commitment,
            x,
            vector_blind,
            a,
            scalar_blind,
            d.as_slice(),
            &r_delta,
            &r_beta,
            transcript,
        );
        proof {
            lemma_fr_modulus();
            r_delta.lemma_value_bound();
            r_beta.lemma_value_bound();
            reveal(lipa_proves);
        }
        proof
    }

    /// `prove`, or `None` where the statement is refused.
    pub fn try_prove(
        vector_committer: &VectorPedersen,
        scalar_committer: &ScalarPedersen,
        vector_commitment: &G1,
        scalar_commitment: &G1,
        x: &[Fr],
        vector_blind: &Fr,
        a: &[Fr],
        scalar_blind: &Fr,
        transcript: &mut Transcript,
        rng: &mut ark_std::rand::rngs::StdRng,
    ) -> (r: Option<Self>)
        requires
            all_wf(x@),
            all_wf(a@),
            vector_blind.wf(),
            scalar_blind.wf(),
        ensures
            r is Some <==> (lipa_shape(*vector_committer, a.len() as nat) && x.len() == a.len()
                && ipa_openings(
                *vector_committer,
                *scalar_committer,
                vector_commitment@,
                scalar_commitment@,
                x@,
                *vector_blind,
                a@,
                *scalar_blind,
            )),
            r is None ==> final(transcript).absorbed() == old(transcript).absorbed(),
            r matches Some(proof) ==> {
                &&& proof.proof_wf()
                &&& proof.z.len() == a.len()
                &&& lipa_proves(
                    proof,
                    *vector_committer,
                    *scalar_committer,
                    vector_commitment@,
                    scalar_commitment@,
                    x@,
                    *vector_blind,
                    a@,
                    *scalar_blind,
                    old(transcript).absorbed(),
                )
                &&& final(transcript).absorbed() == lipa_after(
                    old(transcript).absorbed(),
                    *vector_committer,
                    *scalar_committer,
                    values_of(a@),
                    vector_commitment@,
                    scalar_commitment@,
                    proof.delta@,
                    proof.beta@,
                )
            },
    {
        if a.len() == 0 || vector_committer.generators.len() != a.len()
            || vector_committer.mul_bases.len() < a.len() || x.len() != a.len() {
            return None;
        }
        let cx = vector_committer.commit(x, vector_blind);
        let y = inner_product(x, a);
        let cy = scalar_committer.commit(&y, scalar_blind);
        proof {
            lemma_fr_modulus();
        }
        if !cx.equals(vector_commitment) || !cy.equals(scalar_commitment) {
            return None;
        }
        let proof = Self::prove(
            vector_committer,
            scalar_committer,
            vector_commitment,
            scalar_commitment,
            x,
            vector_blind,
            a,
            scalar_blind,
            transcript,
            rng,
        );
        Some(proof)
    }

    /// Checks `Com(z; z_delta) = c C_x + delta` and
    /// `Com(<z, a>; z_beta) = c C_y + beta`. A malformed shape is rejected
    /// before anything is absorbed.
    pub fn verify(
        &self,
        vector_committer: &VectorPedersen,
        scalar_committer: &ScalarPedersen,
        public_vector: &[Fr],
        vector_commitment: &G1,
        scalar_commitment: &G1,
        transcript: &mut Transcript,
    ) -> (r: bool)
        requires
            self.proof_wf(),
            all_wf(public_vector@),
            vector_committer.mul_bases.len() >= vector_committer.generators.len(),
        ensures
            ({
                let v = lipa_verify_spec(
                    old(transcript).absorbed(),
                    *self,
                    *vector_committer,
                    *scalar_committer,
                    values_of(public_vector@),
                    vector_commitment@,
                    scalar_commitment@,
                );
                r == v.0 && final(transcript).absorbed() == v.1
            }),
    {
        if public_vector.len() == 0 || vector_committer.generators.len() != public_vector.len()
            || self.z.len() != public_vector.len() {
            return false;
        }
        append_statement(
            transcript,
            vector_committer,
            scalar_committer,
            public_vector,
            vector_commitment,
            scalar_commitment,
        );
        transcript.append_point("lipa-delta".as_bytes(), &self.delta);
        transcript.append_point("lipa-beta".as_bytes(), &self.beta);
        let c = transcript.challenge_field::<Bls12381FrConfig, 4>("lipa-challenge".as_bytes());
        let lhs = vector_committer.commit(self.z.as_slice(), &self.z_delta);
        let rhs = vector_commitment.mul_scalar(&c).add_point(&self.delta);
        if !lhs.equals(&rhs) {
            return false;
        }
        let za = inner_product(self.z.as_slice(), public_vector);
        proof {
            lemma_fr_modulus();
            lemma_dot_values(self.z@, public_vector@);
        }
        let lhs2 = scalar_committer.commit(&za, &self.z_beta);
        let rhs2 = scalar_commitment.mul_scalar(&c).add_point(&self.beta);
        lhs2.equals(&rhs2)
    }
}


/// Whether `n` is a power of two.
pub open spec fn is_pow2(n: nat) -> bool
    decreases n,
{
    if n == 0 {
        false
    } else if n == 1 {
        true
    } else {
        n % 2 == 0 && is_pow2(n / 2)
    }
}

/// `log2 n` for a power of two `n`.
pub open spec fn log2_of(n: nat) -> nat
    decreases n,
{
    if n <= 1 {
        0
    } else {
        1 + log2_of(n / 2)
    }
}

/// Whether `n` is a power of two, and then its logarithm.
pub fn pow2_shape(n: usize) -> (r: (bool, usize))
    ensures
        r.0 == is_pow2(n as nat),
        r.0 ==> r.1 == log2_of(n as nat),
{
    let mut m = n;
    let mut k: usize = 0;
    while m > 1 && m % 2 == 0
        invariant
            m <= n,
            k <= n,
            n > 0 ==> m > 0,
            is_pow2(n as nat) == is_pow2(m as nat),
            is_pow2(n as nat) ==> log2_of(n as nat) == k + log2_of(m as nat),
            n > 0 ==> k + m <= n,
        decreases m,
    {
        m = m / 2;
        k = k + 1;
    }
    (m == 1, k)
}

/// The largest number of challenge draws before the search gives up.
pub open spec fn max_draws() -> nat {
    0xffff_ffff_ffff_ffffnat
}

/// The label of the inner-product challenges.
pub open spec fn ipa_challenge_label() -> Seq<u8> {
    "ipa-challenge".spec_bytes()
}

/// The transcript after `k` challenge draws.
pub open spec fn draw_state(state: Seq<u8>, k: nat) -> Seq<u8>
    decreases k,
{
    if k == 0 {
        state
    } else {
        fr_after(draw_state(state, (k - 1) as nat), ipa_challenge_label())
    }
}

/// The value of the `k`-th challenge draw.
pub open spec fn draw_value(state: Seq<u8>, k: nat) -> nat {
    fr_challenge(draw_state(state, k), ipa_challenge_label())
}

/// The `k`-th draw is the first non-zero one, within the bound.
pub open spec fn first_nonzero_at(state: Seq<u8>, k: nat) -> bool {
    &&& k < max_draws()
    &&& draw_value(state, k) != 0
    &&& forall|j: nat| j < k ==> #[trigger] draw_value(state, j) == 0
}

/// Some draw within the bound is non-zero.
pub open spec fn search_ok(state: Seq<u8>) -> bool {
    exists|k: nat| first_nonzero_at(state, k)
}

/// The index of the first non-zero draw.
pub open spec fn search_index(state: Seq<u8>) -> nat {
    choose|k: nat| first_nonzero_at(state, k)
}

/// The first non-zero challenge.
pub open spec fn nonzero_challenge(state: Seq<u8>) -> nat {
    draw_value(state, search_index(state))
}

/// The transcript after drawing the first non-zero challenge.
pub open spec fn nonzero_after(state: Seq<u8>) -> Seq<u8> {
    draw_state(state, search_index(state) + 1)
}

proof fn lemma_first_nonzero_unique(state: Seq<u8>, k: nat)
    requires
        first_nonzero_at(state, k),
    ensures
        search_ok(state),
        search_index(state) == k,
{
    let j = search_index(state);
    assert(first_nonzero_at(state, j));
    if j < k {
        assert(draw_value(state, j) == 0);
    }
    if k < j {
        assert(draw_value(state, k) == 0);
    }
}

/// Draws challenges until one is non-zero. A zero challenge is absorbed
/// and the draw repeated; after the bound the search gives up.
fn challenge_nonzero(transcript: &mut Transcript) -> (r: Option<Fr>)
    ensures
        r is Some <==> search_ok(old(transcript).absorbed()),
        r matches Some(c) ==> c.wf() && c.value() == nonzero_challenge(old(transcript).absorbed())
            && final(transcript).absorbed() == nonzero_after(old(transcript).absorbed()),
        r is None ==> final(transcript).absorbed() == draw_state(old(transcript).absorbed(), max_draws()),
{
    let ghost state = transcript.absorbed();
    let mut k: u64 = 0;
    while k < 0xffff_ffff_ffff_ffffu64
        invariant
            state == old(transcript).absorbed(),
            transcript.absorbed() == draw_state(state, k as nat),
            forall|j: nat| j < k ==> #[trigger] draw_value(state, j) == 0,
        decreases 0xffff_ffff_ffff_ffffu64 - k,
    {
        let c = transcript.challenge_field::<Bls12381FrConfig, 4>("ipa-challenge".as_bytes());
        if !c.is_zero() {
            proof {
                assert(first_nonzero_at(state, k as nat));
                lemma_first_nonzero_unique(state, k as nat);
            }
            return Some(c);
        }
        k = k + 1;
    }
    proof {
        assert forall|j: nat| !first_nonzero_at(state, j) by {
            if j < max_draws() {
                assert(draw_value(state, j) == 0);
            }
        }
    }
    None
}

/// `(c * c) mod r`.
pub open spec fn fr_sq(c: nat) -> nat {
    (c * c) % fr_modulus()
}

/// The inverse `c^(r-2) mod r` that the field computes.
pub open spec fn fr_inv(c: nat) -> nat {
    (vstd::arithmetic::power::pow(c as int, (fr_modulus() - 2) as nat) % (fr_modulus() as int)) as nat
}

/// One fold of values: `v_lo * left + v_hi * right`, reduced.
pub open spec fn fold_ints(v: Seq<int>, left: nat, right: nat) -> Seq<int> {
    Seq::new(
        v.len() / 2,
        |i: int| (v[i] * left + v[i + v.len() / 2] * right) % (fr_modulus() as int),
    )
}

/// One fold of points: `left * g_lo + right * g_hi`.
pub open spec fn fold_pts(g: Seq<Seq<u8>>, left: nat, right: nat) -> Seq<Seq<u8>> {
    Seq::new(
        g.len() / 2,
        |i: int| g1_add_spec(g1_mul_spec(g[i], left), g1_mul_spec(g[i + g.len() / 2], right)),
    )
}

/// `left * g_lo + right * g_hi` for points.
fn fold_points(ps: &[G1], left: &Fr, right: &Fr) -> (r: Vec<G1>)
    requires
        ps.len() % 2 == 0,
        left.wf(),
        right.wf(),
    ensures
        r.len() == ps.len() / 2,
        point_views(r@) == fold_pts(point_views(ps@), left.value(), right.value()),
{
    let half = ps.len() / 2;
    let mut out: Vec<G1> = Vec::new();
    let mut i: usize = 0;
    while i < half
        invariant
            half == ps.len() / 2,
            left.wf(),
            right.wf(),
            i <= half,
            out.len() == i,
            forall|k: int|
                0 <= k < i ==> (#[trigger] out@[k])@ == g1_add_spec(
                    g1_mul_spec(ps@[k]@, left.value()),
                    g1_mul_spec(ps@[k + half]@, right.value()),
                ),
        decreases half - i,
    {
        let p = ps[i].mul_scalar(left).add_point(&ps[i + half].mul_scalar(right));
        out.push(p);
        i = i + 1;
    }
    proof {
        assert(point_views(out@) =~= fold_pts(point_views(ps@), left.value(), right.value()));
    }
    out
}

/// The verifier's state after a round: whether the search succeeded, the
/// transcript, the folded statement, public vector and generators.
#[verifier::opaque]
pub open spec fn ipa_verifier_round(
    prev: (bool, Seq<u8>, Seq<u8>, Seq<int>, Seq<Seq<u8>>),
    minus: Seq<u8>,
    plus: Seq<u8>,
) -> (bool, Seq<u8>, Seq<u8>, Seq<int>, Seq<Seq<u8>>) {
    let t = prev.1 + frame("ipa-minus".spec_bytes(), minus) + frame("ipa-plus".spec_bytes(), plus);
    if !search_ok(t) {
        (false, draw_state(t, max_draws()), prev.2, prev.3, prev.4)
    } else {
        let c = nonzero_challenge(t);
        let ci = fr_inv(c);
        (
            true,
            nonzero_after(t),
            g1_add_spec(g1_add_spec(g1_mul_spec(minus, fr_sq(c)), prev.2), g1_mul_spec(plus, fr_sq(ci))),
            fold_ints(prev.3, ci, c),
            fold_pts(prev.4, ci, c),
        )
    }
}

/// The verifier's reduction over the rounds given by `minus` and `plus`,
/// stopping at the first failed challenge search.
#[verifier::opaque]
pub open spec fn ipa_verify_rounds(
    t: Seq<u8>,
    minus: Seq<Seq<u8>>,
    plus: Seq<Seq<u8>>,
    statement: Seq<u8>,
    a: Seq<int>,
    gens: Seq<Seq<u8>>,
) -> (bool, Seq<u8>, Seq<u8>, Seq<int>, Seq<Seq<u8>>)
    decreases minus.len(),
{
    if minus.len() == 0 {
        (true, t, statement, a, gens)
    } else {
        let prev = ipa_verify_rounds(
            t,
            minus.drop_last(),
            plus.take(minus.len() - 1),
            statement,
            a,
            gens,
        );
        if !prev.0 {
            prev
        } else {
            ipa_verifier_round(prev, minus.last(), plus[minus.len() - 1])
        }
    }
}

/// The logarithmic-size proof: two points per round, then `delta`, `beta`
/// and the two responses.
#[derive(Clone, Debug)]
pub struct InnerProductProof {
    pub minus: Vec<G1>,
    pub plus: Vec<G1>,
    pub delta: G1,
    pub beta: G1,
    pub z1: Fr,
    pub z2: Fr,
}

/// The statement's shape: a non-empty power-of-two length, one generator
/// per entry, and one blinding generator shared by both keys.
pub open spec fn ipa_shape(vk: VectorPedersen, sk: ScalarPedersen, n: nat) -> bool {
    &&& n > 0
    &&& is_pow2(n)
    &&& vk.generators.len() == n
    &&& vk.blind@ == sk.blind@
}

/// What the verifier computes: `(accepted, transcript)`.
pub open spec fn ipa_verify_spec(
    state: Seq<u8>,
    proof: InnerProductProof,
    vk: VectorPedersen,
    sk: ScalarPedersen,
    a: Seq<int>,
    cx: Seq<u8>,
    cy: Seq<u8>,
) -> (bool, Seq<u8>) {
    if !(ipa_shape(vk, sk, a.len()) && proof.minus.len() == log2_of(a.len())
        && proof.plus.len() == proof.minus.len()) {
        (false, state)
    } else {
        let rounds = ipa_verify_rounds(
            ipa_statement(state, vk, sk, a, cx, cy),
            point_views(proof.minus@),
            point_views(proof.plus@),
            g1_add_spec(cx, cy),
            a,
            point_views(vk.generators@),
        );
        if !rounds.0 {
            (false, rounds.1)
        } else {
            let t = rounds.1 + frame("ipa-delta".spec_bytes(), proof.delta@) + frame(
                "ipa-beta".spec_bytes(),
                proof.beta@,
            );
            if !search_ok(t) {
                (false, draw_state(t, max_draws()))
            } else {
                let c = nonzero_challenge(t);
                let a0 = rounds.3[0] as nat;
                let lhs = g1_add_spec(
                    g1_mul_spec(g1_add_spec(g1_mul_spec(rounds.2, c), proof.beta@), a0),
                    proof.delta@,
                );
                let rhs = g1_add_spec(
                    g1_mul_spec(
                        g1_add_spec(rounds.4[0], g1_mul_spec(sk.generator@, a0)),
                        proof.z1.value(),
                    ),
                    g1_mul_spec(vk.blind@, proof.z2.value()),
                );
                (lhs == rhs, nonzero_after(t))
            }
        }
    }
}


/// Halving a power of two above one gives a power of two with one less in
/// its logarithm; a power of two with logarithm zero is one.
proof fn lemma_pow2_halve(m: nat)
    requires
        is_pow2(m),
    ensures
        log2_of(m) == 0 ==> m == 1,
        log2_of(m) > 0 ==> m % 2 == 0 && m >= 2 && is_pow2(m / 2) && log2_of(m / 2) == log2_of(m)
            - 1,
{
}

/// A successful search draws a non-zero challenge.
proof fn lemma_search_nonzero(t: Seq<u8>)
    requires
        search_ok(t),
    ensures
        nonzero_challenge(t) != 0,
{
    let k = choose|k: nat| first_nonzero_at(t, k);
    assert(first_nonzero_at(t, k));
    lemma_first_nonzero_unique(t, k);
}

/// One more round of the verifier's reduction.
proof fn lemma_verify_step(
    t0: Seq<u8>,
    mv: Seq<Seq<u8>>,
    pv: Seq<Seq<u8>>,
    s0: Seq<u8>,
    a0: Seq<int>,
    g0: Seq<Seq<u8>>,
    i: nat,
)
    requires
        i < mv.len(),
        mv.len() == pv.len(),
    ensures
        ({
            let prev = ipa_verify_rounds(t0, mv.take(i as int), pv.take(i as int), s0, a0, g0);
            ipa_verify_rounds(t0, mv.take(i + 1int), pv.take(i + 1int), s0, a0, g0) == if !prev.0 {
                prev
            } else {
                ipa_verifier_round(prev, mv[i as int], pv[i as int])
            }
        }),
{
    reveal(ipa_verify_rounds);
    assert(mv.take(i + 1int).drop_last() =~= mv.take(i as int));
    assert(pv.take(i + 1int).take(i as int) =~= pv.take(i as int));
}

/// A round whose challenge search succeeds folds everything with the
/// challenge and its inverse.
proof fn lemma_round_ok(
    prev: (bool, Seq<u8>, Seq<u8>, Seq<int>, Seq<Seq<u8>>),
    minus: Seq<u8>,
    plus: Seq<u8>,
)
    requires
        search_ok(prev.1 + frame("ipa-minus".spec_bytes(), minus) + frame("ipa-plus".spec_bytes(), plus)),
    ensures
        ({
            let t = prev.1 + frame("ipa-minus".spec_bytes(), minus) + frame("ipa-plus".spec_bytes(), plus);
            let c = nonzero_challenge(t);
            let ci = fr_inv(c);
            ipa_verifier_round(prev, minus, plus) == (
                true,
                nonzero_after(t),
                g1_add_spec(g1_add_spec(g1_mul_spec(minus, fr_sq(c)), prev.2), g1_mul_spec(plus, fr_sq(ci))),
                fold_ints(prev.3, ci, c),
                fold_pts(prev.4, ci, c),
            )
        }),
{
    reveal(ipa_verifier_round);
}

/// A round whose challenge search fails stops the reduction.
proof fn lemma_round_fail(
    prev: (bool, Seq<u8>, Seq<u8>, Seq<int>, Seq<Seq<u8>>),
    minus: Seq<u8>,
    plus: Seq<u8>,
)
    requires
        !search_ok(prev.1 + frame("ipa-minus".spec_bytes(), minus) + frame("ipa-plus".spec_bytes(), plus)),
    ensures
        !ipa_verifier_round(prev, minus, plus).0,
        ipa_verifier_round(prev, minus, plus).1 == draw_state(
            prev.1 + frame("ipa-minus".spec_bytes(), minus) + frame("ipa-plus".spec_bytes(), plus),
            max_draws(),
        ),
{
    reveal(ipa_verifier_round);
}

/// One round of the verifier: absorbs the two points, draws the challenge
/// and folds the statement, the public vector and the generators.
fn verifier_fold_round(
    transcript: &mut Transcript,
    minus: &G1,
    plus: &G1,
    statement: &G1,
    a: &Vec<Fr>,
    generators: &Vec<G1>,
    Ghost(prev): Ghost<(bool, Seq<u8>, Seq<u8>, Seq<int>, Seq<Seq<u8>>)>,
) -> (r: Option<(G1, Vec<Fr>, Vec<G1>)>)
    requires
        old(transcript).absorbed() == prev.1,
        statement@ == prev.2,
        values_of(a@) == prev.3,
        point_views(generators@) == prev.4,
        a.len() == generators.len(),
        a.len() % 2 == 0,
        all_wf(a@),
    ensures
        ({
            let next = ipa_verifier_round(prev, minus@, plus@);
            &&& (r is Some <==> next.0)
            &&& final(transcript).absorbed() == next.1
            &&& r matches Some(out) ==> {
                &&& out.0@ == next.2
                &&& values_of(out.1@) == next.3
                &&& point_views(out.2@) == next.4
                &&& all_wf(out.1@)
                &&& out.1.len() == a.len() / 2
                &&& out.2.len() == a.len() / 2
            }
        }),
{
    transcript.append_point("ipa-minus".as_bytes(), minus);
    transcript.append_point("ipa-plus".as_bytes(), plus);
    let ghost t1 = transcript.absorbed();
    let c = match challenge_nonzero(transcript) {
        Some(c) => c,
        None => {
            proof {
                lemma_round_fail(prev, minus@, plus@);
            }
            return None;
        },
    };
    proof {
        lemma_search_nonzero(t1);
        lemma_round_ok(prev, minus@, plus@);
        lemma_fr_modulus();
    }
    let c_inv = match c.inverse() {
        Some(ci) => ci,
        None => {
            return None;
        },
    };
    let folded = minus.mul_scalar(&c.square()).add_point(statement).add_point(
        &plus.mul_scalar(&c_inv.square()),
    );
    let next_a = crate::helpers::fold_halves(a.as_slice(), c_inv, c);
    let next_g = fold_points(generators.as_slice(), &c_inv, &c);
    proof {
        assert(values_of(next_a@) =~= fold_ints(values_of(a@), c_inv.value(), c.value()));
    }
    Some((folded, next_a, next_g))
}

/// The reduction before any round.
proof fn lemma_verify_base(
    t0: Seq<u8>,
    mv: Seq<Seq<u8>>,
    pv: Seq<Seq<u8>>,
    s0: Seq<u8>,
    a0: Seq<int>,
    g0: Seq<Seq<u8>>,
)
    ensures
        ipa_verify_rounds(t0, mv.take(0), pv.take(0), s0, a0, g0) == (true, t0, s0, a0, g0),
{
    reveal(ipa_verify_rounds);
}

/// Once a round fails, the later rounds change nothing.
proof fn lemma_verify_stuck(
    t0: Seq<u8>,
    mv: Seq<Seq<u8>>,
    pv: Seq<Seq<u8>>,
    s0: Seq<u8>,
    a0: Seq<int>,
    g0: Seq<Seq<u8>>,
    k: nat,
    m: nat,
)
    requires
        k <= m <= mv.len(),
        mv.len() == pv.len(),
        !ipa_verify_rounds(t0, mv.take(k as int), pv.take(k as int), s0, a0, g0).0,
    ensures
        ipa_verify_rounds(t0, mv.take(m as int), pv.take(m as int), s0, a0, g0) == ipa_verify_rounds(
            t0,
            mv.take(k as int),
            pv.take(k as int),
            s0,
            a0,
            g0,
        ),
    decreases m - k,
{
    if k < m {
        lemma_verify_stuck(t0, mv, pv, s0, a0, g0, k, (m - 1) as nat);
        lemma_verify_step(t0, mv, pv, s0, a0, g0, (m - 1) as nat);
    }
}

impl InnerProductProof {
    pub open spec fn proof_wf(&self) -> bool {
        self.z1.wf() && self.z2.wf()
    }

    /// Replays the reduction of Figure 7 and checks Equation (14):
    /// `a (c U + beta) + delta = z1 (g + a G) + z2 H` on the folded values.
    pub fn verify(
        &self,
        vector_committer: &VectorPedersen,
        scalar_committer: &ScalarPedersen,
        public_vector: &[Fr],
        vector_commitment: &G1,
        scalar_commitment: &G1,
        transcript: &mut Transcript,
    ) -> (r: bool)
        requires
            self.proof_wf(),
            all_wf(public_vector@),
        ensures
            ({
                let v = ipa_verify_spec(
                    old(transcript).absorbed(),
                    *self,
                    *vector_committer,
                    *scalar_committer,
                    values_of(public_vector@),
                    vector_commitment@,
                    scalar_commitment@,
                );
                r == v.0 && final(transcript).absorbed() == v.1
            }),
    {
        let n = public_vector.len();
        let (pow2, log_n) = pow2_shape(n);
        if n == 0 || !pow2 || vector_committer.generators.len() != n
            || !vector_committer.blind.equals(&scalar_committer.blind)
            || self.minus.len() != log_n || self.plus.len() != self.minus.len() {
            return false;
        }
        append_statement(
            transcript,
            vector_committer,
            scalar_committer,
            public_vector,
            vector_commitment,
            scalar_commitment,
        );
        let ghost t0 = transcript.absorbed();
        let ghost mv = point_views(self.minus@);
        let ghost pv = point_views(self.plus@);
        let ghost a0 = values_of(public_vector@);
        let ghost g0 = point_views(vector_committer.generators@);
        let mut statement = vector_commitment.add_point(scalar_commitment);
        let ghost s0 = statement@;
        let mut a: Vec<Fr> = vstd::slice::slice_to_vec(public_vector);
        let mut generators: Vec<G1> = vector_committer.generators.clone();
        let ghost mut cur = ipa_verify_rounds(t0, mv.take(0), pv.take(0), s0, a0, g0);
        proof {
            assert(generators@ =~= vector_committer.generators@);
            lemma_verify_base(t0, mv, pv, s0, a0, g0);
        }
        let rounds = self.minus.len();
        let mut i: usize = 0;
        while i < rounds
            invariant
                rounds == self.minus.len(),
                self.plus.len() == rounds,
                mv == point_views(self.minus@),
                pv == point_views(self.plus@),
                mv.len() == rounds,
                pv.len() == rounds,
                i <= rounds,
                all_wf(a@),
                a.len() == generators.len(),
                is_pow2(a.len() as nat),
                log2_of(a.len() as nat) == rounds - i,
                t0 == ipa_statement(
                    old(transcript).absorbed(),
                    *vector_committer,
                    *scalar_committer,
                    values_of(public_vector@),
                    vector_commitment@,
                    scalar_commitment@,
                ),
                s0 == g1_add_spec(vector_commitment@, scalar_commitment@),
                a0 == values_of(public_vector@),
                g0 == point_views(vector_committer.generators@),
                ipa_shape(*vector_committer, *scalar_committer, public_vector.len() as nat),
                rounds == log2_of(public_vector.len() as nat),
                cur == ipa_verify_rounds(t0, mv.take(i as int), pv.take(i as int), s0, a0, g0),
                cur.0,
                transcript.absorbed() == cur.1,
                statement@ == cur.2,
                values_of(a@) == cur.3,
                point_views(generators@) == cur.4,
            decreases rounds - i,
        {
            proof {
                lemma_pow2_halve(a.len() as nat);
                lemma_verify_step(t0, mv, pv, s0, a0, g0, i as nat);
                assert(mv[i as int] == self.minus@[i as int]@);
                assert(pv[i as int] == self.plus@[i as int]@);
            }
            let out = verifier_fold_round(
                transcript,
                &self.minus[i],
                &self.plus[i],
                &statement,
                &a,
                &generators,
                Ghost(cur),
            );
            match out {
                Some((s, a2, g2)) => {
                    statement = s;
                    a = a2;
                    generators = g2;
                },
                None => {
                    proof {
                        lemma_verify_stuck(t0, mv, pv, s0, a0, g0, (i + 1) as nat, rounds as nat);
                        assert(mv.take(rounds as int) =~= mv);
                        assert(pv.take(rounds as int) =~= pv);
                    }
                    return false;
                },
            }
            proof {
                cur = ipa_verify_rounds(t0, mv.take(i + 1), pv.take(i + 1), s0, a0, g0);
            }
            i = i + 1;
        }
        proof {
            assert(mv.take(rounds as int) =~= mv);
            assert(pv.take(rounds as int) =~= pv);
            lemma_pow2_halve(a.len() as nat);
        }
        transcript.append_point("ipa-delta".as_bytes(), &self.delta);
        transcript.append_point("ipa-beta".as_bytes(), &self.beta);
        let c = match challenge_nonzero(transcript) {
            Some(c) => c,
            None => {
                return false;
            },
        };
        let lhs = statement.mul_scalar(&c).add_point(&self.beta).mul_scalar(&a[0]).add_point(
            &self.delta,
        );
        let rhs = generators[0].add_point(&scalar_committer.generator.mul_scalar(&a[0])).mul_scalar(
            &self.z1,
        ).add_point(&vector_committer.blind.mul_scalar(&self.z2));
        proof {
            assert(values_of(a@)[0] == a@[0].value());
        }
        lhs.equals(&rhs)
    }
}


/// `sum_i u[i] v[i]` over the integers.
pub open spec fn int_dot(u: Seq<int>, v: Seq<int>) -> int
    decreases u.len(),
{
    if u.len() == 0 {
        0
    } else {
        int_dot(u.drop_last(), v) + u.last() * v[u.len() - 1]
    }
}

pub proof fn lemma_dot_values(u: Seq<Fr>, v: Seq<Fr>)
    requires
        u.len() <= v.len(),
    ensures
        dot_value(u, v) == int_dot(values_of(u), values_of(v)),
    decreases u.len(),
{
    if u.len() > 0 {
        lemma_dot_values(u.drop_last(), v);
        assert(values_of(u.drop_last()) =~= values_of(u).drop_last());
    }
}

/// `sum_i ws[i] ps[i]` folded from the identity, as a generic
/// inner product computes it on points.
pub open spec fn ipg(ps: Seq<Seq<u8>>, ws: Seq<int>) -> Seq<u8>
    decreases ws.len(),
{
    if ws.len() == 0 {
        crate::curve::g1_identity()
    } else {
        g1_add_spec(ipg(ps, ws.drop_last()), g1_mul_spec(ps[ws.len() - 1], ws.last() as nat))
    }
}

/// `sum_i ws[i] ps[i]` on points.
pub fn ip_points(ps: &[G1], ws: &[Fr]) -> (r: G1)
    requires
        ps.len() == ws.len(),
        all_wf(ws@),
    ensures
        r@ == ipg(point_views(ps@), values_of(ws@)),
{
    let mut acc = G1::zero();
    let mut i: usize = 0;
    proof {
        assert(values_of(ws@).take(0) =~= Seq::<int>::empty());
    }
    while i < ws.len()
        invariant
            ps.len() == ws.len(),
            all_wf(ws@),
            i <= ws.len(),
            acc@ == ipg(point_views(ps@), values_of(ws@).take(i as int)),
        decreases ws.len() - i,
    {
        let term = ps[i].mul_scalar(&ws[i]);
        acc = acc.add_point(&term);
        proof {
            assert(values_of(ws@).take(i + 1).drop_last() =~= values_of(ws@).take(i as int));
        }
        i = i + 1;
    }
    proof {
        assert(values_of(ws@).take(ws.len() as int) =~= values_of(ws@));
    }
    acc
}

/// `(a + b) mod r`.
pub open spec fn fr_add(a: nat, b: nat) -> nat {
    (a + b) % fr_modulus()
}

/// `(a b) mod r`.
pub open spec fn fr_mul(a: nat, b: nat) -> nat {
    (a * b) % fr_modulus()
}

/// The point `M_-` of a round: `<g_hi, x_lo> + <x_lo, a_hi> G + bm H`.
pub open spec fn ipa_m_minus(x: Seq<int>, a: Seq<int>, g: Seq<Seq<u8>>, gen: Seq<u8>, blind: Seq<u8>, bm: nat) -> Seq<u8> {
    let h = x.len() / 2;
    g1_add_spec(
        g1_add_spec(
            ipg(g.skip(h as int), x.take(h as int)),
            g1_mul_spec(gen, (int_dot(x.take(h as int), a.skip(h as int)) % (fr_modulus() as int)) as nat),
        ),
        g1_mul_spec(blind, bm),
    )
}

/// The point `M_+` of a round: `<g_lo, x_hi> + <x_hi, a_lo> G + bp H`.
pub open spec fn ipa_m_plus(x: Seq<int>, a: Seq<int>, g: Seq<Seq<u8>>, gen: Seq<u8>, blind: Seq<u8>, bp: nat) -> Seq<u8> {
    let h = x.len() / 2;
    g1_add_spec(
        g1_add_spec(
            ipg(g.take(h as int), x.skip(h as int)),
            g1_mul_spec(gen, (int_dot(x.skip(h as int), a.take(h as int)) % (fr_modulus() as int)) as nat),
        ),
        g1_mul_spec(blind, bp),
    )
}

/// The prover's state after a round: whether the search succeeded, the
/// transcript, the folded witness, public vector and generators, the
/// combined blind, and the points sent so far.
#[verifier::opaque]
pub open spec fn ipa_prover_round(
    prev: (bool, Seq<u8>, Seq<int>, Seq<int>, Seq<Seq<u8>>, nat, Seq<Seq<u8>>, Seq<Seq<u8>>),
    vk: VectorPedersen,
    sk: ScalarPedersen,
    bm: nat,
    bp: nat,
) -> (bool, Seq<u8>, Seq<int>, Seq<int>, Seq<Seq<u8>>, nat, Seq<Seq<u8>>, Seq<Seq<u8>>) {
    let x = prev.2;
    let a = prev.3;
    let g = prev.4;
    let m_minus = ipa_m_minus(x, a, g, sk.generator@, vk.blind@, bm);
    let m_plus = ipa_m_plus(x, a, g, sk.generator@, vk.blind@, bp);
    let t = prev.1 + frame("ipa-minus".spec_bytes(), m_minus) + frame("ipa-plus".spec_bytes(), m_plus);
    if !search_ok(t) {
        (false, draw_state(t, max_draws()), x, a, g, prev.5, prev.6.push(m_minus), prev.7.push(m_plus))
    } else {
        let c = nonzero_challenge(t);
        let ci = fr_inv(c);
        (
            true,
            nonzero_after(t),
            fold_ints(x, c, ci),
            fold_ints(a, ci, c),
            fold_pts(g, ci, c),
            fr_add(fr_add(fr_mul(fr_sq(c), bm), prev.5), fr_mul(fr_sq(ci), bp)),
            prev.6.push(m_minus),
            prev.7.push(m_plus),
        )
    }
}

/// The prover's reduction over `k` rounds with the blinds `bm`, `bp`,
/// stopping at the first failed challenge search.
#[verifier::opaque]
pub open spec fn ipa_prove_rounds(
    init: (bool, Seq<u8>, Seq<int>, Seq<int>, Seq<Seq<u8>>, nat, Seq<Seq<u8>>, Seq<Seq<u8>>),
    vk: VectorPedersen,
    sk: ScalarPedersen,
    bm: Seq<nat>,
    bp: Seq<nat>,
    k: nat,
) -> (bool, Seq<u8>, Seq<int>, Seq<int>, Seq<Seq<u8>>, nat, Seq<Seq<u8>>, Seq<Seq<u8>>)
    decreases k,
{
    if k == 0 {
        init
    } else {
        let prev = ipa_prove_rounds(init, vk, sk, bm, bp, (k - 1) as nat);
        if !prev.0 {
            prev
        } else {
            ipa_prover_round(prev, vk, sk, bm[k - 1], bp[k - 1])
        }
    }
}

/// What the prover computes with the blinds `bm`, `bp` for the rounds and
/// `d`, `bd`, `bb` for the last step: `(succeeded, transcript, minus, plus,
/// delta, beta, z1, z2)`.
pub open spec fn ipa_prove_spec(
    state: Seq<u8>,
    vk: VectorPedersen,
    sk: ScalarPedersen,
    cx: Seq<u8>,
    cy: Seq<u8>,
    x: Seq<int>,
    vector_blind: nat,
    a: Seq<int>,
    scalar_blind: nat,
    bm: Seq<nat>,
    bp: Seq<nat>,
    d: nat,
    bd: nat,
    bb: nat,
) -> (bool, Seq<u8>, Seq<Seq<u8>>, Seq<Seq<u8>>, Seq<u8>, Seq<u8>, nat, nat) {
    let init = (
        true,
        ipa_statement(state, vk, sk, a, cx, cy),
        x,
        a,
        point_views(vk.generators@),
        fr_add(vector_blind, scalar_blind),
        Seq::<Seq<u8>>::empty(),
        Seq::<Seq<u8>>::empty(),
    );
    let rounds = ipa_prove_rounds(init, vk, sk, bm, bp, log2_of(a.len()));
    let delta = g1_add_spec(g1_mul_spec(rounds.4[0], d), g1_mul_spec(vk.blind@, bd));
    let beta = g1_add_spec(g1_mul_spec(sk.generator@, d), g1_mul_spec(vk.blind@, bb));
    if !rounds.0 {
        (false, rounds.1, rounds.6, rounds.7, delta, beta, 0, 0)
    } else {
        let t = rounds.1 + frame("ipa-delta".spec_bytes(), delta) + frame("ipa-beta".spec_bytes(), beta);
        if !search_ok(t) {
            (false, draw_state(t, max_draws()), rounds.6, rounds.7, delta, beta, 0, 0)
        } else {
            let c = nonzero_challenge(t);
            let x0 = rounds.2[0] as nat;
            let a0 = rounds.3[0] as nat;
            let y = fr_mul(x0, a0);
            (
                true,
                nonzero_after(t),
                rounds.6,
                rounds.7,
                delta,
                beta,
                fr_add(d, fr_mul(c, y)),
                fr_add(fr_mul(a0, fr_add(fr_mul(c, rounds.5), bb)), bd),
            )
        }
    }
}


/// A prover round whose search succeeds.
proof fn lemma_prover_round_ok(
    prev: (bool, Seq<u8>, Seq<int>, Seq<int>, Seq<Seq<u8>>, nat, Seq<Seq<u8>>, Seq<Seq<u8>>),
    vk: VectorPedersen,
    sk: ScalarPedersen,
    bm: nat,
    bp: nat,
)
    requires
        search_ok(
            prev.1 + frame(
                "ipa-minus".spec_bytes(),
                ipa_m_minus(prev.2, prev.3, prev.4, sk.generator@, vk.blind@, bm),
            ) + frame("ipa-plus".spec_bytes(), ipa_m_plus(prev.2, prev.3, prev.4, sk.generator@, vk.blind@, bp)),
        ),
    ensures
        ({
            let mm = ipa_m_minus(prev.2, prev.3, prev.4, sk.generator@, vk.blind@, bm);
            let mp = ipa_m_plus(prev.2, prev.3, prev.4, sk.generator@, vk.blind@, bp);
            let t = prev.1 + frame("ipa-minus".spec_bytes(), mm) + frame("ipa-plus".spec_bytes(), mp);
            let c = nonzero_challenge(t);
            let ci = fr_inv(c);
            ipa_prover_round(prev, vk, sk, bm, bp) == (
                true,
                nonzero_after(t),
                fold_ints(prev.2, c, ci),
                fold_ints(prev.3, ci, c),
                fold_pts(prev.4, ci, c),
                fr_add(fr_add(fr_mul(fr_sq(c), bm), prev.5), fr_mul(fr_sq(ci), bp)),
                prev.6.push(mm),
                prev.7.push(mp),
            )
        }),
{
    reveal(ipa_prover_round);
}

/// A prover round whose search fails.
proof fn lemma_prover_round_fail(
    prev: (bool, Seq<u8>, Seq<int>, Seq<int>, Seq<Seq<u8>>, nat, Seq<Seq<u8>>, Seq<Seq<u8>>),
    vk: VectorPedersen,
    sk: ScalarPedersen,
    bm: nat,
    bp: nat,
)
    requires
        !search_ok(
            prev.1 + frame(
                "ipa-minus".spec_bytes(),
                ipa_m_minus(prev.2, prev.3, prev.4, sk.generator@, vk.blind@, bm),
            ) + frame("ipa-plus".spec_bytes(), ipa_m_plus(prev.2, prev.3, prev.4, sk.generator@, vk.blind@, bp)),
        ),
    ensures
        !ipa_prover_round(prev, vk, sk, bm, bp).0,
        ipa_prover_round(prev, vk, sk, bm, bp).1 == draw_state(
            prev.1 + frame(
                "ipa-minus".spec_bytes(),
                ipa_m_minus(prev.2, prev.3, prev.4, sk.generator@, vk.blind@, bm),
            ) + frame("ipa-plus".spec_bytes(), ipa_m_plus(prev.2, prev.3, prev.4, sk.generator@, vk.blind@, bp)),
            max_draws(),
        ),
{
    reveal(ipa_prover_round);
}

/// The prover's reduction: no round, and one more round.
proof fn lemma_prove_rounds_step(
    init: (bool, Seq<u8>, Seq<int>, Seq<int>, Seq<Seq<u8>>, nat, Seq<Seq<u8>>, Seq<Seq<u8>>),
    vk: VectorPedersen,
    sk: ScalarPedersen,
    bm: Seq<nat>,
    bp: Seq<nat>,
    k: nat,
)
    ensures
        ipa_prove_rounds(init, vk, sk, bm, bp, 0) == init,
        ({
            let prev = ipa_prove_rounds(init, vk, sk, bm, bp, k);
            ipa_prove_rounds(init, vk, sk, bm, bp, k + 1) == if !prev.0 {
                prev
            } else {
                ipa_prover_round(prev, vk, sk, bm[k as int], bp[k as int])
            }
        }),
{
    reveal(ipa_prove_rounds);
}

/// Once a prover round fails, the later rounds change nothing.
proof fn lemma_prove_rounds_stuck(
    init: (bool, Seq<u8>, Seq<int>, Seq<int>, Seq<Seq<u8>>, nat, Seq<Seq<u8>>, Seq<Seq<u8>>),
    vk: VectorPedersen,
    sk: ScalarPedersen,
    bm: Seq<nat>,
    bp: Seq<nat>,
    k: nat,
    m: nat,
)
    requires
        k <= m,
        !ipa_prove_rounds(init, vk, sk, bm, bp, k).0,
    ensures
        ipa_prove_rounds(init, vk, sk, bm, bp, m) == ipa_prove_rounds(init, vk, sk, bm, bp, k),
    decreases m - k,
{
    if k < m {
        lemma_prove_rounds_stuck(init, vk, sk, bm, bp, k, (m - 1) as nat);
        lemma_prove_rounds_step(init, vk, sk, bm, bp, (m - 1) as nat);
    }
}

/// One round of the prover: sends `M_-` and `M_+`, draws the challenge and
/// folds the witness, the public vector, the generators and the blind.
#[verifier::rlimit(60)]
fn prover_fold_round(
    transcript: &mut Transcript,
    vk: &VectorPedersen,
    sk: &ScalarPedersen,
    x: &Vec<Fr>,
    a: &Vec<Fr>,
    g: &Vec<G1>,
    cb: &Fr,
    bm: &Fr,
    bp: &Fr,
    Ghost(prev): Ghost<(bool, Seq<u8>, Seq<int>, Seq<int>, Seq<Seq<u8>>, nat, Seq<Seq<u8>>, Seq<Seq<u8>>)>,
) -> (r: Option<(G1, G1, Vec<Fr>, Vec<Fr>, Vec<G1>, Fr)>)
    requires
        old(transcript).absorbed() == prev.1,
        values_of(x@) == prev.2,
        values_of(a@) == prev.3,
        point_views(g@) == prev.4,
        cb.value() == prev.5,
        x.len() == a.len(),
        a.len() == g.len(),
        a.len() % 2 == 0,
        all_wf(x@),
        all_wf(a@),
        cb.wf(),
        bm.wf(),
        bp.wf(),
    ensures
        ({
            let next = ipa_prover_round(prev, *vk, *sk, bm.value(), bp.value());
            &&& (r is Some <==> next.0)
            &&& final(transcript).absorbed() == next.1
            &&& r matches Some(out) ==> {
                &&& next == (
                    true,
                    next.1,
                    values_of(out.2@),
                    values_of(out.3@),
                    point_views(out.4@),
                    out.5.value(),
                    prev.6.push(out.0@),
                    prev.7.push(out.1@),
                )
                &&& all_wf(out.2@)
                &&& all_wf(out.3@)
                &&& out.5.wf()
                &&& out.2.len() == a.len() / 2
                &&& out.3.len() == a.len() / 2
                &&& out.4.len() == a.len() / 2
            }
        }),
{
    let n = x.len();
    let h = n / 2;
    let x_lo = vstd::slice::slice_subrange(x.as_slice(), 0, h);
    let x_hi = vstd::slice::slice_subrange(x.as_slice(), h, n);
    let a_lo = vstd::slice::slice_subrange(a.as_slice(), 0, h);
    let a_hi = vstd::slice::slice_subrange(a.as_slice(), h, n);
    let g_lo = vstd::slice::slice_subrange(g.as_slice(), 0, h);
    let g_hi = vstd::slice::slice_subrange(g.as_slice(), h, n);
    proof {
        assert(values_of(x_lo@) =~= prev.2.take(h as int));
        assert(values_of(x_hi@) =~= prev.2.skip(h as int));
        assert(values_of(a_lo@) =~= prev.3.take(h as int));
        assert(values_of(a_hi@) =~= prev.3.skip(h as int));
        assert(point_views(g_lo@) =~= prev.4.take(h as int));
        assert(point_views(g_hi@) =~= prev.4.skip(h as int));
        lemma_dot_values(x_lo@, a_hi@);
        lemma_dot_values(x_hi@, a_lo@);
        lemma_fr_modulus();
    }
    let lo_hi = inner_product(x_lo, a_hi);
    let hi_lo = inner_product(x_hi, a_lo);
    let m_minus = ip_points(g_hi, x_lo).add_point(&sk.generator.mul_scalar(&lo_hi)).add_point(
        &vk.blind.mul_scalar(bm),
    );
    let m_plus = ip_points(g_lo, x_hi).add_point(&sk.generator.mul_scalar(&hi_lo)).add_point(
        &vk.blind.mul_scalar(bp),
    );
    transcript.append_point("ipa-minus".as_bytes(), &m_minus);
    transcript.append_point("ipa-plus".as_bytes(), &m_plus);
    let ghost t1 = transcript.absorbed();
    let c = match challenge_nonzero(transcript) {
        Some(c) => c,
        None => {
            proof {
                lemma_prover_round_fail(prev, *vk, *sk, bm.value(), bp.value());
            }
            return None;
        },
    };
    proof {
        lemma_search_nonzero(t1);
        lemma_prover_round_ok(prev, *vk, *sk, bm.value(), bp.value());
    }
    let c_inv = match c.inverse() {
        Some(ci) => ci,
        None => {
            return None;
        },
    };
    let next_cb = c.square().mul(*bm).add(*cb).add(c_inv.square().mul(*bp));
    let next_x = crate::helpers::fold_halves(x.as_slice(), c, c_inv);
    let next_a = crate::helpers::fold_halves(a.as_slice(), c_inv, c);
    let next_g = fold_points(g.as_slice(), &c_inv, &c);
    proof {
        assert(values_of(next_x@) =~= fold_ints(values_of(x@), c.value(), c_inv.value()));
        assert(values_of(next_a@) =~= fold_ints(values_of(a@), c_inv.value(), c.value()));
    }
    Some((m_minus, m_plus, next_x, next_a, next_g, next_cb))
}

/// One prover round on the running state, in place.
#[verifier::rlimit(60)]
fn prover_step(
    transcript: &mut Transcript,
    vk: &VectorPedersen,
    sk: &ScalarPedersen,
    xs: &mut Vec<Fr>,
    as_: &mut Vec<Fr>,
    gs: &mut Vec<G1>,
    cb: &mut Fr,
    minus: &mut Vec<G1>,
    plus: &mut Vec<G1>,
    bm: &Fr,
    bp: &Fr,
    Ghost(prev): Ghost<(bool, Seq<u8>, Seq<int>, Seq<int>, Seq<Seq<u8>>, nat, Seq<Seq<u8>>, Seq<Seq<u8>>)>,
) -> (ok: bool)
    requires
        old(transcript).absorbed() == prev.1,
        values_of(old(xs)@) == prev.2,
        values_of(old(as_)@) == prev.3,
        point_views(old(gs)@) == prev.4,
        old(cb).value() == prev.5,
        point_views(old(minus)@) == prev.6,
        point_views(old(plus)@) == prev.7,
        old(xs).len() == old(as_).len(),
        old(as_).len() == old(gs).len(),
        old(as_).len() % 2 == 0,
        all_wf(old(xs)@),
        all_wf(old(as_)@),
        old(cb).wf(),
        bm.wf(),
        bp.wf(),
    ensures
        ({
            let next = ipa_prover_round(prev, *vk, *sk, bm.value(), bp.value());
            &&& ok == next.0
            &&& final(transcript).absorbed() == next.1
            &&& ok ==> {
                &&& values_of(final(xs)@) == next.2
                &&& values_of(final(as_)@) == next.3
                &&& point_views(final(gs)@) == next.4
                &&& final(cb).value() == next.5
                &&& point_views(final(minus)@) == next.6
                &&& point_views(final(plus)@) == next.7
                &&& all_wf(final(xs)@)
                &&& all_wf(final(as_)@)
                &&& final(cb).wf()
                &&& final(xs).len() == old(xs).len() / 2
                &&& final(as_).len() == old(as_).len() / 2
                &&& final(gs).len() == old(as_).len() / 2
            }
        }),
{
    let out = prover_fold_round(transcript, vk, sk, xs, as_, gs, cb, bm, bp, Ghost(prev));
    match out {
        Some((m_minus, m_plus, nx, na, ng, ncb)) => {
            proof {
                assert(point_views(minus@.push(m_minus)) =~= prev.6.push(m_minus@));
                assert(point_views(plus@.push(m_plus)) =~= prev.7.push(m_plus@));
            }
            minus.push(m_minus);
            plus.push(m_plus);
            *xs = nx;
            *as_ = na;
            *gs = ng;
            *cb = ncb;
            true
        },
        None => false,
    }
}

impl InnerProductProof {
    /// The proof of Figures 7 and 8 with the blinds `blind_minus[k]`,
    /// `blind_plus[k]` for round `k` and `d`, `blind_delta`, `blind_beta` for
    /// the last step. Refused: a malformed shape or commitments
    /// that do not open as given. `None` when `2^64 - 1` challenges in a row
    /// come out zero, where drawing would go on.
    #[verifier::rlimit(100)]
    pub fn prove_with(
        vector_committer: &VectorPedersen,
        scalar_committer: &ScalarPedersen,
        vector_commitment: &G1,
        scalar_commitment: &G1,
        x: &[Fr],
        vector_blind: &Fr,
        a: &[Fr],
        scalar_blind: &Fr,
        blind_minus: &[Fr],
        blind_plus: &[Fr],
        d: &Fr,
        blind_delta: &Fr,
        blind_beta: &Fr,
        transcript: &mut Transcript,
    ) -> (r: Option<Self>)
        requires
            ipa_shape(*vector_committer, *scalar_committer, a.len() as nat),
            vector_committer.mul_bases.len() >= a.len(),
            x.len() == a.len(),
            blind_minus.len() == log2_of(a.len() as nat),
            blind_plus.len() == log2_of(a.len() as nat),
            all_wf(x@),
            all_wf(a@),
            all_wf(blind_minus@),
            all_wf(blind_plus@),
            vector_blind.wf(),
            scalar_blind.wf(),
            d.wf(),
            blind_delta.wf(),
            blind_beta.wf(),
            ipa_openings(
                *vector_committer,
                *scalar_committer,
                vector_commitment@,
                scalar_commitment@,
                x@,
                *vector_blind,
                a@,
                *scalar_blind,
            ),
        ensures
            ({
                let sp = ipa_prove_spec(
                    old(transcript).absorbed(),
                    *vector_committer,
                    *scalar_committer,
                    vector_commitment@,
                    scalar_commitment@,
                    values_of(x@),
                    vector_blind.value(),
                    values_of(a@),
                    scalar_blind.value(),
                    scalar_values(blind_minus@),
                    scalar_values(blind_plus@),
                    d.value(),
                    blind_delta.value(),
                    blind_beta.value(),
                );
                &&& (r is Some <==> sp.0)
                &&& final(transcript).absorbed() == sp.1
                &&& r matches Some(proof) ==> {
                    &&& proof.proof_wf()
                    &&& point_views(proof.minus@) == sp.2
                    &&& point_views(proof.plus@) == sp.3
                    &&& proof.delta@ == sp.4
                    &&& proof.beta@ == sp.5
                    &&& proof.z1.value() == sp.6
                    &&& proof.z2.value() == sp.7
                }
            }),
    {
        append_statement(
            transcript,
            vector_committer,
            scalar_committer,
            a,
            vector_commitment,
            scalar_commitment,
        );
        let ghost bmv = scalar_values(blind_minus@);
        let ghost bpv = scalar_values(blind_plus@);
        let ghost init = (
            true,
            transcript.absorbed(),
            values_of(x@),
            values_of(a@),
            point_views(vector_committer.generators@),
            fr_add(vector_blind.value(), scalar_blind.value()),
            Seq::<Seq<u8>>::empty(),
            Seq::<Seq<u8>>::empty(),
        );
        let mut xs: Vec<Fr> = vstd::slice::slice_to_vec(x);
        let mut as_: Vec<Fr> = vstd::slice::slice_to_vec(a);
        let mut gs: Vec<G1> = vector_committer.generators.clone();
        let mut combined_blind = vector_blind.add(*scalar_blind);
        let mut minus: Vec<G1> = Vec::new();
        let mut plus: Vec<G1> = Vec::new();
        let ghost mut cur = init;
        proof {
            lemma_fr_modulus();
            assert(gs@ =~= vector_committer.generators@);
            lemma_prove_rounds_step(init, *vector_committer, *scalar_committer, bmv, bpv, 0);
            assert(point_views(minus@) =~= Seq::<Seq<u8>>::empty());
        }
        let rounds = blind_minus.len();
        let mut i: usize = 0;
        while i < rounds
            invariant
                rounds == blind_minus.len(),
                blind_plus.len() == rounds,
                bmv == scalar_values(blind_minus@),
                bpv == scalar_values(blind_plus@),
                all_wf(blind_minus@),
                all_wf(blind_plus@),
                i <= rounds,
                xs.len() == as_.len(),
                as_.len() == gs.len(),
                is_pow2(as_.len() as nat),
                log2_of(as_.len() as nat) == rounds - i,
                all_wf(xs@),
                all_wf(as_@),
                combined_blind.wf(),
                init == (
                    true,
                    ipa_statement(
                        old(transcript).absorbed(),
                        *vector_committer,
                        *scalar_committer,
                        values_of(a@),
                        vector_commitment@,
                        scalar_commitment@,
                    ),
                    values_of(x@),
                    values_of(a@),
                    point_views(vector_committer.generators@),
                    fr_add(vector_blind.value(), scalar_blind.value()),
                    Seq::<Seq<u8>>::empty(),
                    Seq::<Seq<u8>>::empty(),
                ),
                rounds == log2_of(a.len() as nat),
                cur == ipa_prove_rounds(init, *vector_committer, *scalar_committer, bmv, bpv, i as nat),
                cur.0,
                transcript.absorbed() == cur.1,
                values_of(xs@) == cur.2,
                values_of(as_@) == cur.3,
                point_views(gs@) == cur.4,
                combined_blind.value() == cur.5,
                point_views(minus@) == cur.6,
                point_views(plus@) == cur.7,
            decreases rounds - i,
        {
            proof {
                lemma_pow2_halve(as_.len() as nat);
                lemma_prove_rounds_step(init, *vector_committer, *scalar_committer, bmv, bpv, i as nat);
            }
            let ok = prover_step(
                transcript,
                vector_committer,
                scalar_committer,
                &mut xs,
                &mut as_,
                &mut gs,
                &mut combined_blind,
                &mut minus,
                &mut plus,
                &blind_minus[i],
                &blind_plus[i],
                Ghost(cur),
            );
            if !ok {
                proof {
                    lemma_prove_rounds_stuck(
                        init,
                        *vector_committer,
                        *scalar_committer,
                        bmv,
                        bpv,
                        (i + 1) as nat,
                        rounds as nat,
                    );
                }
                return None;
            }
            proof {
                cur = ipa_prove_rounds(init, *vector_committer, *scalar_committer, bmv, bpv, (i + 1) as nat);
            }
            i = i + 1;
        }
        proof {
            lemma_pow2_halve(as_.len() as nat);
        }
        let delta = gs[0].mul_scalar(d).add_point(&vector_committer.blind.mul_scalar(blind_delta));
        let beta = scalar_committer.generator.mul_scalar(d).add_point(
            &vector_committer.blind.mul_scalar(blind_beta),
        );
        transcript.append_point("ipa-delta".as_bytes(), &delta);
        transcript.append_point("ipa-beta".as_bytes(), &beta);
        let c = match challenge_nonzero(transcript) {
            Some(c) => c,
            None => {
                return None;
            },
        };
        let y_final = xs[0].mul(as_[0]);
        let z1 = d.add(c.mul(y_final));
        let z2 = as_[0].mul(c.mul(combined_blind).add(*blind_beta)).add(*blind_delta);
        proof {
            assert(values_of(xs@)[0] == xs@[0].value());
            assert(values_of(as_@)[0] == as_@[0].value());
        }
        Some(InnerProductProof { minus, plus, delta, beta, z1, z2 })
    }
}


/// The prover's result `r` and final transcript agree with the computation
/// `sp` of [`ipa_prove_spec`].
pub open spec fn ipa_prove_outcome(
    r: Option<InnerProductProof>,
    after: Seq<u8>,
    sp: (bool, Seq<u8>, Seq<Seq<u8>>, Seq<Seq<u8>>, Seq<u8>, Seq<u8>, nat, nat),
) -> bool {
    &&& (r is Some <==> sp.0)
    &&& after == sp.1
    &&& r matches Some(proof) ==> {
        &&& proof.proof_wf()
        &&& point_views(proof.minus@) == sp.2
        &&& point_views(proof.plus@) == sp.3
        &&& proof.delta@ == sp.4
        &&& proof.beta@ == sp.5
        &&& proof.z1.value() == sp.6
        &&& proof.z2.value() == sp.7
    }
}

/// `r` and the transcript `after` are what proving from `before` gives for
/// some blinds below the group order: `bm`, `bp` for the rounds, then `d`,
/// `r_delta`, `r_beta`.
pub open spec fn ipa_proved(
    r: Option<InnerProductProof>,
    before: Seq<u8>,
    after: Seq<u8>,
    vk: VectorPedersen,
    sk: ScalarPedersen,
    cx: Seq<u8>,
    cy: Seq<u8>,
    x: Seq<int>,
    xb: nat,
    a: Seq<int>,
    ab: nat,
) -> bool {
    exists|bm: Seq<nat>, bp: Seq<nat>, d: nat, bd: nat, bb: nat|
        {
            &&& bm.len() == log2_of(a.len() as nat)
            &&& bp.len() == log2_of(a.len() as nat)
            &&& d < fr_modulus()
            &&& bd < fr_modulus()
            &&& bb < fr_modulus()
            &&& ipa_prove_outcome(
                r,
                after,
                #[trigger] ipa_prove_spec(before, vk, sk, cx, cy, x, xb, a, ab, bm, bp, d, bd, bb),
            )
        }
}

impl InnerProductProof {
    /// The proof with its blinds drawn from `rng` in this order:
    /// `blind_minus`, `blind_plus` for each round, then `d`, `blind_delta`
    /// and `blind_beta`.
    pub fn prove(
        vector_committer: &VectorPedersen,
        scalar_committer: &ScalarPedersen,
        vector_commitment: &G1,
        scalar_commitment: &G1,
        x: &[Fr],
        vector_blind: &Fr,
        a: &[Fr],
        scalar_blind: &Fr,
        transcript: &mut Transcript,
        rng: &mut ark_std::rand::rngs::StdRng,
    ) -> (r: Option<Self>)
        requires
            ipa_shape(*vector_committer, *scalar_committer, a.len() as nat),
            vector_committer.mul_bases.len() >= a.len(),
            x.len() == a.len(),
            all_wf(x@),
            all_wf(a@),
            vector_blind.wf(),
            scalar_blind.wf(),
            ipa_openings(
                *vector_committer,
                *scalar_committer,
                vector_commitment@,
                scalar_commitment@,
                x@,
                *vector_blind,
                a@,
                *scalar_blind,
            ),
        ensures
            ipa_proved(
                r,
                old(transcript).absorbed(),
                final(transcript).absorbed(),
                *vector_committer,
                *scalar_committer,
                vector_commitment@,
                scalar_commitment@,
                values_of(x@),
                vector_blind.value(),
                values_of(a@),
                scalar_blind.value(),
            ),
    {
        let (_, rounds) = pow2_shape(a.len());
        let mut blind_minus: Vec<Fr> = Vec::new();
        let mut blind_plus: Vec<Fr> = Vec::new();
        let mut i: usize = 0;
        while i < rounds
            invariant
                i <= rounds,
                blind_minus.len() == i,
                blind_plus.len() == i,
                all_wf(blind_minus@),
                all_wf(blind_plus@),
            decreases rounds - i,
        {
            blind_minus.push(random_scalar(rng));
            blind_plus.push(random_scalar(rng));
            i = i + 1;
        }
        let d = random_scalar(rng);
        let blind_delta = random_scalar(rng);
        let blind_beta = random_scalar(rng);
        let r = Self::prove_with(
            vector_committer,
            scalar_committer,
            vector_commitment,
            scalar_commitment,
            x,
            vector_blind,
            a,
            scalar_blind,
            blind_minus.as_slice(),
            blind_plus.as_slice(),
            &d,
            &blind_delta,
            &blind_beta,
            transcript,
        );
        proof {
            lemma_fr_modulus();
            d.lemma_value_bound();
            blind_delta.lemma_value_bound();
            blind_beta.lemma_value_bound();
        }
        r
    }

    /// `prove`, or `None` where the statement is refused: a
    /// malformed shape, too few multiplication bases, or commitments that do
    /// not open as given.
    pub fn try_prove(
        vector_committer: &VectorPedersen,
        scalar_committer: &ScalarPedersen,
        vector_commitment: &G1,
        scalar_commitment: &G1,
        x: &[Fr],
        vector_blind: &Fr,
        a: &[Fr],
        scalar_blind: &Fr,
        transcript: &mut Transcript,
        rng: &mut ark_std::rand::rngs::StdRng,
    ) -> (r: Option<Self>)
        requires
            all_wf(x@),
            all_wf(a@),
            vector_blind.wf(),
            scalar_blind.wf(),
        ensures
            r is Some ==> ipa_shape(*vector_committer, *scalar_committer, a.len() as nat)
                && x.len() == a.len() && ipa_openings(
                *vector_committer,
                *scalar_committer,
                vector_commitment@,
                scalar_commitment@,
                x@,
                *vector_blind,
                a@,
                *scalar_blind,
            ),
            !(ipa_shape(*vector_committer, *scalar_committer, a.len() as nat)
                && vector_committer.mul_bases.len() >= a.len() && x.len() == a.len() && ipa_openings(
                *vector_committer,
                *scalar_committer,
                vector_commitment@,
                scalar_commitment@,
                x@,
                *vector_blind,
                a@,
                *scalar_blind,
            )) ==> r is None && final(transcript).absorbed() == old(transcript).absorbed(),
            (ipa_shape(*vector_committer, *scalar_committer, a.len() as nat)
                && vector_committer.mul_bases.len() >= a.len() && x.len() == a.len() && ipa_openings(
                *vector_committer,
                *scalar_committer,
                vector_commitment@,
                scalar_commitment@,
                x@,
                *vector_blind,
                a@,
                *scalar_blind,
            )) ==> ipa_proved(
                r,
                old(transcript).absorbed(),
                final(transcript).absorbed(),
                *vector_committer,
                *scalar_committer,
                vector_commitment@,
                scalar_commitment@,
                values_of(x@),
                vector_blind.value(),
                values_of(a@),
                scalar_blind.value(),
            ),
    {
        let n = a.len();
        let (pow2, _) = pow2_shape(n);
        if n == 0 || !pow2 || vector_committer.generators.len() != n
            || !vector_committer.blind.equals(&scalar_committer.blind)
            || vector_committer.mul_bases.len() < n || x.len() != n {
            return None;
        }
        let cx = vector_committer.commit(x, vector_blind);
        let y = inner_product(x, a);
        let cy = scalar_committer.commit(&y, scalar_blind);
        proof {
            lemma_fr_modulus();
        }
        if !cx.equals(vector_commitment) || !cy.equals(scalar_commitment) {
            return None;
        }
        Self::prove(
            vector_committer,
            scalar_committer,
            vector_commitment,
            scalar_commitment,
            x,
            vector_blind,
            a,
            scalar_blind,
            transcript,
            rng,
        )
    }
}

} // verus!
