//! Sigma protocols on Pedersen commitments, made non-interactive with the
//! transcript:
//!
//! - [`KnowledgeProof`]: knowledge of an opening of `C = v G + r H`;
//! - [`EqualityProof`]: two commitments hide the same value;
//! - [`ProductProof`]: three commitments hide `x`, `y` and `x y`.
//!
//! Each prover comes in two forms: `prove_with` takes its blinding scalars as
//! arguments and is deterministic; `prove` draws them from a random number
//! generator. `try_prove` checks the openings first and returns `None` where
//! `prove` would refuse them.

use crate::curve::{
    fr_modulus, g1_add_spec, g1_mul_spec, g1_sub_spec, lemma_fr_modulus, point_views,
    random_scalar, Bls12381FrConfig, Fr, G1,
};
use crate::helpers::{lemma_add_cong, lemma_add_mul_mod, lemma_mul_cong, lemma_sub_cong};
use crate::pedersen::{scalar_commit, ScalarPedersen};
use crate::transcript::{after_challenge, challenge_value, frame, Transcript};
use vstd::arithmetic::div_mod::*;
use vstd::prelude::*;
use vstd::string::StringSliceAdditionalSpecFns;

verus! {

/// The field challenge drawn under `label` from `state`, as a scalar value.
pub open spec fn fr_challenge(state: Seq<u8>, label: Seq<u8>) -> nat {
    challenge_value::<Bls12381FrConfig, 4>(state, label) as nat
}

/// The transcript after drawing the challenge under `label`.
pub open spec fn fr_after(state: Seq<u8>, label: Seq<u8>) -> Seq<u8> {
    after_challenge::<Bls12381FrConfig, 4>(state, label)
}

/// `(t + c x) mod r`.
pub open spec fn fr_lin(t: nat, c: nat, x: int) -> nat {
    ((t + c * x) % (fr_modulus() as int)) as nat
}

/// Each commitment framed under `sigma-commitment`, in order.
pub open spec fn commitment_frames(cs: Seq<Seq<u8>>) -> Seq<u8>
    decreases cs.len(),
{
    if cs.len() == 0 {
        Seq::empty()
    } else {
        commitment_frames(cs.drop_last()) + frame("sigma-commitment".spec_bytes(), cs.last())
    }
}

/// The transcript after binding the protocol name, the key and the
/// commitments of a statement.
pub open spec fn scalar_statement(
    state: Seq<u8>,
    protocol: Seq<u8>,
    key: ScalarPedersen,
    cs: Seq<Seq<u8>>,
) -> Seq<u8> {
    state + frame("sigma-protocol".spec_bytes(), protocol) + frame(
        "sigma-generator".spec_bytes(),
        key.generator@,
    ) + frame("sigma-blind-generator".spec_bytes(), key.blind@) + commitment_frames(cs)
}

/// Binds the protocol, the key and the commitments to the transcript.
fn append_scalar_statement(
    transcript: &mut Transcript,
    protocol: &[u8],
    committer: &ScalarPedersen,
    commitments: &[G1],
)
    ensures
        final(transcript).absorbed() == scalar_statement(
            old(transcript).absorbed(),
            protocol@,
            *committer,
            point_views(commitments@),
        ),
{
    let ghost state = transcript.absorbed();
    transcript.append_bytes("sigma-protocol".as_bytes(), protocol);
    transcript.append_point("sigma-generator".as_bytes(), &committer.generator);
    transcript.append_point("sigma-blind-generator".as_bytes(), &committer.blind);
    let mut i: usize = 0;
    proof {
        assert(point_views(commitments@.take(0)) =~= Seq::<Seq<u8>>::empty());
        assert(commitment_frames(Seq::<Seq<u8>>::empty()) =~= Seq::<u8>::empty());
    }
    while i < commitments.len()
        invariant
            i <= commitments.len(),
            transcript.absorbed() == scalar_statement(
                state,
                protocol@,
                *committer,
                point_views(commitments@.take(i as int)),
            ),
        decreases commitments.len() - i,
    {
        transcript.append_point("sigma-commitment".as_bytes(), &commitments[i]);
        proof {
            assert(point_views(commitments@.take(i + 1)).drop_last() =~= point_views(
                commitments@.take(i as int),
            ));
        }
        i = i + 1;
    }
    proof {
        assert(commitments@.take(commitments.len() as int) =~= commitments@);
    }
}

/// `(t + c x) mod r` computed in the field.
pub(crate) fn lin(t: Fr, c: Fr, x: Fr) -> (z: Fr)
    requires
        t.wf(),
        c.wf(),
        x.wf(),
    ensures
        z.wf(),
        z.value() == fr_lin(t.value(), c.value(), x.value() as int),
{
    let z = t.add(c.mul(x));
    proof {
        lemma_fr_modulus();
        t.lemma_value_bound();
        let p = fr_modulus() as int;
        lemma_small_mod(t.value(), fr_modulus());
        lemma_add_mul_mod(t.value() as int, c.value() as int, x.value() as int, p);
    }
    z
}

/// `x mod r` does not change `(t + c x) mod r`.
proof fn lemma_lin_cong(t: nat, c: nat, x: int, x2: int)
    requires
        x % (fr_modulus() as int) == x2 % (fr_modulus() as int),
    ensures
        fr_lin(t, c, x) == fr_lin(t, c, x2),
{
    let p = fr_modulus() as int;
    lemma_mul_cong(c as int, x, c as int, x2, p);
    lemma_add_cong(t as int, c * x, t as int, c * x2, p);
}

/// A Schnorr proof of knowledge of an opening `(v, r)` of `C = v G + r H`.
#[derive(Clone, Copy, Debug)]
pub struct KnowledgeProof {
    pub alpha: G1,
    pub z1: Fr,
    pub z2: Fr,
}

/// The transcript once the knowledge statement and `alpha` are absorbed.
pub open spec fn knowledge_absorbed(
    state: Seq<u8>,
    key: ScalarPedersen,
    commitment: Seq<u8>,
    alpha: Seq<u8>,
) -> Seq<u8> {
    scalar_statement(state, "knowledge".spec_bytes(), key, seq![commitment]) + frame(
        "knowledge-alpha".spec_bytes(),
        alpha,
    )
}

/// The challenge of a knowledge proof.
pub open spec fn knowledge_challenge(
    state: Seq<u8>,
    key: ScalarPedersen,
    commitment: Seq<u8>,
    alpha: Seq<u8>,
) -> nat {
    fr_challenge(knowledge_absorbed(state, key, commitment, alpha), "knowledge-challenge".spec_bytes())
}

/// The transcript after a knowledge proof.
pub open spec fn knowledge_after(
    state: Seq<u8>,
    key: ScalarPedersen,
    commitment: Seq<u8>,
    alpha: Seq<u8>,
) -> Seq<u8> {
    fr_after(knowledge_absorbed(state, key, commitment, alpha), "knowledge-challenge".spec_bytes())
}

/// What the knowledge verifier computes: `(accepted, transcript)`.
pub open spec fn knowledge_verify_spec(
    state: Seq<u8>,
    key: ScalarPedersen,
    commitment: Seq<u8>,
    proof: KnowledgeProof,
) -> (bool, Seq<u8>) {
    let c = knowledge_challenge(state, key, commitment, proof.alpha@);
    (
        scalar_commit(key.generator@, key.blind@, proof.z1.value(), proof.z2.value()) == g1_add_spec(
            g1_mul_spec(commitment, c),
            proof.alpha@,
        ),
        knowledge_after(state, key, commitment, proof.alpha@),
    )
}

impl KnowledgeProof {
    pub open spec fn proof_wf(&self) -> bool {
        self.z1.wf() && self.z2.wf()
    }

    /// The proof with blinding scalars `t1`, `t2`: `alpha = Com(t1; t2)`,
    /// `z1 = t1 + c v`, `z2 = t2 + c r`. Refused: a commitment
    /// that does not open to `(value, blind)`.
    pub fn prove_with(
        committer: &ScalarPedersen,
        commitment: &G1,
        value: &Fr,
        blind: &Fr,
        t1: &Fr,
        t2: &Fr,
        transcript: &mut Transcript,
    ) -> (proof: Self)
        requires
            value.wf(),
            blind.wf(),
            t1.wf(),
            t2.wf(),
            commitment@ == scalar_commit(
                committer.generator@,
                committer.blind@,
                value.value(),
                blind.value(),
            ),
        ensures
            proof.proof_wf(),
            proof.alpha@ == scalar_commit(committer.generator@, committer.blind@, t1.value(), t2.value()),
            ({
                let c = knowledge_challenge(old(transcript).absorbed(), *committer, commitment@, proof.alpha@);
                &&& proof.z1.value() == fr_lin(t1.value(), c, value.value() as int)
                &&& proof.z2.value() == fr_lin(t2.value(), c, blind.value() as int)
            }),
            final(transcript).absorbed() == knowledge_after(
                old(transcript).absorbed(),
                *committer,
                commitment@,
                proof.alpha@,
            ),
    {
        let alpha = committer.commit(t1, t2);
        let statement = [*commitment];
        append_scalar_statement(transcript, "knowledge".as_bytes(), committer, &statement);
        proof {
            assert(point_views(statement@) =~= seq![commitment@]);
        }
        transcript.append_point("knowledge-alpha".as_bytes(), &alpha);
        let c = transcript.challenge_field::<Bls12381FrConfig, 4>("knowledge-challenge".as_bytes());
        let z1 = lin(*t1, c, *value);
        let z2 = lin(*t2, c, *blind);
        KnowledgeProof { alpha, z1, z2 }
    }

    /// The proof with blinding scalars drawn from `rng`. Whatever they are,
    /// the proof is `prove_with` on some pair of scalars.
    pub fn prove(
        committer: &ScalarPedersen,
        commitment: &G1,
        value: &Fr,
        blind: &Fr,
        transcript: &mut Transcript,
        rng: &mut ark_std::rand::rngs::StdRng,
    ) -> (proof: Self)
        requires
            value.wf(),
            blind.wf(),
            commitment@ == scalar_commit(
                committer.generator@,
                committer.blind@,
                value.value(),
                blind.value(),
            ),
        ensures
            proof.proof_wf(),
            exists|t1: nat, t2: nat| {
                let c = knowledge_challenge(old(transcript).absorbed(), *committer, commitment@, proof.alpha@);
                &&& t1 < fr_modulus()
                &&& t2 < fr_modulus()
                &&& proof.alpha@ == #[trigger] scalar_commit(committer.generator@, committer.blind@, t1, t2)
                &&& proof.z1.value() == fr_lin(t1, c, value.value() as int)
                &&& proof.z2.value() == fr_lin(t2, c, blind.value() as int)
            },
            final(transcript).absorbed() == knowledge_after(
                old(transcript).absorbed(),
                *committer,
                commitment@,
                proof.alpha@,
            ),
    {
        let t1 = random_scalar(rng);
        let t2 = random_scalar(rng);
        let proof = Self::prove_with(committer, commitment, value, blind, &t1, &t2, transcript);
        proof {
            t1.lemma_value_bound();
            t2.lemma_value_bound();
            lemma_fr_modulus();
            let c = knowledge_challenge(old(transcript).absorbed(), *committer, commitment@, proof.alpha@);
            assert(proof.z1.value() == fr_lin(t1.value(), c, value.value() as int));
        }
        proof
    }

    /// `prove`, or `None` when the commitment does not open to `(value, blind)`.
    pub fn try_prove(
        committer: &ScalarPedersen,
        commitment: &G1,
        value: &Fr,
        blind: &Fr,
        transcript: &mut Transcript,
        rng: &mut ark_std::rand::rngs::StdRng,
    ) -> (r: Option<Self>)
        requires
            value.wf(),
            blind.wf(),
        ensures
            r is Some <==> commitment@ == scalar_commit(
                committer.generator@,
                committer.blind@,
                value.value(),
                blind.value(),
            ),
            r is None ==> final(transcript).absorbed() == old(transcript).absorbed(),
            r matches Some(proof) ==> proof.proof_wf(),
    {
        let expected = committer.commit(value, blind);
        if !expected.equals(commitment) {
            return None;
        }
        Some(Self::prove(committer, commitment, value, blind, transcript, rng))
    }

    /// Checks `Com(z1; z2) = c C + alpha`.
    pub fn verify(&self, committer: &ScalarPedersen, commitment: &G1, transcript: &mut Transcript) -> (r: bool)
        requires
            self.proof_wf(),
        ensures
            ({
                let v = knowledge_verify_spec(old(transcript).absorbed(), *committer, commitment@, *self);
                r == v.0 && final(transcript).absorbed() == v.1
            }),
            final(transcript).absorbed() == knowledge_after(
                old(transcript).absorbed(),
                *committer,
                commitment@,
                self.alpha@,
            ),
            r == (scalar_commit(committer.generator@, committer.blind@, self.z1.value(), self.z2.value())
                == g1_add_spec(
                g1_mul_spec(
                    commitment@,
                    knowledge_challenge(old(transcript).absorbed(), *committer, commitment@, self.alpha@),
                ),
                self.alpha@,
            )),
    {
        let statement = [*commitment];
        append_scalar_statement(transcript, "knowledge".as_bytes(), committer, &statement);
        proof {
            assert(point_views(statement@) =~= seq![commitment@]);
        }
        transcript.append_point("knowledge-alpha".as_bytes(), &self.alpha);
        let c = transcript.challenge_field::<Bls12381FrConfig, 4>("knowledge-challenge".as_bytes());
        let lhs = committer.commit(&self.z1, &self.z2);
        let rhs = commitment.mul_scalar(&c).add_point(&self.alpha);
        lhs.equals(&rhs)
    }
}


/// A proof that `C_1` and `C_2` hide the same value: `C_1 - C_2 = (r_1 - r_2) H`,
/// so it is a proof of knowledge of the discrete logarithm `r_1 - r_2` to base `H`.
#[derive(Clone, Copy, Debug)]
pub struct EqualityProof {
    pub alpha: G1,
    pub z: Fr,
}

/// The transcript once the equality statement and `alpha` are absorbed.
pub open spec fn equality_absorbed(
    state: Seq<u8>,
    key: ScalarPedersen,
    lhs: Seq<u8>,
    rhs: Seq<u8>,
    alpha: Seq<u8>,
) -> Seq<u8> {
    scalar_statement(state, "equality".spec_bytes(), key, seq![lhs, rhs]) + frame(
        "equality-alpha".spec_bytes(),
        alpha,
    )
}

/// The challenge of an equality proof.
pub open spec fn equality_challenge(
    state: Seq<u8>,
    key: ScalarPedersen,
    lhs: Seq<u8>,
    rhs: Seq<u8>,
    alpha: Seq<u8>,
) -> nat {
    fr_challenge(equality_absorbed(state, key, lhs, rhs, alpha), "equality-challenge".spec_bytes())
}

/// The transcript after an equality proof.
pub open spec fn equality_after(
    state: Seq<u8>,
    key: ScalarPedersen,
    lhs: Seq<u8>,
    rhs: Seq<u8>,
    alpha: Seq<u8>,
) -> Seq<u8> {
    fr_after(equality_absorbed(state, key, lhs, rhs, alpha), "equality-challenge".spec_bytes())
}

/// What the equality verifier computes: `(accepted, transcript)`.
pub open spec fn equality_verify_spec(
    state: Seq<u8>,
    key: ScalarPedersen,
    lhs: Seq<u8>,
    rhs: Seq<u8>,
    proof: EqualityProof,
) -> (bool, Seq<u8>) {
    let c = equality_challenge(state, key, lhs, rhs, proof.alpha@);
    (
        g1_mul_spec(key.blind@, proof.z.value()) == g1_add_spec(
            g1_mul_spec(g1_sub_spec(lhs, rhs), c),
            proof.alpha@,
        ),
        equality_after(state, key, lhs, rhs, proof.alpha@),
    )
}

impl EqualityProof {
    pub open spec fn proof_wf(&self) -> bool {
        self.z.wf()
    }

    /// The proof with blinding scalar `t`: `alpha = t H`,
    /// `z = t + c (r_1 - r_2)`. Refused: commitments that do not
    /// open to `value` with the given blinds.
    pub fn prove_with(
        committer: &ScalarPedersen,
        lhs_commitment: &G1,
        rhs_commitment: &G1,
        value: &Fr,
        lhs_blind: &Fr,
        rhs_blind: &Fr,
        t: &Fr,
        transcript: &mut Transcript,
    ) -> (proof: Self)
        requires
            value.wf(),
            lhs_blind.wf(),
            rhs_blind.wf(),
            t.wf(),
            lhs_commitment@ == scalar_commit(
                committer.generator@,
                committer.blind@,
                value.value(),
                lhs_blind.value(),
            ),
            rhs_commitment@ == scalar_commit(
                committer.generator@,
                committer.blind@,
                value.value(),
                rhs_blind.value(),
            ),
        ensures
            proof.proof_wf(),
            proof.alpha@ == g1_mul_spec(committer.blind@, t.value()),
            proof.z.value() == fr_lin(
                t.value(),
                equality_challenge(
                    old(transcript).absorbed(),
                    *committer,
                    lhs_commitment@,
                    rhs_commitment@,
                    proof.alpha@,
                ),
                lhs_blind.value() - rhs_blind.value(),
            ),
            final(transcript).absorbed() == equality_after(
                old(transcript).absorbed(),
                *committer,
                lhs_commitment@,
                rhs_commitment@,
                proof.alpha@,
            ),
    {
        let alpha = committer.blind.mul_scalar(t);
        let statement = [*lhs_commitment, *rhs_commitment];
        append_scalar_statement(transcript, "equality".as_bytes(), committer, &statement);
        proof {
            assert(point_views(statement@) =~= seq![lhs_commitment@, rhs_commitment@]);
        }
        transcript.append_point("equality-alpha".as_bytes(), &alpha);
        let c = transcript.challenge_field::<Bls12381FrConfig, 4>("equality-challenge".as_bytes());
        let diff = lhs_blind.sub(*rhs_blind);
        let z = lin(*t, c, diff);
        proof {
            lemma_fr_modulus();
            lemma_mod_twice(lhs_blind.value() - rhs_blind.value(), fr_modulus() as int);
            lemma_lin_cong(t.value(), c.value(), diff.value() as int, lhs_blind.value() - rhs_blind.value());
        }
        EqualityProof { alpha, z }
    }

    /// The proof with its blinding scalar drawn from `rng`.
    pub fn prove(
        committer: &ScalarPedersen,
        lhs_commitment: &G1,
        rhs_commitment: &G1,
        value: &Fr,
        lhs_blind: &Fr,
        rhs_blind: &Fr,
        transcript: &mut Transcript,
        rng: &mut ark_std::rand::rngs::StdRng,
    ) -> (proof: Self)
        requires
            value.wf(),
            lhs_blind.wf(),
            rhs_blind.wf(),
            lhs_commitment@ == scalar_commit(
                committer.generator@,
                committer.blind@,
                value.value(),
                lhs_blind.value(),
            ),
            rhs_commitment@ == scalar_commit(
                committer.generator@,
                committer.blind@,
                value.value(),
                rhs_blind.value(),
            ),
        ensures
            proof.proof_wf(),
            exists|t: nat|
                t < fr_modulus() && proof.alpha@ == #[trigger] g1_mul_spec(committer.blind@, t)
                    && proof.z.value() == fr_lin(
                    t,
                    equality_challenge(
                        old(transcript).absorbed(),
                        *committer,
                        lhs_commitment@,
                        rhs_commitment@,
                        proof.alpha@,
                    ),
                    lhs_blind.value() - rhs_blind.value(),
                ),
            final(transcript).absorbed() == equality_after(
                old(transcript).absorbed(),
                *committer,
                lhs_commitment@,
                rhs_commitment@,
                proof.alpha@,
            ),
    {
        let t = random_scalar(rng);
        let proof = Self::prove_with(
            committer,
            lhs_commitment,
            rhs_commitment,
            value,
            lhs_blind,
            rhs_blind,
            &t,
            transcript,
        );
        proof {
            t.lemma_value_bound();
            lemma_fr_modulus();
        }
        proof
    }

    /// `prove`, or `None` when a commitment does not open as given.
    pub fn try_prove(
        committer: &ScalarPedersen,
        lhs_commitment: &G1,
        rhs_commitment: &G1,
        value: &Fr,
        lhs_blind: &Fr,
        rhs_blind: &Fr,
        transcript: &mut Transcript,
        rng: &mut ark_std::rand::rngs::StdRng,
    ) -> (r: Option<Self>)
        requires
            value.wf(),
            lhs_blind.wf(),
            rhs_blind.wf(),
        ensures
            r is Some <==> (lhs_commitment@ == scalar_commit(
                committer.generator@,
                committer.blind@,
                value.value(),
                lhs_blind.value(),
            ) && rhs_commitment@ == scalar_commit(
                committer.generator@,
                committer.blind@,
                value.value(),
                rhs_blind.value(),
            )),
            r is None ==> final(transcript).absorbed() == old(transcript).absorbed(),
            r matches Some(proof) ==> proof.proof_wf(),
    {
        let lhs = committer.commit(value, lhs_blind);
        let rhs = committer.commit(value, rhs_blind);
        if !lhs.equals(lhs_commitment) || !rhs.equals(rhs_commitment) {
            return None;
        }
        Some(
            Self::prove(
                committer,
                lhs_commitment,
                rhs_commitment,
                value,
                lhs_blind,
                rhs_blind,
                transcript,
                rng,
            ),
        )
    }

    /// Checks `z H = c (C_1 - C_2) + alpha`.
    pub fn verify(
        &self,
        committer: &ScalarPedersen,
        lhs_commitment: &G1,
        rhs_commitment: &G1,
        transcript: &mut Transcript,
    ) -> (r: bool)
        requires
            self.proof_wf(),
        ensures
            ({
                let v = equality_verify_spec(
                    old(transcript).absorbed(),
                    *committer,
                    lhs_commitment@,
                    rhs_commitment@,
                    *self,
                );
                r == v.0 && final(transcript).absorbed() == v.1
            }),
            final(transcript).absorbed() == equality_after(
                old(transcript).absorbed(),
                *committer,
                lhs_commitment@,
                rhs_commitment@,
                self.alpha@,
            ),
            r == (g1_mul_spec(committer.blind@, self.z.value()) == g1_add_spec(
                g1_mul_spec(
                    g1_sub_spec(lhs_commitment@, rhs_commitment@),
                    equality_challenge(
                        old(transcript).absorbed(),
                        *committer,
                        lhs_commitment@,
                        rhs_commitment@,
                        self.alpha@,
                    ),
                ),
                self.alpha@,
            )),
    {
        let statement = [*lhs_commitment, *rhs_commitment];
        append_scalar_statement(transcript, "equality".as_bytes(), committer, &statement);
        proof {
            assert(point_views(statement@) =~= seq![lhs_commitment@, rhs_commitment@]);
        }
        transcript.append_point("equality-alpha".as_bytes(), &self.alpha);
        let c = transcript.challenge_field::<Bls12381FrConfig, 4>("equality-challenge".as_bytes());
        let lhs = committer.blind.mul_scalar(&self.z);
        let rhs = lhs_commitment.sub_point(rhs_commitment).mul_scalar(&c).add_point(&self.alpha);
        lhs.equals(&rhs)
    }
}


/// A proof that `X = Com(x)`, `Y = Com(y)` and `Z = Com(z)` satisfy `z = x y`.
///
/// Besides openings of `X` and `Y`, it opens `Z` as a commitment to `y` under
/// the generator `X`: `Z = y X + (r_Z - r_X y) H`.
#[derive(Clone, Copy, Debug)]
pub struct ProductProof {
    pub alpha: G1,
    pub beta: G1,
    pub delta: G1,
    pub z: [Fr; 5],
}

/// The transcript once the product statement and the three announcements
/// are absorbed.
pub open spec fn product_absorbed(
    state: Seq<u8>,
    key: ScalarPedersen,
    xc: Seq<u8>,
    yc: Seq<u8>,
    zc: Seq<u8>,
    alpha: Seq<u8>,
    beta: Seq<u8>,
    delta: Seq<u8>,
) -> Seq<u8> {
    scalar_statement(state, "product".spec_bytes(), key, seq![xc, yc, zc]) + frame("product-alpha".spec_bytes(), alpha)
        + frame("product-beta".spec_bytes(), beta) + frame("product-delta".spec_bytes(), delta)
}

/// The challenge of a product proof.
pub open spec fn product_challenge(
    state: Seq<u8>,
    key: ScalarPedersen,
    xc: Seq<u8>,
    yc: Seq<u8>,
    zc: Seq<u8>,
    alpha: Seq<u8>,
    beta: Seq<u8>,
    delta: Seq<u8>,
) -> nat {
    fr_challenge(product_absorbed(state, key, xc, yc, zc, alpha, beta, delta), "product-challenge".spec_bytes())
}

/// The transcript after a product proof.
pub open spec fn product_after(
    state: Seq<u8>,
    key: ScalarPedersen,
    xc: Seq<u8>,
    yc: Seq<u8>,
    zc: Seq<u8>,
    alpha: Seq<u8>,
    beta: Seq<u8>,
    delta: Seq<u8>,
) -> Seq<u8> {
    fr_after(product_absorbed(state, key, xc, yc, zc, alpha, beta, delta), "product-challenge".spec_bytes())
}

/// The openings the product prover needs: `X`, `Y` open to `x`, `y` and `Z`
/// opens to `x y`.
pub open spec fn product_openings(
    key: ScalarPedersen,
    x_commitment: Seq<u8>,
    y_commitment: Seq<u8>,
    z_commitment: Seq<u8>,
    x: Fr,
    x_blind: Fr,
    y: Fr,
    y_blind: Fr,
    z_blind: Fr,
) -> bool {
    &&& x_commitment == scalar_commit(key.generator@, key.blind@, x.value(), x_blind.value())
    &&& y_commitment == scalar_commit(key.generator@, key.blind@, y.value(), y_blind.value())
    &&& z_commitment == scalar_commit(
        key.generator@,
        key.blind@,
        (x.value() * y.value()) % fr_modulus(),
        z_blind.value(),
    )
}

/// The proof built from the blinding scalars `b` and the challenge `c`.
pub open spec fn product_response(
    proof: ProductProof,
    key: ScalarPedersen,
    x_commitment: Seq<u8>,
    b: Seq<nat>,
    c: nat,
    x: Fr,
    x_blind: Fr,
    y: Fr,
    y_blind: Fr,
    z_blind: Fr,
) -> bool {
    &&& proof.alpha@ == scalar_commit(key.generator@, key.blind@, b[0], b[1])
    &&& proof.beta@ == scalar_commit(key.generator@, key.blind@, b[2], b[3])
    &&& proof.delta@ == g1_add_spec(g1_mul_spec(x_commitment, b[2]), g1_mul_spec(key.blind@, b[4]))
    &&& proof.z[0].value() == fr_lin(b[0], c, x.value() as int)
    &&& proof.z[1].value() == fr_lin(b[1], c, x_blind.value() as int)
    &&& proof.z[2].value() == fr_lin(b[2], c, y.value() as int)
    &&& proof.z[3].value() == fr_lin(b[3], c, y_blind.value() as int)
    &&& proof.z[4].value() == fr_lin(b[4], c, z_blind.value() - x_blind.value() * y.value())
}

/// What the product verifier computes: `(accepted, transcript)`.
pub open spec fn product_verify_spec(
    state: Seq<u8>,
    key: ScalarPedersen,
    xc: Seq<u8>,
    yc: Seq<u8>,
    zc: Seq<u8>,
    proof: ProductProof,
) -> (bool, Seq<u8>) {
    let c = product_challenge(state, key, xc, yc, zc, proof.alpha@, proof.beta@, proof.delta@);
    let g = key.generator@;
    let h = key.blind@;
    (
        (scalar_commit(g, h, proof.z[0].value(), proof.z[1].value()) == g1_add_spec(
            g1_mul_spec(xc, c),
            proof.alpha@,
        )) && (scalar_commit(g, h, proof.z[2].value(), proof.z[3].value()) == g1_add_spec(
            g1_mul_spec(yc, c),
            proof.beta@,
        )) && (g1_add_spec(g1_mul_spec(xc, proof.z[2].value()), g1_mul_spec(h, proof.z[4].value()))
            == g1_add_spec(g1_mul_spec(zc, c), proof.delta@)),
        product_after(state, key, xc, yc, zc, proof.alpha@, proof.beta@, proof.delta@),
    )
}

impl ProductProof {
    pub open spec fn proof_wf(&self) -> bool {
        forall|i: int| 0 <= i < 5 ==> (#[trigger] self.z[i]).wf()
    }

    /// The proof with blinding scalars `b`: `alpha = Com(b0; b1)`,
    /// `beta = Com(b2; b3)`, `delta = b2 X + b4 H`, and the responses
    /// `b0 + c x`, `b1 + c r_X`, `b2 + c y`, `b3 + c r_Y`, `b4 + c (r_Z - r_X y)`.
    pub fn prove_with(
        committer: &ScalarPedersen,
        x_commitment: &G1,
        y_commitment: &G1,
        z_commitment: &G1,
        x: &Fr,
        x_blind: &Fr,
        y: &Fr,
        y_blind: &Fr,
        z_blind: &Fr,
        b: &[Fr; 5],
        transcript: &mut Transcript,
    ) -> (proof: Self)
        requires
            x.wf(),
            x_blind.wf(),
            y.wf(),
            y_blind.wf(),
            z_blind.wf(),
            forall|i: int| 0 <= i < 5 ==> (#[trigger] b[i]).wf(),
            product_openings(
                *committer,
                x_commitment@,
                y_commitment@,
                z_commitment@,
                *x,
                *x_blind,
                *y,
                *y_blind,
                *z_blind,
            ),
        ensures
            proof.proof_wf(),
            product_response(
                proof,
                *committer,
                x_commitment@,
                b@.map_values(|e: Fr| e.value()),
                product_challenge(
                    old(transcript).absorbed(),
                    *committer,
                    x_commitment@,
                    y_commitment@,
                    z_commitment@,
                    proof.alpha@,
                    proof.beta@,
                    proof.delta@,
                ),
                *x,
                *x_blind,
                *y,
                *y_blind,
                *z_blind,
            ),
            final(transcript).absorbed() == product_after(
                old(transcript).absorbed(),
                *committer,
                x_commitment@,
                y_commitment@,
                z_commitment@,
                proof.alpha@,
                proof.beta@,
                proof.delta@,
            ),
    {
        let alpha = committer.commit(&b[0], &b[1]);
        let beta = committer.commit(&b[2], &b[3]);
        let delta = x_commitment.mul_scalar(&b[2]).add_point(&committer.blind.mul_scalar(&b[4]));
        let statement = [*x_commitment, *y_commitment, *z_commitment];
        append_scalar_statement(transcript, "product".as_bytes(), committer, &statement);
        proof {
            assert(point_views(statement@) =~= seq![x_commitment@, y_commitment@, z_commitment@]);
        }
        transcript.append_point("product-alpha".as_bytes(), &alpha);
        transcript.append_point("product-beta".as_bytes(), &beta);
        transcript.append_point("product-delta".as_bytes(), &delta);
        let c = transcript.challenge_field::<Bls12381FrConfig, 4>("product-challenge".as_bytes());
        let prod = x_blind.mul(*y);
        let diff = z_blind.sub(prod);
        let z = [
            lin(b[0], c, *x),
            lin(b[1], c, *x_blind),
            lin(b[2], c, *y),
            lin(b[3], c, *y_blind),
            lin(b[4], c, diff),
        ];
        proof {
            lemma_fr_modulus();
            let p = fr_modulus() as int;
            let xy = x_blind.value() * y.value();
            lemma_mod_twice(xy as int, p);
            lemma_sub_cong(z_blind.value() as int, prod.value() as int, z_blind.value() as int, xy as int, p);
            diff.lemma_value_bound();
            lemma_small_mod(diff.value(), fr_modulus());
            lemma_lin_cong(b[4].value(), c.value(), diff.value() as int, z_blind.value() - xy);
        }
        let proof = ProductProof { alpha, beta, delta, z };
        proof {
            assert(proof.proof_wf()) by {
                assert forall|i: int| 0 <= i < 5 implies (#[trigger] proof.z[i]).wf() by {
                    assert(z@[i] == proof.z[i]);
                }
            }
        }
        proof
    }

    /// The proof with its five blinding scalars drawn from `rng`.
    pub fn prove(
        committer: &ScalarPedersen,
        x_commitment: &G1,
        y_commitment: &G1,
        z_commitment: &G1,
        x: &Fr,
        x_blind: &Fr,
        y: &Fr,
        y_blind: &Fr,
        z_blind: &Fr,
        transcript: &mut Transcript,
        rng: &mut ark_std::rand::rngs::StdRng,
    ) -> (proof: Self)
        requires
            x.wf(),
            x_blind.wf(),
            y.wf(),
            y_blind.wf(),
            z_blind.wf(),
            product_openings(
                *committer,
                x_commitment@,
                y_commitment@,
                z_commitment@,
                *x,
                *x_blind,
                *y,
                *y_blind,
                *z_blind,
            ),
        ensures
            proof.proof_wf(),
            exists|b: Seq<nat>|
                b.len() == 5 && (forall|i: int| 0 <= i < 5 ==> #[trigger] b[i] < fr_modulus())
                    && #[trigger] product_response(
                    proof,
                    *committer,
                    x_commitment@,
                    b,
                    product_challenge(
                        old(transcript).absorbed(),
                        *committer,
                        x_commitment@,
                        y_commitment@,
                        z_commitment@,
                        proof.alpha@,
                        proof.beta@,
                        proof.delta@,
                    ),
                    *x,
                    *x_blind,
                    *y,
                    *y_blind,
                    *z_blind,
                ),
            final(transcript).absorbed() == product_after(
                old(transcript).absorbed(),
                *committer,
                x_commitment@,
                y_commitment@,
                z_commitment@,
                proof.alpha@,
                proof.beta@,
                proof.delta@,
            ),
    {
        let b = [
            random_scalar(rng),
            random_scalar(rng),
            random_scalar(rng),
            random_scalar(rng),
            random_scalar(rng),
        ];
        proof {
            assert forall|i: int| 0 <= i < 5 implies (#[trigger] b[i]).wf() by {
                assert(b@[i] == b[i]);
            }
        }
        let proof = Self::prove_with(
            committer,
            x_commitment,
            y_commitment,
            z_commitment,
            x,
            x_blind,
            y,
            y_blind,
            z_blind,
            &b,
            transcript,
        );
        proof {
            lemma_fr_modulus();
            let bv = b@.map_values(|e: Fr| e.value());
            assert forall|i: int| 0 <= i < 5 implies #[trigger] bv[i] < fr_modulus() by {
                b[i].lemma_value_bound();
            }
        }
        proof
    }

    /// `prove`, or `None` when a commitment does not open as given.
    pub fn try_prove(
        committer: &ScalarPedersen,
        x_commitment: &G1,
        y_commitment: &G1,
        z_commitment: &G1,
        x: &Fr,
        x_blind: &Fr,
        y: &Fr,
        y_blind: &Fr,
        z_blind: &Fr,
        transcript: &mut Transcript,
        rng: &mut ark_std::rand::rngs::StdRng,
    ) -> (r: Option<Self>)
        requires
            x.wf(),
            x_blind.wf(),
            y.wf(),
            y_blind.wf(),
            z_blind.wf(),
        ensures
            r is Some <==> product_openings(
                *committer,
                x_commitment@,
                y_commitment@,
                z_commitment@,
                *x,
                *x_blind,
                *y,
                *y_blind,
                *z_blind,
            ),
            r is None ==> final(transcript).absorbed() == old(transcript).absorbed(),
            r matches Some(proof) ==> proof.proof_wf(),
    {
        let xc = committer.commit(x, x_blind);
        let yc = committer.commit(y, y_blind);
        let xy = x.mul(*y);
        let zc = committer.commit(&xy, z_blind);
        proof {
            lemma_fr_modulus();
        }
        if !xc.equals(x_commitment) || !yc.equals(y_commitment) || !zc.equals(z_commitment) {
            return None;
        }
        Some(
            Self::prove(
                committer,
                x_commitment,
                y_commitment,
                z_commitment,
                x,
                x_blind,
                y,
                y_blind,
                z_blind,
                transcript,
                rng,
            ),
        )
    }

    /// Checks `Com(z1; z2) = c X + alpha`, `Com(z3; z4) = c Y + beta` and
    /// `z3 X + z5 H = c Z + delta`.
    pub fn verify(
        &self,
        committer: &ScalarPedersen,
        x_commitment: &G1,
        y_commitment: &G1,
        z_commitment: &G1,
        transcript: &mut Transcript,
    ) -> (r: bool)
        requires
            self.proof_wf(),
        ensures
            ({
                let v = product_verify_spec(
                    old(transcript).absorbed(),
                    *committer,
                    x_commitment@,
                    y_commitment@,
                    z_commitment@,
                    *self,
                );
                r == v.0 && final(transcript).absorbed() == v.1
            }),
            final(transcript).absorbed() == product_after(
                old(transcript).absorbed(),
                *committer,
                x_commitment@,
                y_commitment@,
                z_commitment@,
                self.alpha@,
                self.beta@,
                self.delta@,
            ),
            ({
                let c = product_challenge(
                    old(transcript).absorbed(),
                    *committer,
                    x_commitment@,
                    y_commitment@,
                    z_commitment@,
                    self.alpha@,
                    self.beta@,
                    self.delta@,
                );
                let g = committer.generator@;
                let h = committer.blind@;
                r == ((scalar_commit(g, h, self.z[0].value(), self.z[1].value()) == g1_add_spec(
                    g1_mul_spec(x_commitment@, c),
                    self.alpha@,
                )) && (scalar_commit(g, h, self.z[2].value(), self.z[3].value()) == g1_add_spec(
                    g1_mul_spec(y_commitment@, c),
                    self.beta@,
                )) && (g1_add_spec(
                    g1_mul_spec(x_commitment@, self.z[2].value()),
                    g1_mul_spec(h, self.z[4].value()),
                ) == g1_add_spec(g1_mul_spec(z_commitment@, c), self.delta@)))
            }),
    {
        let statement = [*x_commitment, *y_commitment, *z_commitment];
        append_scalar_statement(transcript, "product".as_bytes(), committer, &statement);
        proof {
            assert(point_views(statement@) =~= seq![x_commitment@, y_commitment@, z_commitment@]);
        }
        transcript.append_point("product-alpha".as_bytes(), &self.alpha);
        transcript.append_point("product-beta".as_bytes(), &self.beta);
        transcript.append_point("product-delta".as_bytes(), &self.delta);
        let c = transcript.challenge_field::<Bls12381FrConfig, 4>("product-challenge".as_bytes());
        proof {
            assert(self.z[0].wf() && self.z[1].wf() && self.z[2].wf() && self.z[3].wf() && self.z[4].wf());
        }
        let first = committer.commit(&self.z[0], &self.z[1]).equals(
            &x_commitment.mul_scalar(&c).add_point(&self.alpha),
        );
        if !first {
            return false;
        }
        let second = committer.commit(&self.z[2], &self.z[3]).equals(
            &y_commitment.mul_scalar(&c).add_point(&self.beta),
        );
        if !second {
            return false;
        }
        let lhs = x_commitment.mul_scalar(&self.z[2]).add_point(&committer.blind.mul_scalar(&self.z[4]));
        let rhs = z_commitment.mul_scalar(&c).add_point(&self.delta);
        lhs.equals(&rhs)
    }
}

} // verus!
