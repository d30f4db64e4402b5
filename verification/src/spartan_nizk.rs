//! The Spartan NIZK: the two sum-checks of the NARK, made zero-knowledge.
//! Every value the prover sends is a Pedersen commitment, and sigma proofs
//! show the relations between them.
//!
//! - Both sum-checks are zero-knowledge; the verifier holds their claims as
//!   commitments only.
//! - The claims `(v_A, v_B, v_C)` at the end of the first one, and `v_A v_B`,
//!   are sent as commitments, with a knowledge proof for `v_C` and a product
//!   proof for `v_A v_B`. The first final claim `eq(tau, r_x) (v_A v_B - v_C)`
//!   is matched, by an equality proof, against `eq(tau, r_x) (C_AB - C_C)`.
//! - The second initial claim is the same linear combination of the claim
//!   commitments.
//! - `W~(r_y)` comes as the hiding result commitment of a Hyrax opening; the
//!   commitment to `Z~(r_y)` is `(1 - r_s) C_W + r_s (1, io)~(r_y) G`, and an
//!   equality proof matches it, times the matrices' value, against the second
//!   final claim.
//!
//! The verifier evaluates the matrix MLEs itself.

use crate::curve::{
    fr_modulus, g1_add_spec, g1_identity, g1_mul_spec, g1_sub_spec, lemma_fr_modulus,
    point_views, random_scalar, Bls12381FrConfig, Fr, G1,
};
use crate::helpers::{all_wf, fv};
use crate::hyrax::{
    hyrax_rows, hyrax_verify_spec, row_vars_of, HyraxPCS, HyraxPCSCommitment, HyraxPCSProof,
};
use crate::matrix::{matrix_mle, Matrix};
use crate::mle::{eq_value, mle_value, EqPoly, MultilinearPoly};
use crate::sigma::{
    equality_verify_spec, knowledge_verify_spec, product_verify_spec, EqualityProof,
    KnowledgeProof, ProductProof,
};
use crate::spartan_nark::{
    append_spartan_statement, commitment_bytes, commitment_encoding, draw_taus, fr_mod,
    lemma_final_value, lemma_small_nodes_invertible, matvec_mle, matvec_values, mle_of, nark_statement,
    rho_draws, tau_draws, zero_check_comb,
};
use crate::spartan_r1cs::{constraint_vars_of, half_vars_of, pad, SpartanR1CS};
use crate::transcript::{frame, Transcript};
use crate::uni_poly::values_of;
use crate::pedersen::{scalar_commit, ScalarPedersen};
use crate::zk_sumcheck::{
    final_claim_com, key_degree, key_wf, round_relation_fails, ZkSumcheckKey, ZkSumcheckOutput,
    ZkSumcheckProof,
};
use vstd::arithmetic::power2::*;
use vstd::prelude::*;
use vstd::string::StringSliceAdditionalSpecFns;

verus! {

/// A Spartan NIZK instance: the constraint system, the commitment key of its
/// witness half, and the keys of the two zero-knowledge sum-checks.
pub struct SpartanNizkInstance<M: Matrix<Bls12381FrConfig, 4>> {
    pcs: HyraxPCS,
    sc1_key: ZkSumcheckKey,
    sc2_key: ZkSumcheckKey,
    r1cs: SpartanR1CS<Bls12381FrConfig, 4, M>,
}

/// A proof: the witness commitment, the first sum-check, the commitments to
/// its end claims with their sigma proofs, the second sum-check, the witness
/// opening, and the final equality.
pub struct SpartanNizkProof {
    pub witness_com: HyraxPCSCommitment,
    pub sc1: ZkSumcheckProof,
    pub va_com: G1,
    pub vb_com: G1,
    pub vc_com: G1,
    pub prod_com: G1,
    pub vc_knowledge: KnowledgeProof,
    pub product: ProductProof,
    pub sc1_equality: EqualityProof,
    pub sc2: ZkSumcheckProof,
    pub witness_opening: HyraxPCSProof,
    pub sc2_equality: EqualityProof,
}

impl SpartanNizkProof {
    /// Every scalar the proof holds is reduced.
    pub open spec fn proof_wf(&self) -> bool {
        &&& self.sc1.proof_wf()
        &&& self.sc2.proof_wf()
        &&& self.vc_knowledge.proof_wf()
        &&& self.product.proof_wf()
        &&& self.sc1_equality.proof_wf()
        &&& self.sc2_equality.proof_wf()
        &&& self.witness_opening.ipa.proof_wf()
    }
}

/// What the verifier computes between the two sum-checks, from `state`:
/// it absorbs the four claim commitments, checks the knowledge proof for
/// `C_C` and the product proof, then the equality of `eq_rx (C_AB - C_C)`
/// with the first final claim commitment `fc1`.
pub open spec fn nizk_claims_spec(
    state: Seq<u8>,
    pcs: HyraxPCS,
    proof: SpartanNizkProof,
    eq_rx: nat,
    fc1: Seq<u8>,
) -> (bool, Seq<u8>) {
    let key = pcs.scalar;
    let t = state + frame("spartan-claim-a-commitment".spec_bytes(), proof.va_com@) + frame(
        "spartan-claim-b-commitment".spec_bytes(),
        proof.vb_com@,
    ) + frame("spartan-claim-c-commitment".spec_bytes(), proof.vc_com@) + frame(
        "spartan-claim-ab-commitment".spec_bytes(),
        proof.prod_com@,
    );
    let k = knowledge_verify_spec(t, key, proof.vc_com@, proof.vc_knowledge);
    if !k.0 {
        (false, k.1)
    } else {
        let p = product_verify_spec(k.1, key, proof.va_com@, proof.vb_com@, proof.prod_com@, proof.product);
        if !p.0 {
            (false, p.1)
        } else {
            equality_verify_spec(
                p.1,
                key,
                g1_mul_spec(g1_sub_spec(proof.prod_com@, proof.vc_com@), eq_rx),
                fc1,
                proof.sc1_equality,
            )
        }
    }
}

/// `rho_A C_A + rho_B C_B + rho_C C_C`.
pub open spec fn second_claim_com(proof: SpartanNizkProof, ra: nat, rb: nat, rc: nat) -> Seq<u8> {
    g1_add_spec(
        g1_add_spec(g1_mul_spec(proof.va_com@, ra), g1_mul_spec(proof.vb_com@, rb)),
        g1_mul_spec(proof.vc_com@, rc),
    )
}

/// `rho_A A~(rx, ry) + rho_B B~(rx, ry) + rho_C C~(rx, ry)`, reduced.
pub open spec fn matrix_eval_spec<M: Matrix<Bls12381FrConfig, 4>>(
    r1cs: SpartanR1CS<Bls12381FrConfig, 4, M>,
    rho: (int, int, int),
    rx: Seq<int>,
    ry: Seq<int>,
) -> int {
    fr_mod(
        fr_mod(
            fr_mod(rho.0 * matrix_mle::<Bls12381FrConfig, 4, M>(&r1cs.a, rx, ry)) + fr_mod(
                rho.1 * matrix_mle::<Bls12381FrConfig, 4, M>(&r1cs.b, rx, ry),
            ),
        ) + fr_mod(rho.2 * matrix_mle::<Bls12381FrConfig, 4, M>(&r1cs.c, rx, ry)),
    )
}

/// The commitment to `Z~(ry)` built from the commitment `wc` to `W~(ry')`:
/// `(1 - r_s) wc + r_s (1, io)~(ry') G`, where `ry = (ry', r_s)`.
pub open spec fn assignment_com_spec(
    pcs: HyraxPCS,
    io: Seq<int>,
    ry: Seq<int>,
    hv: nat,
    wc: Seq<u8>,
) -> Seq<u8> {
    let sel = ry[hv as int];
    let pe = fr_mod(mle_value(pad(seq![1int] + io, pow2(hv)), ry.take(hv as int)));
    g1_add_spec(
        g1_mul_spec(wc, fr_mod(1 - sel) as nat),
        g1_mul_spec(pcs.scalar.generator@, fr_mod(sel * pe) as nat),
    )
}

/// What the verifier computes from the challenges `rho` on, given the first
/// sum-check's point `rx`: the second sum-check from the combined claim
/// commitment, the witness opening at the first half of `ry`, and the
/// equality of the matrices' value times the commitment to `Z~(ry)` with the
/// second final claim commitment.
pub open spec fn nizk_second_spec<M: Matrix<Bls12381FrConfig, 4>>(
    state: Seq<u8>,
    pcs: HyraxPCS,
    sc2_key: ZkSumcheckKey,
    r1cs: SpartanR1CS<Bls12381FrConfig, 4, M>,
    io: Seq<int>,
    proof: SpartanNizkProof,
    rx: Seq<int>,
) -> (bool, Seq<u8>) {
    let rho = rho_draws(state);
    let cc2 = second_claim_com(proof, rho.0 as nat, rho.1 as nat, rho.2 as nat);
    if !proof.sc2.shape_ok() {
        (false, rho.3)
    } else {
        let v2 = proof.sc2.verify_spec(sc2_key, cc2, rho.3);
        let hv = half_vars_of(r1cs.structure);
        if !v2.0 || v2.1.len() != hv + 1 {
            (false, v2.2)
        } else {
            let h = hyrax_verify_spec(
                v2.2,
                pcs,
                point_views(proof.witness_com.rows@),
                v2.1.take(hv as int),
                proof.witness_opening,
            );
            if !h.0 {
                (false, h.1)
            } else {
                let z_com = assignment_com_spec(pcs, io, v2.1, hv, proof.witness_opening.result_com@);
                let me = matrix_eval_spec(r1cs, (rho.0, rho.1, rho.2), rx, v2.1);
                equality_verify_spec(
                    h.1,
                    pcs.scalar,
                    g1_mul_spec(z_com, me as nat),
                    final_claim_com(cc2, point_views(proof.sc2.eval_coms@)),
                    proof.sc2_equality,
                )
            }
        }
    }
}

/// What the verifier computes: `(accepted, transcript)`.
pub open spec fn nizk_verify_spec<M: Matrix<Bls12381FrConfig, 4>>(
    state: Seq<u8>,
    pcs: HyraxPCS,
    sc1_key: ZkSumcheckKey,
    sc2_key: ZkSumcheckKey,
    r1cs: SpartanR1CS<Bls12381FrConfig, 4, M>,
    io: Seq<int>,
    proof: SpartanNizkProof,
) -> (bool, Seq<u8>) {
    let s = r1cs.structure;
    if io.len() != s.num_io {
        (false, state)
    } else {
        let t1 = nark_statement(state, r1cs, io) + frame(
            "spartan-witness-commitment".spec_bytes(),
            commitment_bytes(point_views(proof.witness_com.rows@)),
        );
        let cv = constraint_vars_of(s);
        let taus = tau_draws(t1, cv);
        if !proof.sc1.shape_ok() {
            (false, taus.1)
        } else {
            let v1 = proof.sc1.verify_spec(sc1_key, g1_identity(), taus.1);
            if !v1.0 || v1.1.len() != cv {
                (false, v1.2)
            } else {
                let a = nizk_claims_spec(
                    v1.2,
                    pcs,
                    proof,
                    fr_mod(eq_value(taus.0, v1.1)) as nat,
                    final_claim_com(g1_identity(), point_views(proof.sc1.eval_coms@)),
                );
                if !a.0 {
                    a
                } else {
                    nizk_second_spec(a.1, pcs, sc2_key, r1cs, io, proof, v1.1)
                }
            }
        }
    }
}

impl<M: Matrix<Bls12381FrConfig, 4>> SpartanNizkInstance<M> {
    pub closed spec fn spec_pcs(&self) -> HyraxPCS {
        self.pcs
    }

    pub closed spec fn spec_sc1_key(&self) -> ZkSumcheckKey {
        self.sc1_key
    }

    pub closed spec fn spec_sc2_key(&self) -> ZkSumcheckKey {
        self.sc2_key
    }

    pub closed spec fn spec_r1cs(&self) -> SpartanR1CS<Bls12381FrConfig, 4, M> {
        self.r1cs
    }

    /// The commitment key of the witness half.
    pub fn pcs(&self) -> (r: &HyraxPCS)
        ensures
            *r == self.spec_pcs(),
    {
        &self.pcs
    }

    /// The constraint system.
    pub fn r1cs(&self) -> (r: &SpartanR1CS<Bls12381FrConfig, 4, M>)
        ensures
            *r == self.spec_r1cs(),
    {
        &self.r1cs
    }

    /// The constraint system is well formed, the key commits to its witness
    /// half, and the sum-check keys, of degrees 3 and 2, share the PCS's
    /// scalar key.
    pub open spec fn inst_wf(&self) -> bool {
        &&& self.spec_r1cs().spartan_wf()
        &&& self.spec_pcs().pcs_wf()
        &&& self.spec_pcs().num_vars == half_vars_of(self.spec_r1cs().structure)
        &&& key_wf(self.spec_sc1_key())
        &&& key_degree(self.spec_sc1_key()) == 3
        &&& self.spec_sc1_key().scalar == self.spec_pcs().scalar
        &&& key_wf(self.spec_sc2_key())
        &&& key_degree(self.spec_sc2_key()) == 2
        &&& self.spec_sc2_key().scalar == self.spec_pcs().scalar
    }

    /// Sets up the witness key and the two sum-check keys; the sum-check keys
    /// share the PCS's scalar key and blinding generator, so that claim
    /// commitments combine with the opening's result commitment.
    pub fn encode(r1cs: SpartanR1CS<Bls12381FrConfig, 4, M>) -> (r: Result<
        Self,
        ark_ec::hashing::HashToCurveError,
    >)
        requires
            r1cs.spartan_wf(),
        ensures
            r is Ok,
            r matches Ok(inst) ==> inst.inst_wf() && inst.spec_r1cs() == r1cs,
    {
        let vars = r1cs.half_vars();
        let pcs = HyraxPCS::setup("spartan_nizk_pcs".as_bytes(), vars)?;
        let sc1_key = ZkSumcheckKey::setup("spartan_nizk_sumcheck_1".as_bytes(), 3, pcs.scalar)?;
        let sc2_key = ZkSumcheckKey::setup("spartan_nizk_sumcheck_2".as_bytes(), 2, pcs.scalar)?;
        Ok(SpartanNizkInstance { pcs, sc1_key, sc2_key, r1cs })
    }

    /// Absorbs the four claim commitments.
    fn append_claim_commitments(proof_claims: [&G1; 4], transcript: &mut Transcript)
        ensures
            final(transcript).absorbed() == old(transcript).absorbed() + frame(
                "spartan-claim-a-commitment".spec_bytes(),
                proof_claims[0]@,
            ) + frame("spartan-claim-b-commitment".spec_bytes(), proof_claims[1]@) + frame(
                "spartan-claim-c-commitment".spec_bytes(),
                proof_claims[2]@,
            ) + frame("spartan-claim-ab-commitment".spec_bytes(), proof_claims[3]@),
    {
        transcript.append_point("spartan-claim-a-commitment".as_bytes(), proof_claims[0]);
        transcript.append_point("spartan-claim-b-commitment".as_bytes(), proof_claims[1]);
        transcript.append_point("spartan-claim-c-commitment".as_bytes(), proof_claims[2]);
        transcript.append_point("spartan-claim-ab-commitment".as_bytes(), proof_claims[3]);
    }

    /// Draws `rho_A`, `rho_B`, `rho_C`.
    fn challenge_rhos(transcript: &mut Transcript) -> (r: [Fr; 3])
        ensures
            r[0].wf(),
            r[1].wf(),
            r[2].wf(),
            ({
                let d = rho_draws(old(transcript).absorbed());
                &&& fv(r[0]) == d.0
                &&& fv(r[1]) == d.1
                &&& fv(r[2]) == d.2
                &&& final(transcript).absorbed() == d.3
            }),
    {
        let a = transcript.challenge_field::<Bls12381FrConfig, 4>("spartan-rho-a".as_bytes());
        let b = transcript.challenge_field::<Bls12381FrConfig, 4>("spartan-rho-b".as_bytes());
        let c = transcript.challenge_field::<Bls12381FrConfig, 4>("spartan-rho-c".as_bytes());
        [a, b, c]
    }

    /// The commitment to `Z~(ry)` from the commitment to `W~(ry')`, and the
    /// weight `1 - r_s` of the witness half.
    fn assignment_commitment(&self, io: &[Fr], ry: &[Fr], witness_eval_com: &G1) -> (r: (G1, Fr))
        requires
            self.inst_wf(),
            io.len() == self.spec_r1cs().structure.num_io,
            all_wf(io@),
            ry.len() == half_vars_of(self.spec_r1cs().structure) + 1,
            all_wf(ry@),
        ensures
            r.0@ == assignment_com_spec(
                self.spec_pcs(),
                values_of(io@),
                values_of(ry@),
                half_vars_of(self.spec_r1cs().structure),
                witness_eval_com@,
            ),
            r.1.wf(),
            fv(r.1) == fr_mod(1 - fv(ry@[half_vars_of(self.spec_r1cs().structure) as int])),
    {
        let half_vars = self.r1cs.half_vars();
        let selector = ry[half_vars];
        let witness_weight = Fr::one().sub(selector);
        let witness_point = vstd::slice::slice_subrange(ry, 0, half_vars);
        proof {
            lemma_fr_modulus();
            assert forall|i: int| 0 <= i < witness_point.len() implies (#[trigger] witness_point@[i]).wf() by {
                assert(witness_point@[i] == ry@[i]);
            }
            assert(values_of(witness_point@) =~= values_of(ry@).take(half_vars as int));
        }
        let public_eval = self.r1cs.public_mle(io).eval(witness_point);
        let c = witness_eval_com.mul_scalar(&witness_weight).add_point(
            &self.pcs.scalar.generator.mul_scalar(&selector.mul(public_eval)),
        );
        (c, witness_weight)
    }
}


impl<M: Matrix<Bls12381FrConfig, 4>> SpartanNizkInstance<M> {
    /// The checks between the two sum-checks, as `nizk_claims_spec` states
    /// them.
    fn verify_claims(
        &self,
        proof: &SpartanNizkProof,
        eq_rx: &Fr,
        sc1_final_com: &G1,
        transcript: &mut Transcript,
    ) -> (r: bool)
        requires
            self.inst_wf(),
            proof.proof_wf(),
            eq_rx.wf(),
        ensures
            ({
                let v = nizk_claims_spec(
                    old(transcript).absorbed(),
                    self.spec_pcs(),
                    *proof,
                    eq_rx.value(),
                    sc1_final_com@,
                );
                r == v.0 && final(transcript).absorbed() == v.1
            }),
    {
        let scalar = &self.pcs.scalar;
        Self::append_claim_commitments(
            [&proof.va_com, &proof.vb_com, &proof.vc_com, &proof.prod_com],
            transcript,
        );
        if !proof.vc_knowledge.verify(scalar, &proof.vc_com, transcript) {
            return false;
        }
        if !proof.product.verify(scalar, &proof.va_com, &proof.vb_com, &proof.prod_com, transcript) {
            return false;
        }
        let expected1_com = proof.prod_com.sub_point(&proof.vc_com).mul_scalar(eq_rx);
        proof.sc1_equality.verify(scalar, &expected1_com, sc1_final_com, transcript)
    }

    /// The checks from the challenges `rho` on, as `nizk_second_spec` states
    /// them.
    #[verifier::rlimit(40)]
    fn verify_second(
        &self,
        io: &[Fr],
        proof: &SpartanNizkProof,
        rx: &[Fr],
        transcript: &mut Transcript,
    ) -> (r: bool)
        requires
            self.inst_wf(),
            proof.proof_wf(),
            io.len() == self.spec_r1cs().structure.num_io,
            all_wf(io@),
            rx.len() == constraint_vars_of(self.spec_r1cs().structure),
            all_wf(rx@),
        ensures
            ({
                let v = nizk_second_spec(
                    old(transcript).absorbed(),
                    self.spec_pcs(),
                    self.spec_sc2_key(),
                    self.spec_r1cs(),
                    values_of(io@),
                    *proof,
                    values_of(rx@),
                );
                r == v.0 && final(transcript).absorbed() == v.1
            }),
    {
        let rhos = Self::challenge_rhos(transcript);
        let rho_a = rhos[0];
        let rho_b = rhos[1];
        let rho_c = rhos[2];
        let sc2_claim_com = proof.va_com.mul_scalar(&rho_a).add_point(&proof.vb_com.mul_scalar(&rho_b)).add_point(
            &proof.vc_com.mul_scalar(&rho_c),
        );
        let (sc2_final_com, ry) = match proof.sc2.verify(&self.sc2_key, &sc2_claim_com, transcript) {
            Some(out) => out,
            None => {
                return false;
            },
        };
        if ry.len() != self.r1cs.vars() {
            return false;
        }
        let half_vars = self.r1cs.half_vars();
        let witness_point = vstd::slice::slice_subrange(ry.as_slice(), 0, half_vars);
        proof {
            assert forall|i: int| 0 <= i < witness_point.len() implies (#[trigger] witness_point@[i]).wf() by {
                assert(witness_point@[i] == ry@[i]);
            }
            assert(values_of(witness_point@) =~= values_of(ry@).take(half_vars as int));
        }
        if !self.pcs.verify(&proof.witness_com, witness_point, &proof.witness_opening, transcript) {
            return false;
        }
        let (z_com, _) = self.assignment_commitment(io, ry.as_slice(), &proof.witness_opening.result_com);
        let ma = crate::matrix::eval_mle(&self.r1cs.a, rx, ry.as_slice());
        let mb = crate::matrix::eval_mle(&self.r1cs.b, rx, ry.as_slice());
        let mc = crate::matrix::eval_mle(&self.r1cs.c, rx, ry.as_slice());
        let matrix_eval = rho_a.mul(ma).add(rho_b.mul(mb)).add(rho_c.mul(mc));
        let expected2_com = z_com.mul_scalar(&matrix_eval);
        proof {
            lemma_fr_modulus();
        }
        proof.sc2_equality.verify(&self.pcs.scalar, &expected2_com, &sc2_final_com, transcript)
    }

    /// Replays the transcript and checks both zero-knowledge sum-checks, the
    /// sigma proofs on the claim commitments, and the witness opening.
    pub fn verify(&self, io: &[Fr], proof: &SpartanNizkProof, transcript: &mut Transcript) -> (r: bool)
        requires
            self.inst_wf(),
            proof.proof_wf(),
            all_wf(io@),
        ensures
            ({
                let v = nizk_verify_spec(
                    old(transcript).absorbed(),
                    self.spec_pcs(),
                    self.spec_sc1_key(),
                    self.spec_sc2_key(),
                    self.spec_r1cs(),
                    values_of(io@),
                    *proof,
                );
                r == v.0 && final(transcript).absorbed() == v.1
            }),
    {
        if io.len() != self.r1cs.structure.num_io {
            return false;
        }
        append_spartan_statement(&self.r1cs, io, transcript);
        let enc = commitment_encoding(&proof.witness_com);
        transcript.append_bytes("spartan-witness-commitment".as_bytes(), enc.as_slice());
        let constraint_vars = self.r1cs.constraint_vars();
        let tau = draw_taus(transcript, constraint_vars);
        let zero = G1::zero();
        let (sc1_final_com, rx) = match proof.sc1.verify(&self.sc1_key, &zero, transcript) {
            Some(out) => out,
            None => {
                return false;
            },
        };
        if rx.len() != constraint_vars {
            return false;
        }
        let eq_rx = EqPoly::new(tau).eval(rx.as_slice());
        proof {
            lemma_fr_modulus();
        }
        if !self.verify_claims(proof, &eq_rx, &sc1_final_com, transcript) {
            return false;
        }
        self.verify_second(io, proof, rx.as_slice(), transcript)
    }
}


/// Whether the relation the first equality proof is handed holds: with
/// `C_AB = Com(va vb; pb)` and `C_C = Com(vc; vcb)`, the commitment
/// `e (C_AB - C_C)` opens to the final claim `f` under the blind
/// `e (pb - vcb)`, and `fc` opens to `f` under `fb`.
pub open spec fn claims_equality_holds(
    key: ScalarPedersen,
    e: nat,
    va: nat,
    vb: nat,
    vc: nat,
    f: nat,
    fb: nat,
    fc: Seq<u8>,
    pb: nat,
    vcb: nat,
) -> bool {
    let p = fr_modulus() as int;
    let g = key.generator@;
    let h = key.blind@;
    let prod = scalar_commit(g, h, (va * vb) % fr_modulus(), pb);
    let vcc = scalar_commit(g, h, vc, vcb);
    &&& g1_mul_spec(g1_sub_spec(prod, vcc), e) == scalar_commit(
        g,
        h,
        f,
        ((e * (((pb - vcb) as int) % p)) % p) as nat,
    )
    &&& fc == scalar_commit(g, h, f, fb)
}

/// Whether the relation the second equality proof is handed holds: with
/// the result commitment `rc` of the opening, the commitment `me C_Z` opens
/// to the final claim `f` under the blind `me (1 - r_s) rb`, and `fc` opens to
/// `f` under `fb`.
pub open spec fn opening_equality_holds(
    pcs: HyraxPCS,
    io: Seq<int>,
    ry: Seq<int>,
    hv: nat,
    rc: Seq<u8>,
    me: nat,
    rb: nat,
    f: nat,
    fb: nat,
    fc: Seq<u8>,
) -> bool {
    let p = fr_modulus() as int;
    let g = pcs.scalar.generator@;
    let h = pcs.scalar.blind@;
    let ww = fr_mod(1 - ry[hv as int]);
    &&& g1_mul_spec(assignment_com_spec(pcs, io, ry, hv, rc), me) == scalar_commit(
        g,
        h,
        f,
        ((((me * ww) % p) * rb) % p) as nat,
    )
    &&& fc == scalar_commit(g, h, f, fb)
}

/// The ways the witness opening is refused for the result blind `rb`: the
/// Hyrax opening at the first half of `ry` is refused, or, for its result
/// commitment, the second equality relation fails.
pub open spec fn opening_refused(
    state: Seq<u8>,
    pcs: HyraxPCS,
    rows: Seq<Seq<u8>>,
    evals: Seq<Fr>,
    com_blinds: Seq<Fr>,
    io: Seq<int>,
    ry: Seq<int>,
    hv: nat,
    me: nat,
    rb: nat,
    f: nat,
    fb: nat,
    fc: Seq<u8>,
) -> bool {
    ||| crate::hyrax::hyrax_open_refused(state, pcs, rows, evals, com_blinds, ry.take(hv as int), rb)
    ||| exists|rc: Seq<u8>| !#[trigger] opening_equality_holds(pcs, io, ry, hv, rc, me, rb, f, fb, fc)
}

/// The ways the prover is refused: a round of either zero-knowledge
/// sum-check, the first equality relation, or the witness opening, for some
/// values handed to them, the final claim commitments opening as the
/// sum-checks give them; the opening is over the Hyrax commitment of the
/// witness table `table` for some blinds.
pub open spec fn nizk_prove_refused(
    pcs: HyraxPCS,
    sc1_key: ZkSumcheckKey,
    sc2_key: ZkSumcheckKey,
    hv: nat,
    io: Seq<int>,
    table: Seq<int>,
) -> bool {
    ||| round_relation_fails(sc1_key)
    ||| round_relation_fails(sc2_key)
    ||| exists|e: nat, va: nat, vb: nat, vc: nat, f: nat, fb: nat, fc: Seq<u8>, pb: nat, vcb: nat|
        fc == scalar_commit(pcs.scalar.generator@, pcs.scalar.blind@, f, fb)
            && !#[trigger] claims_equality_holds(pcs.scalar, e, va, vb, vc, f, fb, fc, pb, vcb)
    ||| exists|
        state: Seq<u8>,
        bl: Seq<Fr>,
        evals: Seq<Fr>,
        ry: Seq<int>,
        me: nat,
        rb: nat,
        f: nat,
        fb: nat,
        fc: Seq<u8>,
    |
        values_of(evals) == table && ry.len() == hv + 1 && fc == scalar_commit(
            pcs.scalar.generator@,
            pcs.scalar.blind@,
            f,
            fb,
        ) && #[trigger] opening_refused(
            state,
            pcs,
            hyrax_rows(pcs, table, bl),
            evals,
            bl,
            io,
            ry,
            hv,
            me,
            rb,
            f,
            fb,
            fc,
        )
}

/// The factors' final values at the end of the first sum-check are the
/// extensions of `A z`, `B z`, `C z` at its point `rx`.
pub open spec fn first_claims_hold<M: Matrix<Bls12381FrConfig, 4>>(
    r1cs: SpartanR1CS<Bls12381FrConfig, 4, M>,
    z: Seq<int>,
    rx: Seq<int>,
    finals: Seq<Fr>,
) -> bool {
    let p = fr_modulus() as int;
    &&& fv(finals[1]) == mle_value(matvec_values(&r1cs.a, z), rx) % p
    &&& fv(finals[2]) == mle_value(matvec_values(&r1cs.b, z), rx) % p
    &&& fv(finals[3]) == mle_value(matvec_values(&r1cs.c, z), rx) % p
}

/// The opening commits with blind `b` to the extension of the witness table
/// at the first `hv` coordinates of `ry`.
pub open spec fn witness_opening_at(
    pcs: HyraxPCS,
    table: Seq<int>,
    hv: nat,
    opening: HyraxPCSProof,
    ry: Seq<int>,
    b: nat,
) -> bool {
    &&& ry.len() == hv + 1
    &&& b < fr_modulus()
    &&& opening.result_com@ == scalar_commit(
        pcs.scalar.generator@,
        pcs.scalar.blind@,
        (mle_value(table, ry.take(hv as int)) % (fr_modulus() as int)) as nat,
        b,
    )
}

/// `C_A`, `C_B`, `C_C` commit with blinds `ba`, `bb`, `bc` to the extensions
/// of `A z`, `B z`, `C z` at `rx`, and `C_AB` with blind `bp` to the product
/// of the first two.
pub open spec fn claim_commitments_at<M: Matrix<Bls12381FrConfig, 4>>(
    pcs: HyraxPCS,
    r1cs: SpartanR1CS<Bls12381FrConfig, 4, M>,
    z: Seq<int>,
    proof: SpartanNizkProof,
    rx: Seq<int>,
    ba: nat,
    bb: nat,
    bc: nat,
    bp: nat,
) -> bool {
    let p = fr_modulus() as int;
    let g = pcs.scalar.generator@;
    let h = pcs.scalar.blind@;
    let ma = mle_value(matvec_values(&r1cs.a, z), rx) % p;
    let mb = mle_value(matvec_values(&r1cs.b, z), rx) % p;
    let mc = mle_value(matvec_values(&r1cs.c, z), rx) % p;
    &&& rx.len() == constraint_vars_of(r1cs.structure)
    &&& ba < p && bb < p && bc < p && bp < p
    &&& proof.va_com@ == scalar_commit(g, h, ma as nat, ba)
    &&& proof.vb_com@ == scalar_commit(g, h, mb as nat, bb)
    &&& proof.vc_com@ == scalar_commit(g, h, mc as nat, bc)
    &&& proof.prod_com@ == scalar_commit(g, h, ((ma * mb) % p) as nat, bp)
}

/// The claim commitments of a proof hide the honest claims: for some point
/// `rx` of the first sum-check's length and some blinds.
pub open spec fn claim_commitments_hold<M: Matrix<Bls12381FrConfig, 4>>(
    pcs: HyraxPCS,
    r1cs: SpartanR1CS<Bls12381FrConfig, 4, M>,
    z: Seq<int>,
    proof: SpartanNizkProof,
) -> bool {
    exists|rx: Seq<int>, ba: nat, bb: nat, bc: nat, bp: nat|
        #[trigger] claim_commitments_at(pcs, r1cs, z, proof, rx, ba, bb, bc, bp)
}

impl<M: Matrix<Bls12381FrConfig, 4>> SpartanNizkInstance<M> {
    /// The first zero-knowledge sum-check: draws `tau` and proves
    /// `0 = sum_x eq(tau, x) (Az~(x) Bz~(x) - Cz~(x))` from the commitment to
    /// zero with blind zero.
    fn prove_first(
        &self,
        z: &Vec<Fr>,
        transcript: &mut Transcript,
        rng: &mut ark_std::rand::rngs::StdRng,
    ) -> (r: Option<ZkSumcheckOutput>)
        requires
            self.inst_wf(),
            z.len() == self.spec_r1cs().a.spec_cols(),
            all_wf(z@),
        ensures
            r matches Some(o) ==> {
                &&& o.proof.proof_wf()
                &&& o.proof.shape_ok()
                &&& o.proof.poly_coms.len() == constraint_vars_of(self.spec_r1cs().structure)
                &&& o.final_evals.len() == 4
                &&& all_wf(o.final_evals@)
                &&& o.point.len() == constraint_vars_of(self.spec_r1cs().structure)
                &&& all_wf(o.point@)
                &&& o.final_claim.wf()
                &&& o.final_blind.wf()
                &&& o.final_com@ == scalar_commit(
                    self.spec_pcs().scalar.generator@,
                    self.spec_pcs().scalar.blind@,
                    o.final_claim.value(),
                    o.final_blind.value(),
                )
                &&& first_claims_hold(self.spec_r1cs(), values_of(z@), values_of(o.point@), o.final_evals@)
            },
            r is None ==> round_relation_fails(self.spec_sc1_key()),
    {
        proof {
            lemma_fr_modulus();
            lemma_small_nodes_invertible(4);
        }
        let constraint_vars = self.r1cs.constraint_vars();
        let tau = draw_taus(transcript, constraint_vars);
        let eq = mle_of(EqPoly::new(tau).table(), Ghost(constraint_vars as nat));
        let az = matvec_mle(&self.r1cs.a, z.as_slice(), Ghost(constraint_vars as nat));
        let bz = matvec_mle(&self.r1cs.b, z.as_slice(), Ghost(constraint_vars as nat));
        let cz = matvec_mle(&self.r1cs.c, z.as_slice(), Ghost(constraint_vars as nat));
        let ghost ta = az.spec_table();
        let ghost tb = bz.spec_table();
        let ghost tc = cz.spec_table();
        let zero = Fr::zero();
        let polys = vec![eq, az, bz, cz];
        proof {
            assert(polys@[1].spec_table() == ta);
            assert(polys@[2].spec_table() == tb);
            assert(polys@[3].spec_table() == tc);
        }
        let out = ZkSumcheckProof::prove(&self.sc1_key, polys, zero, zero, zero_check_comb, transcript, rng);
        proof {
            if out is Some {
                let o = out->0;
                let rx = values_of(o.point@);
                assert(rx.len() == constraint_vars);
                lemma_final_value(o.final_evals@[1], ta, rx);
                lemma_final_value(o.final_evals@[2], tb, rx);
                lemma_final_value(o.final_evals@[3], tc, rx);
            }
        }
        out
    }

    /// The claim commitments at the end of the first sum-check, the
    /// knowledge proof for `C_C`, the product proof for `C_AB`, and the
    /// equality of `eq_rx (C_AB - C_C)` with the first final claim commitment.
    /// Returns those with the blinds of `C_A`, `C_B`, `C_C`.
    fn prove_claims(
        &self,
        eq_rx: Fr,
        va: Fr,
        vb: Fr,
        vc: Fr,
        sc1_final: Fr,
        sc1_final_blind: Fr,
        sc1_final_com: &G1,
        transcript: &mut Transcript,
        rng: &mut ark_std::rand::rngs::StdRng,
    ) -> (r: Option<(G1, G1, G1, G1, KnowledgeProof, ProductProof, EqualityProof, Fr, Fr, Fr)>)
        requires
            self.inst_wf(),
            eq_rx.wf(),
            va.wf(),
            vb.wf(),
            vc.wf(),
            sc1_final.wf(),
            sc1_final_blind.wf(),
        ensures
            r matches Some(t) ==> {
                let g = self.spec_pcs().scalar.generator@;
                let h = self.spec_pcs().scalar.blind@;
                &&& t.4.proof_wf()
                &&& t.5.proof_wf()
                &&& t.6.proof_wf()
                &&& t.7.wf()
                &&& t.8.wf()
                &&& t.9.wf()
                &&& t.0@ == scalar_commit(g, h, va.value(), t.7.value())
                &&& t.1@ == scalar_commit(g, h, vb.value(), t.8.value())
                &&& t.2@ == scalar_commit(g, h, vc.value(), t.9.value())
                &&& exists|b: nat|
                    b < fr_modulus() && t.3@ == #[trigger] scalar_commit(
                        g,
                        h,
                        ((va.value() as int * vb.value()) % (fr_modulus() as int)) as nat,
                        b,
                    )
            },
            r is None ==> exists|pb: nat, vcb: nat|
                pb < fr_modulus() && vcb < fr_modulus() && !#[trigger] claims_equality_holds(
                    self.spec_pcs().scalar,
                    eq_rx.value(),
                    va.value(),
                    vb.value(),
                    vc.value(),
                    sc1_final.value(),
                    sc1_final_blind.value(),
                    sc1_final_com@,
                    pb,
                    vcb,
                ),
    {
        let scalar = &self.pcs.scalar;
        let va_blind = random_scalar(rng);
        let vb_blind = random_scalar(rng);
        let vc_blind = random_scalar(rng);
        let prod_blind = random_scalar(rng);
        let va_com = scalar.commit(&va, &va_blind);
        let vb_com = scalar.commit(&vb, &vb_blind);
        let vc_com = scalar.commit(&vc, &vc_blind);
        let vab = va.mul(vb);
        let prod_com = scalar.commit(&vab, &prod_blind);
        Self::append_claim_commitments([&va_com, &vb_com, &vc_com, &prod_com], transcript);
        let vc_knowledge = KnowledgeProof::prove(scalar, &vc_com, &vc, &vc_blind, transcript, rng);
        proof {
            lemma_fr_modulus();
        }
        let product = ProductProof::prove(
            scalar,
            &va_com,
            &vb_com,
            &prod_com,
            &va,
            &va_blind,
            &vb,
            &vb_blind,
            &prod_blind,
            transcript,
            rng,
        );
        let expected1_blind = eq_rx.mul(prod_blind.sub(vc_blind));
        let expected1_com = prod_com.sub_point(&vc_com).mul_scalar(&eq_rx);
        let sc1_equality = match EqualityProof::try_prove(
            scalar,
            &expected1_com,
            sc1_final_com,
            &sc1_final,
            &expected1_blind,
            &sc1_final_blind,
            transcript,
            rng,
        ) {
            Some(e) => e,
            None => {
                proof {
                    prod_blind.lemma_value_bound();
                    vc_blind.lemma_value_bound();
                    assert(!claims_equality_holds(
                        self.spec_pcs().scalar,
                        eq_rx.value(),
                        va.value(),
                        vb.value(),
                        vc.value(),
                        sc1_final.value(),
                        sc1_final_blind.value(),
                        sc1_final_com@,
                        prod_blind.value(),
                        vc_blind.value(),
                    ));
                }
                return None;
            },
        };
        proof {
            prod_blind.lemma_value_bound();
            assert(vab.value() == ((va.value() as int * vb.value()) % (fr_modulus() as int)) as nat);
        }
        Some((va_com, vb_com, vc_com, prod_com, vc_knowledge, product, sc1_equality, va_blind, vb_blind, vc_blind))
    }

    /// The second zero-knowledge sum-check: draws `rho` and reduces the
    /// combined claim, committed with the combined blind, to a claim on
    /// `Z~`. Returns the output and the three challenges.
    #[verifier::rlimit(60)]
    fn prove_second(
        &self,
        z: Vec<Fr>,
        rx: Vec<Fr>,
        claims: [Fr; 3],
        blinds: [Fr; 3],
        transcript: &mut Transcript,
        rng: &mut ark_std::rand::rngs::StdRng,
    ) -> (r: Option<(ZkSumcheckOutput, [Fr; 3])>)
        requires
            self.inst_wf(),
            z.len() == self.spec_r1cs().a.spec_cols(),
            all_wf(z@),
            rx.len() == constraint_vars_of(self.spec_r1cs().structure),
            all_wf(rx@),
            claims[0].wf(),
            claims[1].wf(),
            claims[2].wf(),
            blinds[0].wf(),
            blinds[1].wf(),
            blinds[2].wf(),
        ensures
            r matches Some(t) ==> {
                &&& t.0.proof.proof_wf()
                &&& t.0.proof.shape_ok()
                &&& t.0.proof.poly_coms.len() == half_vars_of(self.spec_r1cs().structure) + 1
                &&& t.0.final_evals.len() == 4
                &&& all_wf(t.0.final_evals@)
                &&& t.0.point.len() == half_vars_of(self.spec_r1cs().structure) + 1
                &&& all_wf(t.0.point@)
                &&& t.0.final_claim.wf()
                &&& t.0.final_blind.wf()
                &&& t.0.final_com@ == scalar_commit(
                    self.spec_pcs().scalar.generator@,
                    self.spec_pcs().scalar.blind@,
                    t.0.final_claim.value(),
                    t.0.final_blind.value(),
                )
                &&& t.1[0].wf()
                &&& t.1[1].wf()
                &&& t.1[2].wf()
            },
            r is None ==> round_relation_fails(self.spec_sc2_key()),
    {
        proof {
            lemma_fr_modulus();
            lemma_small_nodes_invertible(3);
        }
        let rhos = Self::challenge_rhos(transcript);
        let rho_a = rhos[0];
        let rho_b = rhos[1];
        let rho_c = rhos[2];
        let claim = rho_a.mul(claims[0]).add(rho_b.mul(claims[1])).add(rho_c.mul(claims[2]));
        let blind = rho_a.mul(blinds[0]).add(rho_b.mul(blinds[1])).add(rho_c.mul(blinds[2]));
        let half_vars = self.r1cs.half_vars();
        let ghost cols = (half_vars + 1) as nat;
        let row_weights = EqPoly::new(rx).table();
        let a_rx = mle_of(crate::matrix::vec_mul(&self.r1cs.a, row_weights.as_slice()), Ghost(cols));
        let b_rx = mle_of(crate::matrix::vec_mul(&self.r1cs.b, row_weights.as_slice()), Ghost(cols));
        let c_rx = mle_of(crate::matrix::vec_mul(&self.r1cs.c, row_weights.as_slice()), Ghost(cols));
        let z_mle = mle_of(z, Ghost(cols));
        let comb = |v: &[Fr]| -> (out: Fr)
            ensures
                out.wf(),
            {
                if v.len() >= 4 && v[0].is_reduced() && v[1].is_reduced() && v[2].is_reduced()
                    && v[3].is_reduced() && rho_a.is_reduced() && rho_b.is_reduced()
                    && rho_c.is_reduced() {
                    rho_a.mul(v[0]).add(rho_b.mul(v[1])).add(rho_c.mul(v[2])).mul(v[3])
                } else {
                    Fr::zero()
                }
            };
        let polys = vec![a_rx, b_rx, c_rx, z_mle];
        match ZkSumcheckProof::prove(&self.sc2_key, polys, claim, blind, comb, transcript, rng) {
            Some(out) => Some((out, rhos)),
            None => None,
        }
    }

    /// Opens `W~` at the first half of `ry` with a hiding result commitment,
    /// and proves the matrices' value times the commitment to `Z~(ry)` equal
    /// to the second final claim commitment.
    fn prove_opening(
        &self,
        io: &[Fr],
        witness_mle: &crate::mle::DenseMultilinearPoly<Bls12381FrConfig, 4>,
        witness_com: &HyraxPCSCommitment,
        com_blinds: &[Fr],
        ry: &[Fr],
        matrix_eval: Fr,
        sc2_final: Fr,
        sc2_final_blind: Fr,
        sc2_final_com: &G1,
        transcript: &mut Transcript,
        rng: &mut ark_std::rand::rngs::StdRng,
    ) -> (r: Option<(HyraxPCSProof, EqualityProof, Fr)>)
        requires
            self.inst_wf(),
            io.len() == self.spec_r1cs().structure.num_io,
            all_wf(io@),
            witness_mle.mle_wf(),
            witness_mle.spec_vars() == self.spec_pcs().num_vars,
            witness_com.rows.len() == pow2(crate::hyrax::row_vars_of(self.spec_pcs().num_vars as nat)),
            com_blinds.len() == pow2(crate::hyrax::row_vars_of(self.spec_pcs().num_vars as nat)),
            all_wf(com_blinds@),
            ry.len() == half_vars_of(self.spec_r1cs().structure) + 1,
            all_wf(ry@),
            matrix_eval.wf(),
            sc2_final.wf(),
            sc2_final_blind.wf(),
        ensures
            r matches Some(t) ==> t.0.ipa.proof_wf() && t.1.proof_wf(),
            r matches Some(t) ==> witness_opening_at(
                self.spec_pcs(),
                values_of(witness_mle.spec_evals()),
                half_vars_of(self.spec_r1cs().structure),
                t.0,
                values_of(ry@),
                t.2.value(),
            ),
            r is None ==> exists|rb: nat|
                rb < fr_modulus() && #[trigger] opening_refused(
                    old(transcript).absorbed(),
                    self.spec_pcs(),
                    point_views(witness_com.rows@),
                    witness_mle.spec_evals(),
                    com_blinds@,
                    values_of(io@),
                    values_of(ry@),
                    half_vars_of(self.spec_r1cs().structure),
                    matrix_eval.value(),
                    rb,
                    sc2_final.value(),
                    sc2_final_blind.value(),
                    sc2_final_com@,
                ),
    {
        let half_vars = self.r1cs.half_vars();
        let witness_point = vstd::slice::slice_subrange(ry, 0, half_vars);
        proof {
            assert forall|i: int| 0 <= i < witness_point.len() implies (#[trigger] witness_point@[i]).wf() by {
                assert(witness_point@[i] == ry@[i]);
            }
            assert(values_of(witness_point@) =~= values_of(ry@).take(half_vars as int));
            lemma_fr_modulus();
        }
        let witness_eval_blind = random_scalar(rng);
        proof {
            witness_eval_blind.lemma_value_bound();
        }
        let opening = match self.pcs.open(
            witness_com,
            witness_mle,
            com_blinds,
            witness_point,
            &witness_eval_blind,
            transcript,
            rng,
        ) {
            Some(o) => o,
            None => {
                proof {
                    assert(opening_refused(
                        old(transcript).absorbed(),
                        self.spec_pcs(),
                        point_views(witness_com.rows@),
                        witness_mle.spec_evals(),
                        com_blinds@,
                        values_of(io@),
                        values_of(ry@),
                        half_vars_of(self.spec_r1cs().structure),
                        matrix_eval.value(),
                        witness_eval_blind.value(),
                        sc2_final.value(),
                        sc2_final_blind.value(),
                        sc2_final_com@,
                    ));
                }
                return None;
            },
        };
        let (z_com, witness_weight) = self.assignment_commitment(io, ry, &opening.result_com);
        let expected2_blind = matrix_eval.mul(witness_weight).mul(witness_eval_blind);
        let expected2_com = z_com.mul_scalar(&matrix_eval);
        match EqualityProof::try_prove(
            &self.pcs.scalar,
            &expected2_com,
            sc2_final_com,
            &sc2_final,
            &expected2_blind,
            &sc2_final_blind,
            transcript,
            rng,
        ) {
            Some(e) => {
                proof {
                    assert(opening.result_com@ == scalar_commit(
                        self.pcs.scalar.generator@,
                        self.pcs.scalar.blind@,
                        (mle_value(values_of(witness_mle.spec_evals()), values_of(witness_point@)) % (fr_modulus() as int)) as nat,
                        witness_eval_blind.value(),
                    ));
                    assert(values_of(witness_point@) == values_of(ry@).take(half_vars as int));
                    assert(half_vars == half_vars_of(self.spec_r1cs().structure));
                    assert(witness_eval_blind.value() < fr_modulus());
                    assert(witness_opening_at(
                        self.spec_pcs(),
                        values_of(witness_mle.spec_evals()),
                        half_vars_of(self.spec_r1cs().structure),
                        opening,
                        values_of(ry@),
                        witness_eval_blind.value(),
                    ));
                }
                Some((opening, e, witness_eval_blind))
            },
            None => {
                proof {
                    assert(!opening_equality_holds(
                        self.spec_pcs(),
                        values_of(io@),
                        values_of(ry@),
                        half_vars_of(self.spec_r1cs().structure),
                        opening.result_com@,
                        matrix_eval.value(),
                        witness_eval_blind.value(),
                        sc2_final.value(),
                        sc2_final_blind.value(),
                        sc2_final_com@,
                    ));
                    assert(opening_refused(
                        old(transcript).absorbed(),
                        self.spec_pcs(),
                        point_views(witness_com.rows@),
                        witness_mle.spec_evals(),
                        com_blinds@,
                        values_of(io@),
                        values_of(ry@),
                        half_vars_of(self.spec_r1cs().structure),
                        matrix_eval.value(),
                        witness_eval_blind.value(),
                        sc2_final.value(),
                        sc2_final_blind.value(),
                        sc2_final_com@,
                    ));
                }
                None
            },
        }
    }

    /// The proof for `io` and `witness`, with every blind drawn from `rng`.
    /// Refused: an assignment that does not satisfy the
    /// constraints. `None` where one of the sub-provers refuses a statement
    /// that only the curve operations decide: a relation between commitments
    /// that holds for honest values by the homomorphism of the commitments.
    #[verifier::rlimit(60)]
    pub fn prove(
        &self,
        io: &[Fr],
        witness: &[Fr],
        transcript: &mut Transcript,
        rng: &mut ark_std::rand::rngs::StdRng,
    ) -> (r: Option<SpartanNizkProof>)
        requires
            self.inst_wf(),
            io.len() == self.spec_r1cs().structure.num_io,
            witness.len() == self.spec_r1cs().structure.num_witness,
            all_wf(io@),
            all_wf(witness@),
            forall|i: int|
                0 <= i < self.spec_r1cs().structure.num_constraints ==> #[trigger] crate::r1cs::row_holds::<
                    Bls12381FrConfig,
                    4,
                    M,
                >(
                    &self.spec_r1cs().a,
                    &self.spec_r1cs().b,
                    &self.spec_r1cs().c,
                    i,
                    crate::spartan_r1cs::spartan_z(
                        values_of(io@),
                        values_of(witness@),
                        pow2(half_vars_of(self.spec_r1cs().structure)),
                    ),
                ),
        ensures
            r matches Some(proof) ==> {
                let s = self.spec_r1cs().structure;
                &&& proof.proof_wf()
                &&& proof.sc1.shape_ok()
                &&& proof.sc1.poly_coms.len() == constraint_vars_of(s)
                &&& proof.sc2.shape_ok()
                &&& proof.sc2.poly_coms.len() == half_vars_of(s) + 1
                &&& exists|ry: Seq<int>, b: nat|
                    #[trigger] witness_opening_at(
                        self.spec_pcs(),
                        pad(values_of(witness@), pow2(half_vars_of(s))),
                        half_vars_of(s),
                        proof.witness_opening,
                        ry,
                        b,
                    )
                &&& claim_commitments_hold(
                    self.spec_pcs(),
                    self.spec_r1cs(),
                    crate::spartan_r1cs::spartan_z(values_of(io@), values_of(witness@), pow2(half_vars_of(s))),
                    proof,
                )
                &&& exists|bl: Seq<Fr>|
                    bl.len() == pow2(row_vars_of(half_vars_of(s))) && all_wf(bl) && point_views(
                        proof.witness_com.rows@,
                    ) == #[trigger] hyrax_rows(
                        self.spec_pcs(),
                        pad(values_of(witness@), pow2(half_vars_of(s))),
                        bl,
                    )
            },
            r is None ==> nizk_prove_refused(
                self.spec_pcs(),
                self.spec_sc1_key(),
                self.spec_sc2_key(),
                half_vars_of(self.spec_r1cs().structure),
                values_of(io@),
                pad(values_of(witness@), pow2(half_vars_of(self.spec_r1cs().structure))),
            ),
    {
        let z = self.r1cs.assignment(io, witness);
        append_spartan_statement(&self.r1cs, io, transcript);

        let witness_mle = self.r1cs.witness_mle(witness);
        let num_rows = self.pcs.num_rows();
        let mut com_blinds: Vec<Fr> = Vec::new();
        let mut i: usize = 0;
        while i < num_rows
            invariant
                i <= num_rows,
                com_blinds.len() == i,
                all_wf(com_blinds@),
            decreases num_rows - i,
        {
            com_blinds.push(random_scalar(rng));
            i = i + 1;
        }
        let witness_com = self.pcs.commit(&witness_mle, com_blinds.as_slice());
        let enc = commitment_encoding(&witness_com);
        transcript.append_bytes("spartan-witness-commitment".as_bytes(), enc.as_slice());

        let out1 = match self.prove_first(&z, transcript, rng) {
            Some(o) => o,
            None => {
                return None;
            },
        };
        let ghost rx = values_of(out1.point@);
        let eq_rx = out1.final_evals[0];
        let va = out1.final_evals[1];
        let vb = out1.final_evals[2];
        let vc = out1.final_evals[3];
        let claims = match self.prove_claims(
            eq_rx,
            va,
            vb,
            vc,
            out1.final_claim,
            out1.final_blind,
            &out1.final_com,
            transcript,
            rng,
        ) {
            Some(t) => t,
            None => {
                return None;
            },
        };
        let (va_com, vb_com, vc_com, prod_com, vc_knowledge, product, sc1_equality, va_blind, vb_blind, vc_blind) =
            claims;
        let ghost bp = choose|b: nat|
            b < fr_modulus() && prod_com@ == #[trigger] scalar_commit(
                self.spec_pcs().scalar.generator@,
                self.spec_pcs().scalar.blind@,
                ((va.value() as int * vb.value()) % (fr_modulus() as int)) as nat,
                b,
            );
        let (out2, rhos) = match self.prove_second(
            z,
            out1.point,
            [va, vb, vc],
            [va_blind, vb_blind, vc_blind],
            transcript,
            rng,
        ) {
            Some(t) => t,
            None => {
                return None;
            },
        };
        let fe = &out2.final_evals;
        let matrix_eval = rhos[0].mul(fe[0]).add(rhos[1].mul(fe[1])).add(rhos[2].mul(fe[2]));
        let (witness_opening, sc2_equality, witness_eval_blind) = match self.prove_opening(
            io,
            &witness_mle,
            &witness_com,
            com_blinds.as_slice(),
            out2.point.as_slice(),
            matrix_eval,
            out2.final_claim,
            out2.final_blind,
            &out2.final_com,
            transcript,
            rng,
        ) {
            Some(t) => t,
            None => {
                proof {
                    assert(point_views(witness_com.rows@) == hyrax_rows(
                        self.spec_pcs(),
                        pad(values_of(witness@), pow2(half_vars_of(self.spec_r1cs().structure))),
                        com_blinds@,
                    ));
                    assert(witness_mle.spec_table() == values_of(witness_mle.spec_evals()));
                }
                return None;
            },
        };
        proof {
            assert(point_views(witness_com.rows@) == hyrax_rows(
                self.spec_pcs(),
                pad(values_of(witness@), pow2(half_vars_of(self.spec_r1cs().structure))),
                com_blinds@,
            ));
        }
        let result = SpartanNizkProof {
                witness_com,
                sc1: out1.proof,
                va_com,
                vb_com,
                vc_com,
                prod_com,
                vc_knowledge,
                product,
                sc1_equality,
                sc2: out2.proof,
                witness_opening,
                sc2_equality,
            };
        proof {
            va_blind.lemma_value_bound();
            vb_blind.lemma_value_bound();
            vc_blind.lemma_value_bound();
            lemma_fr_modulus();
            assert(witness_mle.spec_table() == values_of(witness_mle.spec_evals()));
            assert(witness_opening_at(
                self.spec_pcs(),
                pad(values_of(witness@), pow2(half_vars_of(self.spec_r1cs().structure))),
                half_vars_of(self.spec_r1cs().structure),
                result.witness_opening,
                values_of(out2.point@),
                witness_eval_blind.value(),
            ));
            assert(claim_commitments_at(
                self.spec_pcs(),
                self.spec_r1cs(),
                crate::spartan_r1cs::spartan_z(
                    values_of(io@),
                    values_of(witness@),
                    pow2(half_vars_of(self.spec_r1cs().structure)),
                ),
                result,
                rx,
                va_blind.value(),
                vb_blind.value(),
                vc_blind.value(),
                bp,
            ));
        }
        Some(result)
    }
}

} // verus!
