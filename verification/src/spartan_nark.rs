//! The Spartan NARK: satisfiability of `A z o B z = C z` in Spartan's layout,
//! shown with a Hyrax commitment to the witness MLE `W~` and two sum-checks,
//! made non-interactive with the transcript. There is no zero-knowledge
//! compiler: the claims of the sum-checks are sent in the clear.
//!
//! Only the witness half of `z` is committed; the verifier evaluates the
//! public half `(1, io)~` itself.

use crate::bytes::{le_bytes, u64_le_bytes};
use crate::curve::{fr_modulus, lemma_fr_modulus, point_views, Bls12381FrConfig, Fr};
use crate::helpers::{all_wf, fv, pm};
use crate::hyrax::{HyraxPCS, HyraxPCSCommitment, HyraxPCSProof};
use crate::ipa::scalar_frames;
use crate::matrix::{matrix_mle, Matrix};
use crate::mle::{eq_value, fold_all, lemma_fold_all_final, mle_value, DenseMultilinearPoly, EqPoly, MultilinearPoly};
use crate::pedersen::scalar_commit;
use crate::spartan_r1cs::{constraint_vars_of, half_vars_of, pad, SpartanR1CS};
use crate::sumcheck::{rounds_of, verify_rounds, SumcheckProof};
use crate::transcript::{after_challenge, challenge_value, frame, matrix_frames, push_all, value_bytes, Transcript};
use crate::uni_poly::{node_denominator, node_product, nodes_invertible, values_of, EvalsUniPoly};
use vstd::arithmetic::power2::*;
use vstd::prelude::*;
use vstd::string::StringSliceAdditionalSpecFns;

verus! {

/// The Lagrange nodes `0..n` of the sum-check round polynomials, up to four
/// of them, have denominators `+-1`, `+-2` or `+-6`, which the group order
/// does not divide.
pub proof fn lemma_small_nodes_invertible(n: nat)
    requires
        1 <= n <= 4,
    ensures
        nodes_invertible(n, fr_modulus() as int),
{
    reveal_with_fuel(node_product, 5);
    let p = fr_modulus() as int;
    assert forall|k: int| 0 <= k < n implies #[trigger] node_denominator(k, n) % p != 0 by {
        let d = node_denominator(k, n);
        if n == 1 {
            assert(node_denominator(0, 1) == 1);
        } else if n == 2 {
            assert(node_denominator(0, 2) == -1);
            assert(node_denominator(1, 2) == 1);
        } else if n == 3 {
            assert(node_denominator(0, 3) == 2);
            assert(node_denominator(1, 3) == -1);
            assert(node_denominator(2, 3) == 2);
        } else {
            assert(node_product(0, 3, 0) == 2);
            assert(node_product(0, 4, 0) == node_product(0, 3, 0) * (0 - 3));
            assert(node_denominator(0, 4) == -6);
            assert(node_denominator(1, 4) == 2);
            assert(node_denominator(2, 4) == -2);
            assert(node_denominator(3, 4) == 6);
        }
        assert(-6 <= d <= 6 && d != 0);
        vstd::arithmetic::div_mod::lemma_fundamental_div_mod(d, p);
        if d > 0 {
            vstd::arithmetic::div_mod::lemma_small_mod(d as nat, p as nat);
        } else {
            vstd::arithmetic::div_mod::lemma_mod_bound(d, p);
            assert(d % p == d + p) by {
                vstd::arithmetic::div_mod::lemma_fundamental_div_mod_converse(d, p, -1, d + p);
            }
        }
    }
}

/// `x mod r`.
pub open spec fn fr_mod(x: int) -> int {
    x % (fr_modulus() as int)
}

/// The uncompressed encoding of a Hyrax commitment: the row count as eight
/// little-endian bytes, then each row commitment.
pub open spec fn commitment_bytes(rows: Seq<Seq<u8>>) -> Seq<u8> {
    le_bytes(rows.len(), 8) + concat_points(rows)
}

/// The encodings of the points, concatenated.
pub open spec fn concat_points(ps: Seq<Seq<u8>>) -> Seq<u8>
    decreases ps.len(),
{
    if ps.len() == 0 {
        Seq::empty()
    } else {
        concat_points(ps.drop_last()) + ps.last()
    }
}

/// The encoding of a Hyrax commitment.
pub(crate) fn commitment_encoding(commitment: &HyraxPCSCommitment) -> (r: Vec<u8>)
    ensures
        r@ == commitment_bytes(point_views(commitment.rows@)),
{
    let mut out: Vec<u8> = Vec::new();
    let count = u64_le_bytes(commitment.rows.len() as u64);
    push_all(&mut out, &count);
    let mut i: usize = 0;
    proof {
        assert(point_views(commitment.rows@.take(0)) =~= Seq::<Seq<u8>>::empty());
        assert(out@ =~= le_bytes(commitment.rows.len() as nat, 8) + concat_points(
            point_views(commitment.rows@.take(0)),
        ));
    }
    while i < commitment.rows.len()
        invariant
            i <= commitment.rows.len(),
            out@ == le_bytes(commitment.rows.len() as nat, 8) + concat_points(
                point_views(commitment.rows@.take(i as int)),
            ),
        decreases commitment.rows.len() - i,
    {
        let enc = commitment.rows[i].to_uncompressed();
        push_all(&mut out, &enc);
        proof {
            assert(point_views(commitment.rows@.take(i + 1)).drop_last() =~= point_views(
                commitment.rows@.take(i as int),
            ));
            assert(out@ =~= le_bytes(commitment.rows.len() as nat, 8) + concat_points(
                point_views(commitment.rows@.take(i + 1)),
            ));
        }
        i = i + 1;
    }
    proof {
        assert(commitment.rows@.take(commitment.rows.len() as int) =~= commitment.rows@);
    }
    out
}

/// A Spartan instance: the constraint system and the commitment key for
/// its witness half.
pub struct SpartanNarkInstance<M: Matrix<Bls12381FrConfig, 4>> {
    pcs: HyraxPCS,
    r1cs: SpartanR1CS<Bls12381FrConfig, 4, M>,
}

/// A proof: the witness commitment, the two sum-checks with the claims
/// between them, and the opening of the witness MLE.
pub struct SpartanNarkProof {
    pub witness_com: HyraxPCSCommitment,
    pub sc1: SumcheckProof<Bls12381FrConfig, 4>,
    pub va: Fr,
    pub vb: Fr,
    pub vc: Fr,
    pub sc2: SumcheckProof<Bls12381FrConfig, 4>,
    pub witness_eval: Fr,
    pub witness_opening: HyraxPCSProof,
}

impl SpartanNarkProof {
    pub open spec fn proof_wf(&self) -> bool {
        &&& self.sc1.proof_wf()
        &&& self.sc2.proof_wf()
        &&& self.va.wf()
        &&& self.vb.wf()
        &&& self.vc.wf()
        &&& self.witness_eval.wf()
        &&& self.witness_opening.ipa.proof_wf()
    }
}

/// The statement as absorbed: the sizes, the three matrices and `io`.
pub open spec fn nark_statement<M: Matrix<Bls12381FrConfig, 4>>(
    state: Seq<u8>,
    r1cs: SpartanR1CS<Bls12381FrConfig, 4, M>,
    io: Seq<int>,
) -> Seq<u8> {
    let s = r1cs.structure;
    let w = (usize::BITS / 8) as nat;
    state + frame("spartan-num-constraints".spec_bytes(), le_bytes(s.num_constraints as nat, w))
        + frame("spartan-num-io".spec_bytes(), le_bytes(s.num_io as nat, w)) + frame(
        "spartan-num-witness".spec_bytes(),
        le_bytes(s.num_witness as nat, w),
    ) + matrix_frames::<Bls12381FrConfig, 4, M>("spartan-matrix-a".spec_bytes(), &r1cs.a)
        + matrix_frames::<Bls12381FrConfig, 4, M>("spartan-matrix-b".spec_bytes(), &r1cs.b)
        + matrix_frames::<Bls12381FrConfig, 4, M>("spartan-matrix-c".spec_bytes(), &r1cs.c)
        + scalar_frames("spartan-io".spec_bytes(), io)
}

impl<M: Matrix<Bls12381FrConfig, 4>> SpartanNarkInstance<M> {
    pub closed spec fn spec_pcs(&self) -> HyraxPCS {
        self.pcs
    }

    pub closed spec fn spec_r1cs(&self) -> SpartanR1CS<Bls12381FrConfig, 4, M> {
        self.r1cs
    }

    /// The constraint system is well formed and the key commits to its
    /// witness half.
    pub open spec fn inst_wf(&self) -> bool {
        &&& self.spec_r1cs().spartan_wf()
        &&& self.spec_pcs().pcs_wf()
        &&& self.spec_pcs().num_vars == half_vars_of(self.spec_r1cs().structure)
        &&& self.spec_pcs().rows.blind@ == self.spec_pcs().scalar.blind@
    }

    /// The commitment key of the witness half.
    pub fn pcs(&self) -> (r: &HyraxPCS)
        ensures
            *r == self.spec_pcs(),
    {
        &self.pcs
    }

    /// The constraint system.
    pub fn r1cs(&self) -> (r: &SpartanR1CS<Bls12381FrConfig, 4, M>)
        ensures
            *r == self.spec_r1cs(),
    {
        &self.r1cs
    }

    /// Sets up the commitment key for the `s`-variable witness MLE.
    pub fn encode(r1cs: SpartanR1CS<Bls12381FrConfig, 4, M>) -> (r: Result<
        Self,
        ark_ec::hashing::HashToCurveError,
    >)
        requires
            r1cs.spartan_wf(),
        ensures
            r is Ok,
            r matches Ok(inst) ==> inst.inst_wf() && inst.spec_r1cs() == r1cs,
    {
        let vars = r1cs.half_vars();
        let pcs = HyraxPCS::setup("spartan_nark_pcs".as_bytes(), vars)?;
        Ok(SpartanNarkInstance { pcs, r1cs })
    }

    /// Binds the statement: the sizes, the three matrices and `io`.
    fn append_statement(&self, io: &[Fr], transcript: &mut Transcript)
        requires
            self.inst_wf(),
            all_wf(io@),
        ensures
            final(transcript).absorbed() == nark_statement(
                old(transcript).absorbed(),
                self.spec_r1cs(),
                values_of(io@),
            ),
    {
        append_spartan_statement(&self.r1cs, io, transcript);
    }
}

/// Binds a Spartan statement: the sizes, the three matrices and `io`.
pub(crate) fn append_spartan_statement<M: Matrix<Bls12381FrConfig, 4>>(
    r1cs: &SpartanR1CS<Bls12381FrConfig, 4, M>,
    io: &[Fr],
    transcript: &mut Transcript,
)
    requires
        r1cs.spartan_wf(),
        all_wf(io@),
    ensures
        final(transcript).absorbed() == nark_statement(old(transcript).absorbed(), *r1cs, values_of(io@)),
{
    let s = r1cs.structure;
    transcript.append_usize("spartan-num-constraints".as_bytes(), s.num_constraints);
    transcript.append_usize("spartan-num-io".as_bytes(), s.num_io);
    transcript.append_usize("spartan-num-witness".as_bytes(), s.num_witness);
    transcript.append_matrix("spartan-matrix-a".as_bytes(), &r1cs.a);
    transcript.append_matrix("spartan-matrix-b".as_bytes(), &r1cs.b);
    transcript.append_matrix("spartan-matrix-c".as_bytes(), &r1cs.c);
    crate::ipa::append_scalars(transcript, "spartan-io".as_bytes(), io);
}


/// The entries of `M z`, reduced modulo the group order.
pub open spec fn matvec_values<M: Matrix<Bls12381FrConfig, 4>>(m: &M, z: Seq<int>) -> Seq<int> {
    Seq::new(
        m.spec_rows(),
        |i: int| crate::matrix::row_dot::<Bls12381FrConfig, 4, M>(m, i, z, m.spec_cols()) % (fr_modulus() as int),
    )
}

/// The messages after the statement transcript `t1` are the honest ones for
/// the assignment `z` and the witness table: the first sum-check's rounds
/// are the zero-check's on `eq(tau, .)`, `A z`, `B z`, `C z`; with `rx` and
/// `ry` the points that replaying the two sum-checks draws, `va`, `vb`, `vc`
/// are the extensions of `A z`, `B z`, `C z` at `rx`, and `we` is the
/// witness extension at the first half of `ry`.
#[verifier::opaque]
pub open spec fn nark_claims_from<M: Matrix<Bls12381FrConfig, 4>>(
    t1: Seq<u8>,
    r1cs: SpartanR1CS<Bls12381FrConfig, 4, M>,
    z: Seq<int>,
    witness_table: Seq<int>,
    sc1: Seq<EvalsUniPoly<Bls12381FrConfig, 4>>,
    va: int,
    vb: int,
    vc: int,
    sc2: Seq<EvalsUniPoly<Bls12381FrConfig, 4>>,
    we: int,
) -> bool {
    let s = r1cs.structure;
    let p = fr_modulus() as int;
    let hv = half_vars_of(s);
    let taus = tau_draws(t1, constraint_vars_of(s));
    let rep1 = crate::sumcheck::replay_rounds::<Bls12381FrConfig, 4>(rounds_of(sc1), 0, taus.1);
    let rx = rep1.1;
    let c2 = second_claim(rep1.2, va, vb, vc);
    let rep2 = crate::sumcheck::replay_rounds::<Bls12381FrConfig, 4>(rounds_of(sc2), c2.0, c2.1);
    &&& zero_check_rounds(first_tables(r1cs, taus.0, z), rounds_of(sc1), taus.1)
    &&& va == mle_value(matvec_values(&r1cs.a, z), rx) % p
    &&& vb == mle_value(matvec_values(&r1cs.b, z), rx) % p
    &&& vc == mle_value(matvec_values(&r1cs.c, z), rx) % p
    &&& we == mle_value(witness_table, rep2.1.take(hv as int)) % p
}

/// The claims hold when each is the honest one at the points drawn.
proof fn lemma_claims_from<M: Matrix<Bls12381FrConfig, 4>>(
    t1: Seq<u8>,
    r1cs: SpartanR1CS<Bls12381FrConfig, 4, M>,
    z: Seq<int>,
    witness_table: Seq<int>,
    sc1: Seq<EvalsUniPoly<Bls12381FrConfig, 4>>,
    va: int,
    vb: int,
    vc: int,
    sc2: Seq<EvalsUniPoly<Bls12381FrConfig, 4>>,
    we: int,
    t_mid: Seq<u8>,
    rx: Seq<int>,
    ry: Seq<int>,
)
    requires
        rx == crate::sumcheck::replay_rounds::<Bls12381FrConfig, 4>(
            rounds_of(sc1),
            0,
            tau_draws(t1, constraint_vars_of(r1cs.structure)).1,
        ).1,
        t_mid == crate::sumcheck::replay_rounds::<Bls12381FrConfig, 4>(
            rounds_of(sc1),
            0,
            tau_draws(t1, constraint_vars_of(r1cs.structure)).1,
        ).2,
        zero_check_rounds(
            first_tables(r1cs, tau_draws(t1, constraint_vars_of(r1cs.structure)).0, z),
            rounds_of(sc1),
            tau_draws(t1, constraint_vars_of(r1cs.structure)).1,
        ),
        va == mle_value(matvec_values(&r1cs.a, z), rx) % (fr_modulus() as int),
        vb == mle_value(matvec_values(&r1cs.b, z), rx) % (fr_modulus() as int),
        vc == mle_value(matvec_values(&r1cs.c, z), rx) % (fr_modulus() as int),
        ry == crate::sumcheck::replay_rounds::<Bls12381FrConfig, 4>(
            rounds_of(sc2),
            second_claim(t_mid, va, vb, vc).0,
            second_claim(t_mid, va, vb, vc).1,
        ).1,
        we == mle_value(witness_table, ry.take(half_vars_of(r1cs.structure) as int)) % (fr_modulus() as int),
    ensures
        nark_claims_from(t1, r1cs, z, witness_table, sc1, va, vb, vc, sc2, we),
{
    reveal(nark_claims_from);
}

/// The claims of a proof are the honest ones for `io` and `witness`, after
/// the statement and the witness commitment are absorbed.
pub open spec fn nark_claims_hold<M: Matrix<Bls12381FrConfig, 4>>(
    state: Seq<u8>,
    r1cs: SpartanR1CS<Bls12381FrConfig, 4, M>,
    io: Seq<int>,
    witness: Seq<int>,
    proof: SpartanNarkProof,
) -> bool {
    let hv = half_vars_of(r1cs.structure);
    let t1 = nark_statement(state, r1cs, io) + frame(
        "spartan-witness-commitment".spec_bytes(),
        commitment_bytes(point_views(proof.witness_com.rows@)),
    );
    nark_claims_from(
        t1,
        r1cs,
        crate::spartan_r1cs::spartan_z(io, witness, pow2(hv)),
        pad(witness, pow2(hv)),
        proof.sc1.spec_polys(),
        fv(proof.va),
        fv(proof.vb),
        fv(proof.vc),
        proof.sc2.spec_polys(),
        fv(proof.witness_eval),
    )
}

/// The transcript after the claims `va`, `vb`, `vc` are absorbed and the
/// challenges `rho` drawn, with the combined second claim:
/// `(claim, transcript)`.
pub open spec fn second_claim(state: Seq<u8>, va: int, vb: int, vc: int) -> (int, Seq<u8>) {
    let t2 = state + frame("spartan-claim-a".spec_bytes(), value_bytes::<Bls12381FrConfig, 4>(va))
        + frame("spartan-claim-b".spec_bytes(), value_bytes::<Bls12381FrConfig, 4>(vb))
        + frame("spartan-claim-c".spec_bytes(), value_bytes::<Bls12381FrConfig, 4>(vc));
    let rho = rho_draws(t2);
    (fr_mod(fr_mod(fr_mod(rho.0 * va) + fr_mod(rho.1 * vb)) + fr_mod(rho.2 * vc)), rho.3)
}

/// The challenges `tau` and the transcript after drawing `k` of them.
pub open spec fn tau_draws(state: Seq<u8>, k: nat) -> (Seq<int>, Seq<u8>)
    decreases k,
{
    if k == 0 {
        (Seq::empty(), state)
    } else {
        let prev = tau_draws(state, (k - 1) as nat);
        (
            prev.0.push(challenge_value::<Bls12381FrConfig, 4>(prev.1, "spartan-tau".spec_bytes())),
            after_challenge::<Bls12381FrConfig, 4>(prev.1, "spartan-tau".spec_bytes()),
        )
    }
}

/// The three challenges `rho_A`, `rho_B`, `rho_C` and the transcript after them.
pub open spec fn rho_draws(state: Seq<u8>) -> (int, int, int, Seq<u8>) {
    let la = "spartan-rho-a".spec_bytes();
    let lb = "spartan-rho-b".spec_bytes();
    let lc = "spartan-rho-c".spec_bytes();
    let t1 = after_challenge::<Bls12381FrConfig, 4>(state, la);
    let t2 = after_challenge::<Bls12381FrConfig, 4>(t1, lb);
    (
        challenge_value::<Bls12381FrConfig, 4>(state, la),
        challenge_value::<Bls12381FrConfig, 4>(t1, lb),
        challenge_value::<Bls12381FrConfig, 4>(t2, lc),
        after_challenge::<Bls12381FrConfig, 4>(t2, lc),
    )
}

/// Draws `count` challenges under `spartan-tau`.
pub(crate) fn draw_taus(transcript: &mut Transcript, count: usize) -> (tau: Vec<Fr>)
    ensures
        all_wf(tau@),
        tau.len() == count,
        values_of(tau@) == tau_draws(old(transcript).absorbed(), count as nat).0,
        final(transcript).absorbed() == tau_draws(old(transcript).absorbed(), count as nat).1,
{
    let ghost state = transcript.absorbed();
    let mut tau: Vec<Fr> = Vec::new();
    let mut k: usize = 0;
    proof {
        assert(values_of(tau@) =~= Seq::<int>::empty());
    }
    while k < count
        invariant
            state == old(transcript).absorbed(),
            k <= count,
            tau.len() == k,
            all_wf(tau@),
            values_of(tau@) == tau_draws(state, k as nat).0,
            transcript.absorbed() == tau_draws(state, k as nat).1,
        decreases count - k,
    {
        let c = transcript.challenge_field::<Bls12381FrConfig, 4>("spartan-tau".as_bytes());
        let ghost before = tau@;
        tau.push(c);
        proof {
            assert(tau@ == before.push(c));
            assert(values_of(tau@) =~= values_of(before).push(fv(c)));
        }
        k = k + 1;
    }
    tau
}

/// What the verifier computes: `(accepted, transcript)`.
pub open spec fn nark_verify_spec<M: Matrix<Bls12381FrConfig, 4>>(
    state: Seq<u8>,
    pcs: HyraxPCS,
    r1cs: SpartanR1CS<Bls12381FrConfig, 4, M>,
    io: Seq<int>,
    proof: SpartanNarkProof,
) -> (bool, Seq<u8>) {
    let s = r1cs.structure;
    if io.len() != s.num_io {
        (false, state)
    } else {
        let t1 = nark_statement(state, r1cs, io) + frame(
            "spartan-witness-commitment".spec_bytes(),
            commitment_bytes(point_views(proof.witness_com.rows@)),
        );
        let cv = constraint_vars_of(s);
        let taus = tau_draws(t1, cv);
        let v1 = verify_rounds::<Bls12381FrConfig, 4>(rounds_of(proof.sc1.spec_polys()), 0, 3, taus.1);
        let va = fv(proof.va);
        let vb = fv(proof.vb);
        let vc = fv(proof.vc);
        if !v1.0 {
            (false, v1.3)
        } else if v1.2.len() != cv || v1.1 != fr_mod(fr_mod(eq_value(taus.0, v1.2)) * fr_mod(fr_mod(va * vb) - vc)) {
            (false, v1.3)
        } else {
            let t2 = v1.3 + frame("spartan-claim-a".spec_bytes(), value_bytes::<Bls12381FrConfig, 4>(va))
                + frame("spartan-claim-b".spec_bytes(), value_bytes::<Bls12381FrConfig, 4>(vb))
                + frame("spartan-claim-c".spec_bytes(), value_bytes::<Bls12381FrConfig, 4>(vc));
            let rho = rho_draws(t2);
            let claim2 = fr_mod(fr_mod(fr_mod(rho.0 * va) + fr_mod(rho.1 * vb)) + fr_mod(rho.2 * vc));
            let v2 = verify_rounds::<Bls12381FrConfig, 4>(rounds_of(proof.sc2.spec_polys()), claim2, 2, rho.3);
            let hv = half_vars_of(s);
            if !v2.0 {
                (false, v2.3)
            } else if v2.2.len() != hv + 1 {
                (false, v2.3)
            } else {
                let we = fv(proof.witness_eval);
                let t3 = v2.3 + frame(
                    "spartan-witness-evaluation".spec_bytes(),
                    value_bytes::<Bls12381FrConfig, 4>(we),
                );
                if proof.witness_opening.result_com@ != scalar_commit(
                    pcs.scalar.generator@,
                    pcs.scalar.blind@,
                    we as nat,
                    0,
                ) {
                    (false, t3)
                } else {
                    let h = crate::hyrax::hyrax_verify_spec(
                        t3,
                        pcs,
                        point_views(proof.witness_com.rows@),
                        v2.2.take(hv as int),
                        proof.witness_opening,
                    );
                    if !h.0 {
                        (false, h.1)
                    } else {
                        let sel = v2.2[hv as int];
                        let pe = mle_value(pad(seq![1int] + io, pow2(hv)), v2.2.take(hv as int));
                        let z_eval = fr_mod((1 - sel) * we + sel * pe);
                        let me = fr_mod(
                            fr_mod(
                                fr_mod(rho.0 * matrix_mle::<Bls12381FrConfig, 4, M>(&r1cs.a, v1.2, v2.2))
                                    + fr_mod(rho.1 * matrix_mle::<Bls12381FrConfig, 4, M>(&r1cs.b, v1.2, v2.2)),
                            ) + fr_mod(rho.2 * matrix_mle::<Bls12381FrConfig, 4, M>(&r1cs.c, v1.2, v2.2)),
                        );
                        (v2.1 == fr_mod(me * z_eval), h.1)
                    }
                }
            }
        }
    }
}


impl<M: Matrix<Bls12381FrConfig, 4>> SpartanNarkInstance<M> {
    /// Replays the transcript and checks both sum-checks, the claims
    /// between them, and the opening of the witness commitment.
    #[verifier::rlimit(50)]
    pub fn verify(&self, io: &[Fr], proof: &SpartanNarkProof, transcript: &mut Transcript) -> (r: bool)
        requires
            self.inst_wf(),
            proof.proof_wf(),
            all_wf(io@),
        ensures
            ({
                let v = nark_verify_spec(
                    old(transcript).absorbed(),
                    self.spec_pcs(),
                    self.spec_r1cs(),
                    values_of(io@),
                    *proof,
                );
                r == v.0 && final(transcript).absorbed() == v.1
            }),
    {
        if io.len() != self.r1cs.structure.num_io {
            return false;
        }
        proof {
            lemma_fr_modulus();
            lemma_small_nodes_invertible(1);
            lemma_small_nodes_invertible(2);
            lemma_small_nodes_invertible(3);
            lemma_small_nodes_invertible(4);
            assert(forall|n: nat| 1 <= n <= 4 ==> #[trigger] nodes_invertible(n, pm::<Bls12381FrConfig, 4>()));
        }
        self.append_statement(io, transcript);
        let enc = commitment_encoding(&proof.witness_com);
        transcript.append_bytes("spartan-witness-commitment".as_bytes(), enc.as_slice());

        let constraint_vars = self.r1cs.constraint_vars();
        let tau = draw_taus(transcript, constraint_vars);
        let zero = Fr::zero();
        let (sc1_final, rx) = match proof.sc1.verify(zero, 3, transcript) {
            Some(out) => out,
            None => {
                return false;
            },
        };
        if rx.len() != constraint_vars {
            return false;
        }
        let eq = EqPoly::new(tau);
        let e = eq.eval(rx.as_slice());
        let d = proof.va.mul(proof.vb).sub(proof.vc);
        let expected1 = e.mul(d);
        if !crate::sumcheck::fp_eq(sc1_final, expected1) {
            return false;
        }

        transcript.append_field("spartan-claim-a".as_bytes(), &proof.va);
        transcript.append_field("spartan-claim-b".as_bytes(), &proof.vb);
        transcript.append_field("spartan-claim-c".as_bytes(), &proof.vc);
        let rho_a = transcript.challenge_field::<Bls12381FrConfig, 4>("spartan-rho-a".as_bytes());
        let rho_b = transcript.challenge_field::<Bls12381FrConfig, 4>("spartan-rho-b".as_bytes());
        let rho_c = transcript.challenge_field::<Bls12381FrConfig, 4>("spartan-rho-c".as_bytes());
        let sc2_claim = rho_a.mul(proof.va).add(rho_b.mul(proof.vb)).add(rho_c.mul(proof.vc));
        let (sc2_final, ry) = match proof.sc2.verify(sc2_claim, 2, transcript) {
            Some(out) => out,
            None => {
                return false;
            },
        };
        let vars = self.r1cs.vars();
        if ry.len() != vars {
            return false;
        }

        let half_vars = self.r1cs.half_vars();
        let witness_point = vstd::slice::slice_subrange(ry.as_slice(), 0, half_vars);
        transcript.append_field("spartan-witness-evaluation".as_bytes(), &proof.witness_eval);
        let expected_com = self.pcs.scalar.commit(&proof.witness_eval, &zero);
        proof {
            assert forall|i: int| 0 <= i < witness_point.len() implies (#[trigger] witness_point@[i]).wf() by {
                assert(witness_point@[i] == ry@[i]);
            }
            assert(values_of(witness_point@) =~= values_of(ry@).take(half_vars as int));
        }
        if !proof.witness_opening.result_com.equals(&expected_com) {
            return false;
        }
        if !self.pcs.verify(&proof.witness_com, witness_point, &proof.witness_opening, transcript) {
            return false;
        }

        let z_eval = self.r1cs.assignment_eval(io, ry.as_slice(), proof.witness_eval);
        let ma = crate::matrix::eval_mle(&self.r1cs.a, rx.as_slice(), ry.as_slice());
        let mb = crate::matrix::eval_mle(&self.r1cs.b, rx.as_slice(), ry.as_slice());
        let mc = crate::matrix::eval_mle(&self.r1cs.c, rx.as_slice(), ry.as_slice());
        let matrix_eval = rho_a.mul(ma).add(rho_b.mul(mb)).add(rho_c.mul(mc));
        let rhs = matrix_eval.mul(z_eval);
        crate::sumcheck::fp_eq(sc2_final, rhs)
    }
}


/// The polynomial whose table is `evals`, a power-of-two length.
pub(crate) fn mle_of(evals: Vec<Fr>, Ghost(k): Ghost<nat>) -> (r: DenseMultilinearPoly<Bls12381FrConfig, 4>)
    requires
        k < usize::BITS,
        evals.len() == pow2(k),
        all_wf(evals@),
    ensures
        r.mle_wf(),
        r.spec_vars() == k,
        r.spec_evals() == evals@,
{
    let r = DenseMultilinearPoly::from_evals(evals);
    proof {
        if r.spec_vars() < k {
            lemma_pow2_strictly_increases(r.spec_vars(), k);
        }
        if k < r.spec_vars() {
            lemma_pow2_strictly_increases(k, r.spec_vars());
        }
    }
    r
}

/// The points that replaying the rounds draws: one per round.
proof fn lemma_replay_len(rounds: Seq<Seq<int>>, h: int, state: Seq<u8>)
    ensures
        crate::sumcheck::replay_rounds::<Bls12381FrConfig, 4>(rounds, h, state).1.len() == rounds.len(),
    decreases rounds.len(),
{
    if rounds.len() > 0 {
        lemma_replay_len(rounds.drop_last(), h, state);
    }
}

/// The polynomial whose table is `M z`.
pub(crate) fn matvec_mle<M: Matrix<Bls12381FrConfig, 4>>(m: &M, z: &[Fr], Ghost(k): Ghost<nat>) -> (r:
    DenseMultilinearPoly<Bls12381FrConfig, 4>)
    requires
        m.mat_wf(),
        z.len() == m.spec_cols(),
        all_wf(z@),
        k < usize::BITS,
        m.spec_rows() == pow2(k),
        forall|i: int, j: int|
            0 <= i < m.spec_rows() && 0 <= j < m.spec_cols() ==> 0 <= #[trigger] m.entry(i, j) < pm::<
                Bls12381FrConfig,
                4,
            >(),
    ensures
        r.mle_wf(),
        r.spec_vars() == k,
        r.spec_table() == matvec_values(m, values_of(z@)),
{
    let v = crate::matrix::mul_vec(m, z);
    proof {
        lemma_fr_modulus();
        assert(values_of(v@) =~= matvec_values(m, values_of(z@)));
    }
    mle_of(v, Ghost(k))
}

/// A reduced final value of a folded table is the table's extension there.
pub(crate) proof fn lemma_final_value(fe: Fr, table: Seq<int>, rx: Seq<int>)
    requires
        fe.wf(),
        table.len() == pow2(rx.len()),
        fv(fe) == fold_all(table, rx, fr_modulus() as int)[0],
    ensures
        fv(fe) == mle_value(table, rx) % (fr_modulus() as int),
{
    let p = fr_modulus() as int;
    lemma_fr_modulus();
    lemma_fold_all_final(table, rx, p);
    fe.lemma_value_bound();
    vstd::arithmetic::div_mod::lemma_small_mod(fv(fe) as nat, p as nat);
}

/// `a[0] (a[1] a[2] - a[3])` modulo the group order, zero on fewer than
/// four arguments.
pub open spec fn zero_check_value(a: Seq<int>) -> int {
    if a.len() >= 4 {
        fr_mod(a[0] * fr_mod(fr_mod(a[1] * a[2]) - a[3]))
    } else {
        0
    }
}

/// The combination of the zero-check as a spec function.
pub open spec fn zero_check_fn() -> spec_fn(Seq<int>) -> int {
    |a: Seq<int>| zero_check_value(a)
}

/// The tables with the variables fixed at `r`, first to last.
pub open spec fn fold_tables(tables: Seq<Seq<int>>, r: Seq<int>) -> Seq<Seq<int>> {
    Seq::new(tables.len(), |m: int| fold_all(tables[m], r, fr_modulus() as int))
}

/// The factors of the zero-check: `eq(tau, .)` and the tables of `A z`,
/// `B z`, `C z`.
pub open spec fn first_tables<M: Matrix<Bls12381FrConfig, 4>>(
    r1cs: SpartanR1CS<Bls12381FrConfig, 4, M>,
    tau: Seq<int>,
    z: Seq<int>,
) -> Seq<Seq<int>> {
    seq![
        crate::matrix::eq_weights::<Bls12381FrConfig, 4>(tau),
        matvec_values(&r1cs.a, z),
        matvec_values(&r1cs.b, z),
        matvec_values(&r1cs.c, z),
    ]
}

/// The rounds of the zero-check on `tables` from the claim zero, as the
/// prover sends them: each round's values at `0` and `1` add up to the
/// running claim, and its other values are the round sums of the
/// zero-check combination on the tables folded at the challenges before it.
pub open spec fn zero_check_rounds(tables: Seq<Seq<int>>, rounds: Seq<Seq<int>>, state: Seq<u8>) -> bool {
    let rep = crate::sumcheck::replay_rounds::<Bls12381FrConfig, 4>(rounds, 0, state);
    &&& crate::sumcheck::honest_rounds::<Bls12381FrConfig, 4>(rounds, 0, state)
    &&& forall|k: int, t: int|
        0 <= k < rounds.len() && 0 <= t <= 3 && t != 1 ==> #[trigger] crate::sumcheck_complete::round_value_of(
            zero_check_fn(),
            fold_tables(tables, rep.1.take(k)),
            t,
            fr_modulus() as int,
            rounds[k][t],
        )
}

/// `v[0] (v[1] v[2] - v[3])` on reduced inputs, zero on anything else.
pub(crate) fn zero_check_comb(v: &[Fr]) -> (out: Fr)
    ensures
        out.wf(),
        all_wf(v@) ==> fv(out) == zero_check_value(values_of(v@)),
{
    proof {
        lemma_fr_modulus();
    }
    if v.len() >= 4 && v[0].is_reduced() && v[1].is_reduced() && v[2].is_reduced() && v[3].is_reduced() {
        v[0].mul(v[1].mul(v[2]).sub(v[3]))
    } else {
        let z = Fr::zero();
        proof {
            if all_wf(v@) {
                assert(v.len() < 4 || !v[0].wf() || !v[1].wf() || !v[2].wf() || !v[3].wf());
                if v.len() >= 4 {
                    assert(v@[0].wf() && v@[1].wf() && v@[2].wf() && v@[3].wf());
                }
            }
        }
        z
    }
}

/// The zero-check sum-check on `eq`, `Az~`, `Bz~`, `Cz~` with claim zero:
/// the final values of the last three are their extensions at the point.
fn zero_check_sumcheck(
    eq: DenseMultilinearPoly<Bls12381FrConfig, 4>,
    az: DenseMultilinearPoly<Bls12381FrConfig, 4>,
    bz: DenseMultilinearPoly<Bls12381FrConfig, 4>,
    cz: DenseMultilinearPoly<Bls12381FrConfig, 4>,
    transcript: &mut Transcript,
) -> (out: crate::sumcheck::SumcheckOutput<Bls12381FrConfig, 4>)
    requires
        eq.mle_wf(),
        az.mle_wf(),
        bz.mle_wf(),
        cz.mle_wf(),
        az.spec_vars() == eq.spec_vars(),
        bz.spec_vars() == eq.spec_vars(),
        cz.spec_vars() == eq.spec_vars(),
    ensures
        out.proof.proof_wf(),
        out.proof.spec_polys().len() == eq.spec_vars(),
        out.final_evals.len() == 4,
        all_wf(out.final_evals@),
        out.point.len() == eq.spec_vars(),
        all_wf(out.point@),
        ({
            let rep = crate::sumcheck::replay_rounds::<Bls12381FrConfig, 4>(
                rounds_of(out.proof.spec_polys()),
                0,
                old(transcript).absorbed(),
            );
            let p = fr_modulus() as int;
            let rx = values_of(out.point@);
            &&& rx == rep.1
            &&& final(transcript).absorbed() == rep.2
            &&& fv(out.final_evals@[1]) == mle_value(az.spec_table(), rx) % p
            &&& fv(out.final_evals@[2]) == mle_value(bz.spec_table(), rx) % p
            &&& fv(out.final_evals@[3]) == mle_value(cz.spec_table(), rx) % p
        }),
        zero_check_rounds(
            seq![eq.spec_table(), az.spec_table(), bz.spec_table(), cz.spec_table()],
            rounds_of(out.proof.spec_polys()),
            old(transcript).absorbed(),
        ),
{
    proof {
        lemma_fr_modulus();
        lemma_small_nodes_invertible(4);
    }
    let zero = Fr::zero();
    let ghost ta = az.spec_table();
    let ghost tb = bz.spec_table();
    let ghost tc = cz.spec_table();
    let ghost k = eq.spec_vars();
    let ghost ta0 = eq.spec_table();
    let polys = vec![eq, az, bz, cz];
    let ghost pv = polys@;
    proof {
        assert(polys@[0].spec_table() == ta0);
        assert(polys@[1].spec_table() == ta);
        assert(polys@[2].spec_table() == tb);
        assert(polys@[3].spec_table() == tc);
    }
    let out = SumcheckProof::prove(polys, zero, 3, zero_check_comb, transcript);
    proof {
        let rx = values_of(out.point@);
        lemma_replay_len(rounds_of(out.proof.spec_polys()), fv(zero), old(transcript).absorbed());
        assert(rx.len() == k);
        lemma_final_value(out.final_evals@[1], ta, rx);
        lemma_final_value(out.final_evals@[2], tb, rx);
        lemma_final_value(out.final_evals@[3], tc, rx);
        let rounds = rounds_of(out.proof.spec_polys());
        let rep = crate::sumcheck::replay_rounds::<Bls12381FrConfig, 4>(rounds, 0, old(transcript).absorbed());
        assert(crate::sumcheck_complete::comb_computes::<Bls12381FrConfig, 4, _>(zero_check_comb, zero_check_fn()))
            by {
            assert forall|v: &[Fr], o: Fr| all_wf(v@) && #[trigger] zero_check_comb.ensures((v,), o) implies fv(o)
                == zero_check_fn()(values_of(v@)) % pm::<Bls12381FrConfig, 4>() by {
                let x = zero_check_value(values_of(v@));
                if values_of(v@).len() >= 4 {
                    vstd::arithmetic::div_mod::lemma_mod_twice(
                        values_of(v@)[0] * fr_mod(fr_mod(values_of(v@)[1] * values_of(v@)[2]) - values_of(v@)[3]),
                        fr_modulus() as int,
                    );
                } else {
                    vstd::arithmetic::div_mod::lemma_small_mod(0, fr_modulus() as nat);
                }
            }
        }
        let tabs = seq![ta0, ta, tb, tc];
        assert forall|k: int, t: int| 0 <= k < rounds.len() && 0 <= t <= 3 && t != 1 implies #[trigger]
            crate::sumcheck_complete::round_value_of(
            zero_check_fn(),
            fold_tables(tabs, rep.1.take(k)),
            t,
            fr_modulus() as int,
            rounds[k][t],
        ) by {
            assert(crate::sumcheck::tables_at(pv, rep.1.take(k)) =~= fold_tables(tabs, rep.1.take(k)));
            crate::sumcheck_complete::lemma_round_value_of::<Bls12381FrConfig, 4, _>(
                zero_check_comb,
                zero_check_fn(),
                crate::sumcheck::tables_at(pv, rep.1.take(k)),
                t,
                rounds[k][t],
            );
        }
    }
    out
}

impl<M: Matrix<Bls12381FrConfig, 4>> SpartanNarkInstance<M> {
    /// The first sum-check: draws `tau` and proves
    /// `0 = sum_x eq(tau, x) (Az~(x) Bz~(x) - Cz~(x))`.
    fn first_sumcheck(&self, z: &Vec<Fr>, transcript: &mut Transcript) -> (out: crate::sumcheck::SumcheckOutput<
        Bls12381FrConfig,
        4,
    >)
        requires
            self.inst_wf(),
            z.len() == self.spec_r1cs().a.spec_cols(),
            all_wf(z@),
        ensures
            out.proof.proof_wf(),
            out.proof.spec_polys().len() == constraint_vars_of(self.spec_r1cs().structure),
            out.final_evals.len() == 4,
            all_wf(out.final_evals@),
            out.point.len() == constraint_vars_of(self.spec_r1cs().structure),
            all_wf(out.point@),
            ({
                let taus = tau_draws(
                    old(transcript).absorbed(),
                    constraint_vars_of(self.spec_r1cs().structure),
                );
                let rep = crate::sumcheck::replay_rounds::<Bls12381FrConfig, 4>(
                    rounds_of(out.proof.spec_polys()),
                    0,
                    taus.1,
                );
                let p = fr_modulus() as int;
                let rx = values_of(out.point@);
                &&& rx == rep.1
                &&& final(transcript).absorbed() == rep.2
                &&& fv(out.final_evals@[1]) == mle_value(matvec_values(&self.spec_r1cs().a, values_of(z@)), rx) % p
                &&& fv(out.final_evals@[2]) == mle_value(matvec_values(&self.spec_r1cs().b, values_of(z@)), rx) % p
                &&& fv(out.final_evals@[3]) == mle_value(matvec_values(&self.spec_r1cs().c, values_of(z@)), rx) % p
                &&& zero_check_rounds(
                    first_tables(self.spec_r1cs(), taus.0, values_of(z@)),
                    rounds_of(out.proof.spec_polys()),
                    taus.1,
                )
            }),
    {
        let constraint_vars = self.r1cs.constraint_vars();
        let tau = draw_taus(transcript, constraint_vars);
        let ghost tv = values_of(tau@);
        let eq_table = EqPoly::new(tau).table();
        proof {
            assert(values_of(eq_table@) =~= crate::matrix::eq_weights::<Bls12381FrConfig, 4>(tv));
        }
        let eq = mle_of(eq_table, Ghost(constraint_vars as nat));
        let az = matvec_mle(&self.r1cs.a, z.as_slice(), Ghost(constraint_vars as nat));
        let bz = matvec_mle(&self.r1cs.b, z.as_slice(), Ghost(constraint_vars as nat));
        let cz = matvec_mle(&self.r1cs.c, z.as_slice(), Ghost(constraint_vars as nat));
        proof {
            assert(seq![eq.spec_table(), az.spec_table(), bz.spec_table(), cz.spec_table()] =~= first_tables(
                self.spec_r1cs(),
                tv,
                values_of(z@),
            ));
        }
        zero_check_sumcheck(eq, az, bz, cz, transcript)
    }

    /// The second sum-check: draws `rho` and reduces
    /// `rho_A v_A + rho_B v_B + rho_C v_C` to a claim on `Z~`.
    #[verifier::rlimit(60)]
    fn second_sumcheck(
        &self,
        z: Vec<Fr>,
        rx: Vec<Fr>,
        va: Fr,
        vb: Fr,
        vc: Fr,
        transcript: &mut Transcript,
    ) -> (out: crate::sumcheck::SumcheckOutput<Bls12381FrConfig, 4>)
        requires
            self.inst_wf(),
            z.len() == self.spec_r1cs().a.spec_cols(),
            all_wf(z@),
            rx.len() == constraint_vars_of(self.spec_r1cs().structure),
            all_wf(rx@),
            va.wf(),
            vb.wf(),
            vc.wf(),
        ensures
            out.proof.proof_wf(),
            out.proof.spec_polys().len() == half_vars_of(self.spec_r1cs().structure) + 1,
            out.point.len() == half_vars_of(self.spec_r1cs().structure) + 1,
            all_wf(out.point@),
            ({
                let c2 = second_claim(old(transcript).absorbed(), fv(va), fv(vb), fv(vc));
                let rep = crate::sumcheck::replay_rounds::<Bls12381FrConfig, 4>(
                    rounds_of(out.proof.spec_polys()),
                    c2.0,
                    c2.1,
                );
                &&& values_of(out.point@) == rep.1
                &&& final(transcript).absorbed() == rep.2
            }),
    {
        proof {
            lemma_fr_modulus();
            lemma_small_nodes_invertible(3);
        }
        transcript.append_field("spartan-claim-a".as_bytes(), &va);
        transcript.append_field("spartan-claim-b".as_bytes(), &vb);
        transcript.append_field("spartan-claim-c".as_bytes(), &vc);
        let rho_a = transcript.challenge_field::<Bls12381FrConfig, 4>("spartan-rho-a".as_bytes());
        let rho_b = transcript.challenge_field::<Bls12381FrConfig, 4>("spartan-rho-b".as_bytes());
        let rho_c = transcript.challenge_field::<Bls12381FrConfig, 4>("spartan-rho-c".as_bytes());
        let claim = rho_a.mul(va).add(rho_b.mul(vb)).add(rho_c.mul(vc));
        let half_vars = self.r1cs.half_vars();
        let ghost cols = (half_vars + 1) as nat;
        let row_weights = EqPoly::new(rx).table();
        let a_rx = mle_of(crate::matrix::vec_mul(&self.r1cs.a, row_weights.as_slice()), Ghost(cols));
        let b_rx = mle_of(crate::matrix::vec_mul(&self.r1cs.b, row_weights.as_slice()), Ghost(cols));
        let c_rx = mle_of(crate::matrix::vec_mul(&self.r1cs.c, row_weights.as_slice()), Ghost(cols));
        let z_mle = mle_of(z, Ghost(cols));
        let comb = |v: &[Fr]| -> (out: Fr)
            ensures
                out.wf(),
            {
                if v.len() >= 4 && v[0].is_reduced() && v[1].is_reduced() && v[2].is_reduced()
                    && v[3].is_reduced() && rho_a.is_reduced() && rho_b.is_reduced()
                    && rho_c.is_reduced() {
                    rho_a.mul(v[0]).add(rho_b.mul(v[1])).add(rho_c.mul(v[2])).mul(v[3])
                } else {
                    Fr::zero()
                }
            };
        let polys = vec![a_rx, b_rx, c_rx, z_mle];
        let ghost t = transcript.absorbed();
        let out = SumcheckProof::prove(polys, claim, 2, comb, transcript);
        proof {
            lemma_replay_len(rounds_of(out.proof.spec_polys()), fv(claim), t);
        }
        out
    }

    /// Both sum-checks and the witness evaluation:
    /// `(sc1, va, vb, vc, sc2, witness point, witness evaluation)`.
    #[verifier::rlimit(60)]
    fn prove_claims(
        &self,
        z: Vec<Fr>,
        witness_mle: &DenseMultilinearPoly<Bls12381FrConfig, 4>,
        transcript: &mut Transcript,
    ) -> (res: (SumcheckProof<Bls12381FrConfig, 4>, Fr, Fr, Fr, SumcheckProof<Bls12381FrConfig, 4>, Vec<Fr>, Fr))
        requires
            self.inst_wf(),
            z.len() == self.spec_r1cs().a.spec_cols(),
            all_wf(z@),
            witness_mle.mle_wf(),
            witness_mle.spec_vars() == half_vars_of(self.spec_r1cs().structure),
        ensures
            res.0.proof_wf(),
            res.0.spec_polys().len() == constraint_vars_of(self.spec_r1cs().structure),
            res.1.wf(),
            res.2.wf(),
            res.3.wf(),
            res.4.proof_wf(),
            res.4.spec_polys().len() == half_vars_of(self.spec_r1cs().structure) + 1,
            res.5.len() == half_vars_of(self.spec_r1cs().structure),
            all_wf(res.5@),
            res.6.wf(),
            fv(res.6) == mle_value(witness_mle.spec_table(), values_of(res.5@)) % (fr_modulus() as int),
            nark_claims_from(
                old(transcript).absorbed(),
                self.spec_r1cs(),
                values_of(z@),
                witness_mle.spec_table(),
                res.0.spec_polys(),
                fv(res.1),
                fv(res.2),
                fv(res.3),
                res.4.spec_polys(),
                fv(res.6),
            ),
    {
        let ghost t1 = transcript.absorbed();
        let ghost zv = values_of(z@);
        let out1 = self.first_sumcheck(&z, transcript);
        let ghost t_mid = transcript.absorbed();
        let ghost rx = values_of(out1.point@);
        let va = out1.final_evals[1];
        let vb = out1.final_evals[2];
        let vc = out1.final_evals[3];
        let out2 = self.second_sumcheck(z, out1.point, va, vb, vc, transcript);
        let ry = out2.point;
        let half_vars = self.r1cs.half_vars();
        let witness_point = vstd::slice::slice_subrange(ry.as_slice(), 0, half_vars);
        proof {
            assert forall|i: int| 0 <= i < witness_point.len() implies (#[trigger] witness_point@[i]).wf() by {
                assert(witness_point@[i] == ry@[i]);
            }
            assert(values_of(witness_point@) =~= values_of(ry@).take(half_vars as int));
        }
        let witness_eval = witness_mle.eval(witness_point);
        let point = vstd::slice::slice_to_vec(witness_point);
        proof {
            lemma_fr_modulus();
            assert(fv(witness_eval) == mle_value(witness_mle.spec_table(), values_of(ry@).take(half_vars as int)) % (fr_modulus() as int));
            assert(fv(va) == mle_value(matvec_values(&self.spec_r1cs().a, zv), rx) % (fr_modulus() as int));
            assert(values_of(ry@) == crate::sumcheck::replay_rounds::<Bls12381FrConfig, 4>(
                rounds_of(out2.proof.spec_polys()),
                second_claim(t_mid, fv(va), fv(vb), fv(vc)).0,
                second_claim(t_mid, fv(va), fv(vb), fv(vc)).1,
            ).1);
            lemma_claims_from(
                t1,
                self.spec_r1cs(),
                zv,
                witness_mle.spec_table(),
                out1.proof.spec_polys(),
                fv(va),
                fv(vb),
                fv(vc),
                out2.proof.spec_polys(),
                fv(witness_eval),
                t_mid,
                rx,
                values_of(ry@),
            );
        }
        (out1.proof, va, vb, vc, out2.proof, point, witness_eval)
    }

    /// The proof for `io` and `witness`, with the commitment blinds and the
    /// opening's blinds drawn from `rng`. Refused: an assignment
    /// that does not satisfy the constraints. `None` when the Hyrax opening
    /// gives none.
    #[verifier::rlimit(40)]
    pub fn prove(
        &self,
        io: &[Fr],
        witness: &[Fr],
        transcript: &mut Transcript,
        rng: &mut ark_std::rand::rngs::StdRng,
    ) -> (r: Option<SpartanNarkProof>)
        requires
            self.inst_wf(),
            io.len() == self.spec_r1cs().structure.num_io,
            witness.len() == self.spec_r1cs().structure.num_witness,
            all_wf(io@),
            all_wf(witness@),
            forall|i: int|
                0 <= i < self.spec_r1cs().structure.num_constraints ==> #[trigger] crate::r1cs::row_holds::<
                    Bls12381FrConfig,
                    4,
                    M,
                >(
                    &self.spec_r1cs().a,
                    &self.spec_r1cs().b,
                    &self.spec_r1cs().c,
                    i,
                    crate::spartan_r1cs::spartan_z(
                        values_of(io@),
                        values_of(witness@),
                        pow2(half_vars_of(self.spec_r1cs().structure)),
                    ),
                ),
        ensures
            r matches Some(proof) ==> {
                let s = self.spec_r1cs().structure;
                &&& proof.proof_wf()
                &&& proof.sc1.spec_polys().len() == constraint_vars_of(s)
                &&& proof.sc2.spec_polys().len() == half_vars_of(s) + 1
                &&& proof.witness_opening.result_com@ == scalar_commit(
                    self.spec_pcs().scalar.generator@,
                    self.spec_pcs().scalar.blind@,
                    proof.witness_eval.value(),
                    0,
                )
                &&& nark_claims_hold(
                    old(transcript).absorbed(),
                    self.spec_r1cs(),
                    values_of(io@),
                    values_of(witness@),
                    proof,
                )
                &&& exists|bl: Seq<Fr>|
                    bl.len() == pow2(crate::hyrax::row_vars_of(half_vars_of(s))) && all_wf(bl)
                        && point_views(proof.witness_com.rows@) == #[trigger] crate::hyrax::hyrax_rows(
                        self.spec_pcs(),
                        pad(values_of(witness@), pow2(half_vars_of(s))),
                        bl,
                    )
            },
            r is None ==> {
                let s = self.spec_r1cs().structure;
                let table = pad(values_of(witness@), pow2(half_vars_of(s)));
                exists|bl: Seq<Fr>, evals: Seq<Fr>, state: Seq<u8>, pt: Seq<int>|
                    bl.len() == pow2(crate::hyrax::row_vars_of(half_vars_of(s))) && all_wf(bl)
                        && values_of(evals) == table && pt.len() == half_vars_of(s)
                        && #[trigger] crate::hyrax::hyrax_open_refused(
                        state,
                        self.spec_pcs(),
                        crate::hyrax::hyrax_rows(self.spec_pcs(), table, bl),
                        evals,
                        bl,
                        pt,
                        0,
                    )
            },
    {
        let z = self.r1cs.assignment(io, witness);
        self.append_statement(io, transcript);

        let witness_mle = self.r1cs.witness_mle(witness);
        let num_rows = self.pcs.num_rows();
        let mut com_blinds: Vec<Fr> = Vec::new();
        let mut i: usize = 0;
        while i < num_rows
            invariant
                i <= num_rows,
                com_blinds.len() == i,
                all_wf(com_blinds@),
            decreases num_rows - i,
        {
            com_blinds.push(crate::curve::random_scalar(rng));
            i = i + 1;
        }
        let witness_com = self.pcs.commit(&witness_mle, com_blinds.as_slice());
        let enc = commitment_encoding(&witness_com);
        transcript.append_bytes("spartan-witness-commitment".as_bytes(), enc.as_slice());

        let ghost t1 = transcript.absorbed();
        let (sc1, va, vb, vc, sc2, witness_point, witness_eval) = self.prove_claims(z, &witness_mle, transcript);
        transcript.append_field("spartan-witness-evaluation".as_bytes(), &witness_eval);
        let zero = Fr::zero();
        let ghost before_open = transcript.absorbed();
        let opening = self.pcs.open(
            &witness_com,
            &witness_mle,
            com_blinds.as_slice(),
            witness_point.as_slice(),
            &zero,
            transcript,
            rng,
        );
        proof {
            assert(point_views(witness_com.rows@) == crate::hyrax::hyrax_rows(
                self.spec_pcs(),
                pad(values_of(witness@), pow2(half_vars_of(self.spec_r1cs().structure))),
                com_blinds@,
            ));
        }
        proof {
            lemma_fr_modulus();
            assert(witness_mle.spec_table() == values_of(witness_mle.spec_evals()));
        }
        match opening {
            Some(witness_opening) => Some(
                SpartanNarkProof {
                    witness_com,
                    sc1,
                    va,
                    vb,
                    vc,
                    sc2,
                    witness_eval,
                    witness_opening,
                },
            ),
            None => {
                proof {
                    assert(witness_mle.spec_table() == values_of(witness_mle.spec_evals()));
                    assert(crate::hyrax::hyrax_open_refused(
                        before_open,
                        self.spec_pcs(),
                        crate::hyrax::hyrax_rows(
                            self.spec_pcs(),
                            pad(values_of(witness@), pow2(half_vars_of(self.spec_r1cs().structure))),
                            com_blinds@,
                        ),
                        witness_mle.spec_evals(),
                        com_blinds@,
                        values_of(witness_point@),
                        0,
                    ));
                }
                None
            },
        }
    }
}

} // verus!
