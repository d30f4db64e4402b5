//! Zero-knowledge sum-check.
//!
//! The plain sum-check sends each round polynomial `s_i`, which leaks the
//! witness. Here the prover sends, per round,
//!
//! 1. a Pedersen commitment `C_{s_i}` to the coefficients of `s_i`,
//! 2. a commitment `C_{e_i}` to `e_i = s_i(r_i)`, the next claim,
//! 3. a linear inner-product proof that binds `s_i(0) + s_i(1) = e_{i-1}` and
//!    `s_i(r_i) = e_i` into one relation with the weights `w0`, `w1`.
//!
//! The inner product of the coefficients with `(2, 1, ..., 1)` is
//! `s(0) + s(1)`, and with `(1, r, r^2, ...)` it is `s(r)`, so both are inner
//! products. The verifier only ever holds the claims as commitments and
//! returns the last one.

use crate::curve::{
    fr_modulus, g1_add_spec, g1_hash_spec, g1_mul_spec, lemma_fr_modulus, point_views,
    random_scalar, scalar_values, Bls12381FrConfig, Fr, G1,
};
use crate::helpers::{all_wf, fv, lemma_add_cong, lemma_mul_cong, lemma_reduced, pm};
use crate::ipa::{lipa_verify_spec, LinearInnerProductProof};
use crate::mle::{fold_all, DenseMultilinearPoly, MultilinearPoly};
use crate::sumcheck::{fold_each, round_coeffs, round_value, tables_at, tables_of, SumcheckProof};
use crate::uni_poly::poly_value;
use crate::uni_poly::{nodes_invertible, UniPoly};
use crate::pedersen::{generator_message, scalar_commit, vector_commit, ScalarPedersen, VectorPedersen};
use crate::sigma::{fr_after, fr_challenge};
use crate::transcript::{frame, Transcript};
use crate::uni_poly::values_of;
use vstd::arithmetic::div_mod::*;
use vstd::arithmetic::mul::*;
use vstd::arithmetic::power::*;
use vstd::prelude::*;
use vstd::string::StringSliceAdditionalSpecFns;

verus! {

/// The key of the zero-knowledge sum-check: a vector key for the
/// `degree + 1` coefficients of a round polynomial and the scalar key for the
/// claims. The two share the blinding generator, so claim commitments combine
/// with those of the calling protocol.
#[derive(Clone, Debug)]
pub struct ZkSumcheckKey {
    pub coeffs: VectorPedersen,
    pub scalar: ScalarPedersen,
}

/// A key that can commit to the coefficients of a polynomial of degree at
/// least zero, with a multiplication base for every generator.
pub open spec fn key_wf(key: ZkSumcheckKey) -> bool {
    &&& key.coeffs.generators.len() >= 1
    &&& key.coeffs.mul_bases.len() >= key.coeffs.generators.len()
}

/// The degree bound of the round polynomials a key commits to.
pub open spec fn key_degree(key: ZkSumcheckKey) -> nat {
    (key.coeffs.generators.len() - 1) as nat
}

impl ZkSumcheckKey {
    /// A vector key of `degree + 1` generators hashed under `domain`, whose
    /// blinding generator is that of `scalar`. Not defined on a zero
    /// degree.
    pub fn setup(domain: &[u8], degree: usize, scalar: ScalarPedersen) -> (r: Result<
        Self,
        ark_ec::hashing::HashToCurveError,
    >)
        requires
            1 <= degree < usize::MAX,
        ensures
            r is Ok,
            r matches Ok(key) ==> {
                &&& key.coeffs.generators.len() == degree + 1
                &&& forall|i: int|
                    0 <= i <= degree ==> (#[trigger] key.coeffs.generators@[i])@ == g1_hash_spec(
                        domain@,
                        generator_message(i as nat),
                    )
                &&& key.coeffs.mul_bases@ == key.coeffs.generators@
                &&& key.coeffs.blind == scalar.blind
                &&& key.scalar == scalar
                &&& key_wf(key)
                &&& key_degree(key) == degree
            },
    {
        let mut coeffs = VectorPedersen::setup(domain, degree + 1)?;
        coeffs.blind = scalar.blind;
        Ok(Self { coeffs, scalar })
    }

    /// The degree bound of the round polynomials.
    pub fn degree(&self) -> (r: usize)
        requires
            self.coeffs.generators.len() >= 1,
        ensures
            r == key_degree(*self),
    {
        self.coeffs.len() - 1
    }
}

/// Entry `i` of the combined query: `w0 (2 if i = 0 else 1) + w1 r^i`.
pub open spec fn query_entry(i: nat, r: nat, w0: nat, w1: nat) -> int {
    let sum_weight: int = if i == 0 {
        2
    } else {
        1
    };
    (w0 * sum_weight + w1 * pow(r as int, i)) % (fr_modulus() as int)
}

/// The combined query for a polynomial of degree `degree`, by its values.
pub open spec fn query_values(degree: nat, r: nat, w0: nat, w1: nat) -> Seq<int> {
    Seq::new(degree + 1, |i: int| query_entry(i as nat, r, w0, w1))
}

/// The public vector whose inner product with the coefficients of `s` is
/// `w0 (s(0) + s(1)) + w1 s(r)`.
fn combined_query(degree: usize, r: Fr, w0: Fr, w1: Fr) -> (q: Vec<Fr>)
    requires
        degree < usize::MAX,
        r.wf(),
        w0.wf(),
        w1.wf(),
    ensures
        q.len() == degree + 1,
        all_wf(q@),
        values_of(q@) == query_values(degree as nat, r.value(), w0.value(), w1.value()),
{
    proof {
        lemma_fr_modulus();
        lemma_reduced(r);
    }
    let ghost p = fr_modulus() as int;
    let two = Fr::from_u64(2);
    let one = Fr::one();
    proof {
        lemma_small_mod(2, fr_modulus());
    }
    let mut r_pow = Fr::one();
    let mut q: Vec<Fr> = Vec::new();
    let mut i: usize = 0;
    proof {
        lemma_small_mod(1, fr_modulus());
        assert(pow(fv(r), 0) == 1) by {
            reveal(pow);
        }
    }
    while i <= degree
        invariant
            degree < usize::MAX,
            i <= degree + 1,
            p == fr_modulus(),
            p == pm::<Bls12381FrConfig, 4>(),
            p > 2,
            r.wf(),
            w0.wf(),
            w1.wf(),
            two.wf(),
            two.value() == 2,
            one.wf(),
            one.value() == 1,
            r_pow.wf(),
            fv(r_pow) == pow(fv(r), i as nat) % p,
            q.len() == i,
            all_wf(q@),
            forall|k: int|
                0 <= k < i ==> fv(#[trigger] q@[k]) == query_entry(
                    k as nat,
                    r.value(),
                    w0.value(),
                    w1.value(),
                ),
        decreases degree + 1 - i,
    {
        let sum_weight = if i == 0 {
            two
        } else {
            one
        };
        let a = w0.mul(sum_weight);
        let b = w1.mul(r_pow);
        let value = a.add(b);
        proof {
            let pw = pow(fv(r), i as nat);
            let sw = fv(sum_weight);
            lemma_mod_twice(pw, p);
            lemma_mul_cong(fv(w1), pw % p, fv(w1), pw, p);
            lemma_mod_twice(fv(w0) * sw, p);
            lemma_add_cong(
                (fv(w0) * sw) % p,
                (fv(w1) * (pw % p)) % p,
                fv(w0) * sw,
                fv(w1) * pw,
                p,
            );
            assert(fv(value) == query_entry(i as nat, r.value(), w0.value(), w1.value()));
        }
        q.push(value);
        let next = r_pow.mul(r);
        proof {
            let pw = pow(fv(r), i as nat);
            lemma_mod_twice(pw, p);
            lemma_mul_cong(pw % p, fv(r), pw, fv(r), p);
            lemma_mul_is_commutative(pw, fv(r));
            assert(pow(fv(r), (i + 1) as nat) == fv(r) * pw) by {
                reveal(pow);
            }
        }
        r_pow = next;
        i = i + 1;
    }
    proof {
        assert(values_of(q@) =~= query_values(degree as nat, r.value(), w0.value(), w1.value()));
    }
    q
}

pub open spec fn poly_commitment_label() -> Seq<u8> {
    "zk-sumcheck-poly-commitment".spec_bytes()
}

pub open spec fn round_challenge_label() -> Seq<u8> {
    "zk-sumcheck-challenge".spec_bytes()
}

pub open spec fn claim_commitment_label() -> Seq<u8> {
    "zk-sumcheck-claim-commitment".spec_bytes()
}

pub open spec fn eval_commitment_label() -> Seq<u8> {
    "zk-sumcheck-eval-commitment".spec_bytes()
}

pub open spec fn weight_label() -> Seq<u8> {
    "zk-sumcheck-weight".spec_bytes()
}

/// One verifier round from `state`, with the running claim commitment `cc`:
/// `(accepted, r_i, transcript)`. It absorbs `C_s`, draws `r_i`, absorbs
/// `cc` and `C_e`, draws `w0` and `w1`, and checks the linear proof for the
/// combined query against `C_s` and `w0 cc + w1 C_e`.
#[verifier::opaque]
pub open spec fn zk_round(
    state: Seq<u8>,
    cc: Seq<u8>,
    poly_com: Seq<u8>,
    eval_com: Seq<u8>,
    proof: LinearInnerProductProof,
    key: ZkSumcheckKey,
) -> (bool, nat, Seq<u8>) {
    let s1 = state + frame(poly_commitment_label(), poly_com);
    let r = fr_challenge(s1, round_challenge_label());
    let s2 = fr_after(s1, round_challenge_label()) + frame(claim_commitment_label(), cc) + frame(
        eval_commitment_label(),
        eval_com,
    );
    let w0 = fr_challenge(s2, weight_label());
    let s3 = fr_after(s2, weight_label());
    let w1 = fr_challenge(s3, weight_label());
    let s4 = fr_after(s3, weight_label());
    let target = g1_add_spec(g1_mul_spec(cc, w0), g1_mul_spec(eval_com, w1));
    let v = lipa_verify_spec(
        s4,
        proof,
        key.coeffs,
        key.scalar,
        query_values(key_degree(key), r, w0, w1),
        poly_com,
        target,
    );
    (v.0, r, v.1)
}

/// The claim commitment that round `k` starts from.
pub open spec fn round_claim_com(claim_com: Seq<u8>, eval_coms: Seq<Seq<u8>>, k: nat) -> Seq<u8> {
    if k == 0 {
        claim_com
    } else {
        eval_coms[k - 1]
    }
}

/// The first `k` verifier rounds: `(accepted, challenges, transcript)`. The
/// rounds stop at the first rejection.
pub open spec fn zk_rounds(
    state: Seq<u8>,
    claim_com: Seq<u8>,
    poly_coms: Seq<Seq<u8>>,
    eval_coms: Seq<Seq<u8>>,
    proofs: Seq<LinearInnerProductProof>,
    key: ZkSumcheckKey,
    k: nat,
) -> (bool, Seq<int>, Seq<u8>)
    decreases k,
{
    if k == 0 {
        (true, Seq::empty(), state)
    } else {
        let prev = zk_rounds(state, claim_com, poly_coms, eval_coms, proofs, key, (k - 1) as nat);
        if !prev.0 {
            prev
        } else {
            let rd = zk_round(
                prev.2,
                round_claim_com(claim_com, eval_coms, (k - 1) as nat),
                poly_coms[k - 1],
                eval_coms[k - 1],
                proofs[k - 1],
                key,
            );
            (rd.0, prev.1.push(rd.1 as int), rd.2)
        }
    }
}


/// The claim commitment after all rounds: the last eval commitment, or the
/// initial one when there is no round.
pub open spec fn final_claim_com(claim_com: Seq<u8>, eval_coms: Seq<Seq<u8>>) -> Seq<u8> {
    round_claim_com(claim_com, eval_coms, eval_coms.len())
}

/// Once a round rejects, later rounds change nothing.
pub proof fn lemma_rounds_stuck(
    state: Seq<u8>,
    claim_com: Seq<u8>,
    poly_coms: Seq<Seq<u8>>,
    eval_coms: Seq<Seq<u8>>,
    proofs: Seq<LinearInnerProductProof>,
    key: ZkSumcheckKey,
    k: nat,
    m: nat,
)
    requires
        k <= m,
        !zk_rounds(state, claim_com, poly_coms, eval_coms, proofs, key, k).0,
    ensures
        zk_rounds(state, claim_com, poly_coms, eval_coms, proofs, key, m) == zk_rounds(
            state,
            claim_com,
            poly_coms,
            eval_coms,
            proofs,
            key,
            k,
        ),
    decreases m - k,
{
    if k < m {
        lemma_rounds_stuck(state, claim_com, poly_coms, eval_coms, proofs, key, k, (m - 1) as nat);
    }
}

/// The first `k` rounds read only the first `k` entries of each list.
pub proof fn lemma_rounds_prefix(
    state: Seq<u8>,
    claim_com: Seq<u8>,
    poly_coms: Seq<Seq<u8>>,
    eval_coms: Seq<Seq<u8>>,
    proofs: Seq<LinearInnerProductProof>,
    poly_coms2: Seq<Seq<u8>>,
    eval_coms2: Seq<Seq<u8>>,
    proofs2: Seq<LinearInnerProductProof>,
    key: ZkSumcheckKey,
    k: nat,
)
    requires
        k <= poly_coms.len(),
        k <= poly_coms2.len(),
        k <= eval_coms.len(),
        k <= eval_coms2.len(),
        k <= proofs.len(),
        k <= proofs2.len(),
        forall|j: int| 0 <= j < k ==> poly_coms[j] == poly_coms2[j],
        forall|j: int| 0 <= j < k ==> eval_coms[j] == eval_coms2[j],
        forall|j: int| 0 <= j < k ==> proofs[j] == proofs2[j],
    ensures
        zk_rounds(state, claim_com, poly_coms, eval_coms, proofs, key, k) == zk_rounds(
            state,
            claim_com,
            poly_coms2,
            eval_coms2,
            proofs2,
            key,
            k,
        ),
    decreases k,
{
    if k > 0 {
        lemma_rounds_prefix(
            state,
            claim_com,
            poly_coms,
            eval_coms,
            proofs,
            poly_coms2,
            eval_coms2,
            proofs2,
            key,
            (k - 1) as nat,
        );
    }
}

/// A zero-knowledge sum-check proof: per round the commitment to the round
/// polynomial's coefficients, the commitment to its value at the challenge,
/// and the linear proof tying them to the running claim.
#[derive(Clone, Debug)]
pub struct ZkSumcheckProof {
    pub poly_coms: Vec<G1>,
    pub eval_coms: Vec<G1>,
    pub proofs: Vec<LinearInnerProductProof>,
}

impl ZkSumcheckProof {
    /// Every linear proof holds reduced scalars.
    pub open spec fn proof_wf(&self) -> bool {
        forall|i: int| 0 <= i < self.proofs.len() ==> (#[trigger] self.proofs@[i]).proof_wf()
    }

    /// One commitment pair and one linear proof per round.
    pub open spec fn shape_ok(&self) -> bool {
        &&& self.poly_coms.len() == self.eval_coms.len()
        &&& self.poly_coms.len() == self.proofs.len()
    }

    /// What the verifier computes from `state` and the initial claim
    /// commitment: `(accepted, challenges, transcript)`.
    pub open spec fn verify_spec(&self, key: ZkSumcheckKey, claim_com: Seq<u8>, state: Seq<u8>) -> (
        bool,
        Seq<int>,
        Seq<u8>,
    ) {
        zk_rounds(
            state,
            claim_com,
            point_views(self.poly_coms@),
            point_views(self.eval_coms@),
            self.proofs@,
            key,
            self.poly_coms.len() as nat,
        )
    }

    /// Verifies every round from the commitment `claim_com` to the claimed
    /// sum. On success returns the commitment to the final claim and the
    /// challenges; lists of different lengths are rejected before anything is
    /// absorbed.
    pub fn verify(&self, key: &ZkSumcheckKey, claim_com: &G1, transcript: &mut Transcript) -> (res:
        Option<(G1, Vec<Fr>)>)
        requires
            key_wf(*key),
            self.proof_wf(),
        ensures
            !self.shape_ok() ==> res is None && final(transcript).absorbed() == old(
                transcript,
            ).absorbed(),
            self.shape_ok() ==> ({
                let v = self.verify_spec(*key, claim_com@, old(transcript).absorbed());
                &&& (res is Some <==> v.0)
                &&& final(transcript).absorbed() == v.2
                &&& res matches Some((c, point)) ==> {
                    &&& c@ == final_claim_com(claim_com@, point_views(self.eval_coms@))
                    &&& all_wf(point@)
                    &&& values_of(point@) == v.1
                }
            }),
    {
        if self.poly_coms.len() != self.eval_coms.len() || self.poly_coms.len() != self.proofs.len() {
            return None;
        }
        let degree = key.degree();
        let n = self.poly_coms.len();
        let ghost s0 = transcript.absorbed();
        let ghost pcs = point_views(self.poly_coms@);
        let ghost ecs = point_views(self.eval_coms@);
        let mut current = *claim_com;
        let mut r: Vec<Fr> = Vec::new();
        let mut i: usize = 0;
        proof {
            assert(values_of(r@) =~= Seq::<int>::empty());
        }
        while i < n
            invariant
                n == self.poly_coms.len(),
                s0 == old(transcript).absorbed(),
                self.shape_ok(),
                self.proof_wf(),
                key_wf(*key),
                degree == key_degree(*key),
                pcs == point_views(self.poly_coms@),
                ecs == point_views(self.eval_coms@),
                i <= n,
                zk_rounds(s0, claim_com@, pcs, ecs, self.proofs@, *key, i as nat).0,
                values_of(r@) == zk_rounds(s0, claim_com@, pcs, ecs, self.proofs@, *key, i as nat).1,
                transcript.absorbed() == zk_rounds(
                    s0,
                    claim_com@,
                    pcs,
                    ecs,
                    self.proofs@,
                    *key,
                    i as nat,
                ).2,
                current@ == round_claim_com(claim_com@, ecs, i as nat),
                all_wf(r@),
            decreases n - i,
        {
            let ghost prev_r = r@;
            let (ok, r_i) = verify_round(
                &self.proofs[i],
                key,
                degree,
                &current,
                &self.poly_coms[i],
                &self.eval_coms[i],
                transcript,
            );
            if !ok {
                proof {
                    lemma_rounds_stuck(s0, claim_com@, pcs, ecs, self.proofs@, *key, (i + 1) as nat, n as nat);
                }
                return None;
            }
            r.push(r_i);
            current = self.eval_coms[i];
            proof {
                assert(values_of(r@) =~= values_of(prev_r).push(r_i.value() as int));
            }
            i = i + 1;
        }
        Some((current, r))
    }
}

/// One verifier round, as `zk_round` states it, with the challenge `r_i`.
fn verify_round(
    proof: &LinearInnerProductProof,
    key: &ZkSumcheckKey,
    degree: usize,
    claim_com: &G1,
    poly_com: &G1,
    eval_com: &G1,
    transcript: &mut Transcript,
) -> (res: (bool, Fr))
    requires
        key_wf(*key),
        degree == key_degree(*key),
        proof.proof_wf(),
    ensures
        res.1.wf(),
        ({
            let v = zk_round(
                old(transcript).absorbed(),
                claim_com@,
                poly_com@,
                eval_com@,
                *proof,
                *key,
            );
            &&& res.0 == v.0
            &&& res.1.value() == v.1
            &&& final(transcript).absorbed() == v.2
        }),
{
    transcript.append_point("zk-sumcheck-poly-commitment".as_bytes(), poly_com);
    let r_i = transcript.challenge_field::<Bls12381FrConfig, 4>("zk-sumcheck-challenge".as_bytes());
    transcript.append_point("zk-sumcheck-claim-commitment".as_bytes(), claim_com);
    transcript.append_point("zk-sumcheck-eval-commitment".as_bytes(), eval_com);
    let w0 = transcript.challenge_field::<Bls12381FrConfig, 4>("zk-sumcheck-weight".as_bytes());
    let w1 = transcript.challenge_field::<Bls12381FrConfig, 4>("zk-sumcheck-weight".as_bytes());
    let target_com = claim_com.mul_scalar(&w0).add_point(&eval_com.mul_scalar(&w1));
    let query = combined_query(degree, r_i, w0, w1);
    let ok = proof.verify(
        &key.coeffs,
        &key.scalar,
        query.as_slice(),
        poly_com,
        &target_com,
        transcript,
    );
    proof {
        reveal(zk_round);
    }
    (ok, r_i)
}


/// What the prover returns besides the proof: the challenges, the factors'
/// values there, and the final claim with the blind of its commitment.
pub struct ZkSumcheckOutput {
    pub proof: ZkSumcheckProof,
    pub point: Vec<Fr>,
    pub final_evals: Vec<Fr>,
    pub final_claim: Fr,
    pub final_blind: Fr,
    pub final_com: G1,
}

/// Whether the relation the linear prover of a round is handed holds: from
/// the transcript `state`, with the claim commitment `cc` under the blind
/// `cb`, the commitment `C_s = Com(cs; pb)` to the coefficients `cs` and the
/// commitment `C_e = Com(e; eb)`, the verifier's `r`, `w0`, `w1` are drawn,
/// and `w0 cc + w1 C_e` must be the commitment to `<cs, query>` under the
/// blind `w0 cb + w1 eb`.
pub open spec fn round_opening_holds(
    state: Seq<u8>,
    key: ZkSumcheckKey,
    cc: Seq<u8>,
    cb: nat,
    cs: Seq<Fr>,
    pb: nat,
    e: nat,
    eb: nat,
) -> bool {
    let p = fr_modulus() as int;
    let g = key.scalar.generator@;
    let h = key.scalar.blind@;
    let pc = crate::pedersen::vector_commit(
        point_views(key.coeffs.mul_bases@),
        key.coeffs.blind@,
        crate::curve::scalar_values(cs),
        pb,
    );
    let ec = scalar_commit(g, h, e, eb);
    let s1 = state + frame(poly_commitment_label(), pc);
    let r = fr_challenge(s1, round_challenge_label());
    let s2 = fr_after(s1, round_challenge_label()) + frame(claim_commitment_label(), cc) + frame(
        eval_commitment_label(),
        ec,
    );
    let w0 = fr_challenge(s2, weight_label());
    let w1 = fr_challenge(fr_after(s2, weight_label()), weight_label());
    let dot = crate::ipa::int_dot(values_of(cs), query_values(key_degree(key), r, w0, w1)) % p;
    g1_add_spec(g1_mul_spec(cc, w0), g1_mul_spec(ec, w1)) == scalar_commit(
        g,
        h,
        dot as nat,
        (((w0 * cb + w1 * eb) as int) % p) as nat,
    )
}

/// For some transcript and handed values, the relation of a round fails:
/// the only way a prover round is refused.
pub open spec fn round_relation_fails(key: ZkSumcheckKey) -> bool {
    exists|state: Seq<u8>, cc: Seq<u8>, cb: nat, cs: Seq<Fr>, pb: nat, e: nat, eb: nat|
        cs.len() == key_degree(key) + 1 && all_wf(cs) && !#[trigger] round_opening_holds(
            state,
            key,
            cc,
            cb,
            cs,
            pb,
            e,
            eb,
        )
}

/// The values `e` of an honest round on `tables` from the claim `claim`:
/// other than at `1` they are the round sums of `comb`, the values at `0`
/// and `1` add up to the claim, and `eval` is the polynomial at `r`.
pub open spec fn zk_round_values<F: Fn(&[Fr]) -> Fr>(
    comb: F,
    tables: Seq<Seq<int>>,
    degree: nat,
    claim: int,
    r: int,
    eval: int,
    e: Seq<int>,
) -> bool {
    let p = fr_modulus() as int;
    &&& e.len() == degree + 1
    &&& forall|t: int|
        0 <= t < e.len() && t != 1 ==> #[trigger] round_value::<Bls12381FrConfig, 4, F>(comb, tables, t, e[t])
    &&& (e[0] + e[1]) % p == claim
    &&& eval == poly_value(round_coeffs::<Bls12381FrConfig, 4>(e), r) % p
}

/// The claim before round `k`: the initial claim, then each round
/// polynomial at its challenge.
pub open spec fn zk_claim_before(rounds: Seq<Seq<int>>, claim: int, r: Seq<int>, k: int) -> int {
    if k == 0 {
        claim
    } else {
        poly_value(round_coeffs::<Bls12381FrConfig, 4>(rounds[k - 1]), r[k - 1]) % (fr_modulus() as int)
    }
}

/// The rounds of an honest run from `claim` with the challenges `r`, ending
/// in `final_claim`: each round is honest on the tables folded at the
/// challenges before it.
pub open spec fn zk_rounds_hold<F: Fn(&[Fr]) -> Fr>(
    key: ZkSumcheckKey,
    comb: F,
    polys: Seq<DenseMultilinearPoly<Bls12381FrConfig, 4>>,
    claim: int,
    r: Seq<int>,
    rounds: Seq<Seq<int>>,
    final_claim: int,
) -> bool {
    &&& rounds.len() == r.len()
    &&& forall|k: int|
        0 <= k < rounds.len() ==> #[trigger] zk_round_values(
            comb,
            tables_at(polys, r.take(k)),
            key_degree(key),
            zk_claim_before(rounds, claim, r, k),
            r[k],
            zk_claim_before(rounds, claim, r, k + 1),
            rounds[k],
        )
    &&& final_claim == zk_claim_before(rounds, claim, r, rounds.len() as int)
}

/// `com` commits with blind `b` to the coefficients `cs` of the round
/// polynomial with values `e` at `0..=degree`, whose values other than at
/// `1` are the round sums of `comb` on `tables`.
pub open spec fn round_poly_com_at<F: Fn(&[Fr]) -> Fr>(
    key: ZkSumcheckKey,
    comb: F,
    tables: Seq<Seq<int>>,
    com: Seq<u8>,
    e: Seq<int>,
    cs: Seq<Fr>,
    b: nat,
) -> bool {
    &&& e.len() == key_degree(key) + 1
    &&& forall|t: int|
        0 <= t < e.len() && t != 1 ==> #[trigger] round_value::<Bls12381FrConfig, 4, F>(comb, tables, t, e[t])
    &&& all_wf(cs)
    &&& values_of(cs) == round_coeffs::<Bls12381FrConfig, 4>(e)
    &&& b < fr_modulus()
    &&& com == vector_commit(point_views(key.coeffs.mul_bases@), key.coeffs.blind@, scalar_values(cs), b)
}

/// `com` commits to the round polynomial of `comb` on `tables`.
pub open spec fn round_poly_committed<F: Fn(&[Fr]) -> Fr>(
    key: ZkSumcheckKey,
    comb: F,
    tables: Seq<Seq<int>>,
    com: Seq<u8>,
) -> bool {
    exists|e: Seq<int>, cs: Seq<Fr>, b: nat| #[trigger] round_poly_com_at(key, comb, tables, com, e, cs, b)
}

/// One prover round: commits to the coefficients of the round polynomial
/// and to its value at the challenge, then proves the combined relation.
/// Returns `(C_s, C_e, proof, r_i, e_i, blind of C_e)`, or `None` where the
/// linear prover refuses the statement.
fn prove_round<F: Fn(&[Fr]) -> Fr>(
    key: &ZkSumcheckKey,
    degree: usize,
    polys: &[DenseMultilinearPoly<Bls12381FrConfig, 4>],
    claim: Fr,
    claim_blind: Fr,
    claim_com: &G1,
    comb: &F,
    transcript: &mut Transcript,
    rng: &mut ark_std::rand::rngs::StdRng,
) -> (res: Option<(G1, G1, LinearInnerProductProof, Fr, Fr, Fr)>)
    requires
        key_wf(*key),
        degree == key_degree(*key),
        1 <= degree < usize::MAX,
        nodes_invertible((degree + 1) as nat, pm::<Bls12381FrConfig, 4>()),
        polys.len() > 0,
        forall|i: int| 0 <= i < polys.len() ==> (#[trigger] polys[i]).mle_wf(),
        forall|i: int|
            0 <= i < polys.len() ==> (#[trigger] polys[i]).spec_vars() == polys[0].spec_vars(),
        polys[0].spec_vars() > 0,
        claim.wf(),
        claim_blind.wf(),
        forall|v: &[Fr]| #[trigger] comb.requires((v,)),
        forall|v: &[Fr], out: Fr| #[trigger] comb.ensures((v,), out) ==> out.wf(),
    ensures
        res matches Some((poly_com, eval_com, proof, r, eval, eval_blind)) ==> {
            &&& proof.proof_wf()
            &&& r.wf()
            &&& eval.wf()
            &&& eval_blind.wf()
            &&& eval_com@ == scalar_commit(
                key.scalar.generator@,
                key.scalar.blind@,
                eval.value(),
                eval_blind.value(),
            )
            &&& round_poly_committed(*key, *comb, tables_of(polys@), poly_com@)
            &&& exists|e: Seq<int>|
                #[trigger] zk_round_values(
                    *comb,
                    tables_of(polys@),
                    key_degree(*key),
                    fv(claim),
                    fv(r),
                    fv(eval),
                    e,
                )
            &&& r.value() == zk_round(
                old(transcript).absorbed(),
                claim_com@,
                poly_com@,
                eval_com@,
                proof,
                *key,
            ).1
            &&& final(transcript).absorbed() == zk_round(
                old(transcript).absorbed(),
                claim_com@,
                poly_com@,
                eval_com@,
                proof,
                *key,
            ).2
        },
        res is None ==> exists|cs: Seq<Fr>, pb: nat, e: nat, eb: nat|
            cs.len() == degree + 1 && all_wf(cs) && !#[trigger] round_opening_holds(
                old(transcript).absorbed(),
                *key,
                claim_com@,
                claim_blind.value(),
                cs,
                pb,
                e,
                eb,
            ),
{
    let ghost s0 = transcript.absorbed();
    let poly = SumcheckProof::<Bls12381FrConfig, 4>::round_polynomial(polys, claim, degree, comb);
    let coeffs = poly.to_coeffs();
    let cs = coeffs.coeffs();
    let poly_blind = random_scalar(rng);
    let poly_com = key.coeffs.commit(cs, &poly_blind);
    proof {
        poly_blind.lemma_value_bound();
        lemma_fr_modulus();
        assert(round_poly_com_at(
            *key,
            *comb,
            tables_of(polys@),
            poly_com@,
            values_of(poly.spec_evals()),
            cs@,
            poly_blind.value(),
        ));
    }
    transcript.append_point("zk-sumcheck-poly-commitment".as_bytes(), &poly_com);
    let r_i = transcript.challenge_field::<Bls12381FrConfig, 4>("zk-sumcheck-challenge".as_bytes());
    let eval = coeffs.eval(r_i);
    proof {
        let e = values_of(poly.spec_evals());
        let p = fr_modulus() as int;
        lemma_fr_modulus();
        lemma_reduced(claim);
        lemma_reduced(poly.spec_evals()[0]);
        lemma_add_cong(e[0], e[1], e[0], fv(claim) - e[0], p);
        assert(zk_round_values(*comb, tables_of(polys@), key_degree(*key), fv(claim), fv(r_i), fv(eval), e));
    }
    let eval_blind = random_scalar(rng);
    let eval_com = key.scalar.commit(&eval, &eval_blind);
    transcript.append_point("zk-sumcheck-claim-commitment".as_bytes(), claim_com);
    transcript.append_point("zk-sumcheck-eval-commitment".as_bytes(), &eval_com);
    let w0 = transcript.challenge_field::<Bls12381FrConfig, 4>("zk-sumcheck-weight".as_bytes());
    let w1 = transcript.challenge_field::<Bls12381FrConfig, 4>("zk-sumcheck-weight".as_bytes());
    let target_blind = w0.mul(claim_blind).add(w1.mul(eval_blind));
    let target_com = claim_com.mul_scalar(&w0).add_point(&eval_com.mul_scalar(&w1));
    let query = combined_query(degree, r_i, w0, w1);
    let proved = LinearInnerProductProof::try_prove(
        &key.coeffs,
        &key.scalar,
        &poly_com,
        &target_com,
        cs,
        &poly_blind,
        query.as_slice(),
        &target_blind,
        transcript,
        rng,
    );
    match proved {
        Some(proof) => {
            proof {
                reveal(zk_round);
            }
            Some((poly_com, eval_com, proof, r_i, eval, eval_blind))
        },
        None => {
            proof {
                let p = fr_modulus() as int;
                lemma_fr_modulus();
                crate::ipa::lemma_dot_values(cs@, query@);
                lemma_reduced(w0);
                lemma_reduced(w1);
                lemma_mod_twice(fv(w0) * fv(claim_blind), p);
                lemma_mod_twice(fv(w1) * fv(eval_blind), p);
                lemma_add_cong(
                    (fv(w0) * fv(claim_blind)) % p,
                    (fv(w1) * fv(eval_blind)) % p,
                    fv(w0) * fv(claim_blind),
                    fv(w1) * fv(eval_blind),
                    p,
                );
                assert(!round_opening_holds(
                    s0,
                    *key,
                    claim_com@,
                    claim_blind.value(),
                    cs@,
                    poly_blind.value(),
                    eval.value(),
                    eval_blind.value(),
                ));
            }
            None
        },
    }
}

impl ZkSumcheckProof {
    /// Proves `sum_x comb(p_0(x), ..., p_{k-1}(x)) = claim` from the
    /// commitment `Com(claim; claim_blind)`, one round per variable, with the
    /// round polynomials of the plain sum-check cut to `key.degree()`.
    ///
    /// On the same transcript, a verifier that accepts the proof draws the
    /// challenges of `point` and ends in the same transcript. The final
    /// commitment opens to `(final_claim, final_blind)` and is the last eval
    /// commitment, or the initial one when there is no variable. `None` comes
    /// only where a linear prover refuses its statement, which the curve
    /// operations decide. Not defined on no factor, factors of
    /// different sizes or a zero degree.
    pub fn prove<F: Fn(&[Fr]) -> Fr>(
        key: &ZkSumcheckKey,
        polys: Vec<DenseMultilinearPoly<Bls12381FrConfig, 4>>,
        claim: Fr,
        claim_blind: Fr,
        comb: F,
        transcript: &mut Transcript,
        rng: &mut ark_std::rand::rngs::StdRng,
    ) -> (out: Option<ZkSumcheckOutput>)
        requires
            key_wf(*key),
            1 <= key_degree(*key),
            nodes_invertible((key_degree(*key) + 1) as nat, pm::<Bls12381FrConfig, 4>()),
            polys.len() > 0,
            forall|i: int| 0 <= i < polys.len() ==> (#[trigger] polys[i]).mle_wf(),
            forall|i: int|
                0 <= i < polys.len() ==> (#[trigger] polys[i]).spec_vars() == polys[0].spec_vars(),
            claim.wf(),
            claim_blind.wf(),
            forall|v: &[Fr]| #[trigger] comb.requires((v,)),
            forall|v: &[Fr], out: Fr| #[trigger] comb.ensures((v,), out) ==> out.wf(),
        ensures
            out matches Some(o) ==> {
                let claim_com = scalar_commit(
                    key.scalar.generator@,
                    key.scalar.blind@,
                    claim.value(),
                    claim_blind.value(),
                );
                let v = o.proof.verify_spec(*key, claim_com, old(transcript).absorbed());
                &&& o.proof.shape_ok()
                &&& o.proof.proof_wf()
                &&& o.proof.poly_coms.len() == polys[0].spec_vars()
                &&& forall|k: int|
                    0 <= k < o.proof.poly_coms.len() ==> #[trigger] round_poly_committed(
                        *key,
                        comb,
                        tables_at(polys@, values_of(o.point@).take(k)),
                        point_views(o.proof.poly_coms@)[k],
                    )
                &&& o.point.len() == polys[0].spec_vars()
                &&& exists|rounds: Seq<Seq<int>>|
                    #[trigger] zk_rounds_hold(
                        *key,
                        comb,
                        polys@,
                        fv(claim),
                        values_of(o.point@),
                        rounds,
                        fv(o.final_claim),
                    )
                &&& all_wf(o.point@)
                &&& v.0 ==> values_of(o.point@) == v.1 && final(transcript).absorbed() == v.2
                &&& o.final_evals.len() == polys.len()
                &&& all_wf(o.final_evals@)
                &&& forall|m: int|
                    0 <= m < polys.len() ==> fv(#[trigger] o.final_evals@[m]) == fold_all(
                        polys[m].spec_table(),
                        values_of(o.point@),
                        pm::<Bls12381FrConfig, 4>(),
                    )[0]
                &&& o.final_claim.wf()
                &&& o.final_blind.wf()
                &&& o.final_com@ == scalar_commit(
                    key.scalar.generator@,
                    key.scalar.blind@,
                    o.final_claim.value(),
                    o.final_blind.value(),
                )
                &&& o.final_com@ == final_claim_com(claim_com, point_views(o.proof.eval_coms@))
                &&& polys[0].spec_vars() == 0 ==> o.final_claim == claim && o.final_blind
                    == claim_blind
            },
            out is None ==> round_relation_fails(*key),
    {
        let degree = key.degree();
        let num_rounds = SumcheckProof::<Bls12381FrConfig, 4>::assert_shape(polys.as_slice(), degree);
        let ghost s0 = transcript.absorbed();
        let ghost orig = polys@;
        let ghost vars0 = polys[0].spec_vars();
        let ghost claim0 = fv(claim);
        let claim_com0 = key.scalar.commit(&claim, &claim_blind);
        let ghost cc0 = claim_com0@;
        let mut polys = polys;
        let mut claim_now = claim;
        let mut blind_now = claim_blind;
        let mut claim_com = claim_com0;
        let mut poly_coms: Vec<G1> = Vec::new();
        let mut eval_coms: Vec<G1> = Vec::new();
        let mut proofs: Vec<LinearInnerProductProof> = Vec::new();
        let mut r: Vec<Fr> = Vec::new();
        let mut round: usize = 0;
        let ghost mut rounds_acc: Seq<Seq<int>> = Seq::empty();
        proof {
            assert(values_of(r@) =~= Seq::<int>::empty());
        }
        while round < num_rounds
            invariant
                num_rounds == vars0,
                round <= num_rounds,
                s0 == old(transcript).absorbed(),
                key_wf(*key),
                degree == key_degree(*key),
                1 <= degree < usize::MAX,
                nodes_invertible((degree + 1) as nat, pm::<Bls12381FrConfig, 4>()),
                cc0 == scalar_commit(
                    key.scalar.generator@,
                    key.scalar.blind@,
                    claim.value(),
                    claim_blind.value(),
                ),
                polys.len() == orig.len(),
                orig.len() > 0,
                forall|m: int| 0 <= m < polys.len() ==> (#[trigger] polys@[m]).mle_wf(),
                forall|m: int|
                    0 <= m < polys.len() ==> (#[trigger] polys@[m]).spec_vars() == vars0 - round,
                forall|m: int|
                    0 <= m < polys.len() ==> (#[trigger] polys@[m]).spec_table() == fold_all(
                        orig[m].spec_table(),
                        values_of(r@),
                        pm::<Bls12381FrConfig, 4>(),
                    ),
                claim_now.wf(),
                blind_now.wf(),
                round == 0 ==> claim_now == claim && blind_now == claim_blind,
                claim_com@ == scalar_commit(
                    key.scalar.generator@,
                    key.scalar.blind@,
                    claim_now.value(),
                    blind_now.value(),
                ),
                claim_com@ == round_claim_com(cc0, point_views(eval_coms@), round as nat),
                poly_coms.len() == round,
                eval_coms.len() == round,
                proofs.len() == round,
                r.len() == round,
                all_wf(r@),
                forall|i: int| 0 <= i < proofs.len() ==> (#[trigger] proofs@[i]).proof_wf(),
                rounds_acc.len() == round,
                fv(claim_now) == zk_claim_before(rounds_acc, fv(claim), values_of(r@), round as int),
                forall|kk: int|
                    0 <= kk < round ==> #[trigger] zk_round_values(
                        comb,
                        tables_at(orig, values_of(r@).take(kk)),
                        key_degree(*key),
                        zk_claim_before(rounds_acc, fv(claim), values_of(r@), kk),
                        values_of(r@)[kk],
                        zk_claim_before(rounds_acc, fv(claim), values_of(r@), kk + 1),
                        rounds_acc[kk],
                    ),
                forall|kk: int|
                    0 <= kk < round ==> #[trigger] round_poly_committed(
                        *key,
                        comb,
                        tables_at(orig, values_of(r@).take(kk)),
                        point_views(poly_coms@)[kk],
                    ),
                zk_rounds(
                    s0,
                    cc0,
                    point_views(poly_coms@),
                    point_views(eval_coms@),
                    proofs@,
                    *key,
                    round as nat,
                ).0 ==> values_of(r@) == zk_rounds(
                    s0,
                    cc0,
                    point_views(poly_coms@),
                    point_views(eval_coms@),
                    proofs@,
                    *key,
                    round as nat,
                ).1 && transcript.absorbed() == zk_rounds(
                    s0,
                    cc0,
                    point_views(poly_coms@),
                    point_views(eval_coms@),
                    proofs@,
                    *key,
                    round as nat,
                ).2,
                forall|v: &[Fr]| #[trigger] comb.requires((v,)),
                forall|v: &[Fr], out: Fr| #[trigger] comb.ensures((v,), out) ==> out.wf(),
            decreases num_rounds - round,
        {
            proof {
                assert(polys@[0].spec_vars() == vars0 - round);
                assert forall|m: int| 0 <= m < polys.len() implies (#[trigger] polys@[m]).spec_vars()
                    == polys@[0].spec_vars() by {}
            }
            let ghost prev_state = transcript.absorbed();
            proof {
                assert(tables_of(polys@) =~= tables_at(orig, values_of(r@)));
            }
            let step = prove_round(
                key,
                degree,
                polys.as_slice(),
                claim_now,
                blind_now,
                &claim_com,
                &comb,
                transcript,
                rng,
            );
            let (poly_com, eval_com, pr, r_i, eval, eval_blind) = match step {
                Some(t) => t,
                None => {
                    return None;
                },
            };
            let ghost e_new = choose|e: Seq<int>|
                #[trigger] zk_round_values(
                    comb,
                    tables_of(polys@),
                    key_degree(*key),
                    fv(claim_now),
                    fv(r_i),
                    fv(eval),
                    e,
                );
            let ghost prev_rounds_acc = rounds_acc;
            let next = fold_each(polys, r_i);
            polys = next;
            let ghost prev_pcs = point_views(poly_coms@);
            let ghost prev_ecs = point_views(eval_coms@);
            let ghost prev_proofs = proofs@;
            let ghost prev_r = r@;
            poly_coms.push(poly_com);
            eval_coms.push(eval_com);
            proofs.push(pr);
            r.push(r_i);
            proof {
                let k = round as nat;
                let pcs = point_views(poly_coms@);
                let ecs = point_views(eval_coms@);
                assert(pcs[k as int] == poly_com@);
                assert(ecs[k as int] == eval_com@);
                assert(proofs@[k as int] == pr);
                lemma_rounds_prefix(
                    s0,
                    cc0,
                    pcs,
                    ecs,
                    proofs@,
                    prev_pcs,
                    prev_ecs,
                    prev_proofs,
                    *key,
                    k,
                );
                assert(round_claim_com(cc0, ecs, k) == round_claim_com(cc0, prev_ecs, k));
                assert(values_of(r@) =~= values_of(prev_r).push(r_i.value() as int));
                assert(values_of(r@).drop_last() =~= values_of(prev_r));
                assert(round_claim_com(cc0, ecs, k + 1) == eval_com@);
                assert forall|m: int| 0 <= m < polys.len() implies (#[trigger] polys@[m]).spec_table()
                    == fold_all(orig[m].spec_table(), values_of(r@), pm::<Bls12381FrConfig, 4>()) by {
                }
                rounds_acc = rounds_acc.push(e_new);
                let vr = values_of(r@);
                let pvr = values_of(prev_r);
                assert forall|kk: int| 0 <= kk <= round + 1 implies zk_claim_before(rounds_acc, fv(claim), vr, kk)
                    == #[trigger] zk_claim_before(prev_rounds_acc, fv(claim), pvr, kk) || kk == round + 1 by {
                    if 0 < kk <= round {
                        assert(rounds_acc[kk - 1] == prev_rounds_acc[kk - 1]);
                        assert(vr[kk - 1] == pvr[kk - 1]);
                    }
                }
                assert(zk_claim_before(rounds_acc, fv(claim), vr, round + 1) == fv(eval)) by {
                    assert(rounds_acc[round as int] == e_new);
                    assert(vr[round as int] == fv(r_i));
                }
                assert forall|kk: int| 0 <= kk < round + 1 implies #[trigger] zk_round_values(
                    comb,
                    tables_at(orig, vr.take(kk)),
                    key_degree(*key),
                    zk_claim_before(rounds_acc, fv(claim), vr, kk),
                    vr[kk],
                    zk_claim_before(rounds_acc, fv(claim), vr, kk + 1),
                    rounds_acc[kk],
                ) by {
                    assert(zk_claim_before(rounds_acc, fv(claim), vr, kk) == zk_claim_before(
                        prev_rounds_acc,
                        fv(claim),
                        pvr,
                        kk,
                    ));
                    if kk < round {
                        assert(vr.take(kk) =~= pvr.take(kk));
                        assert(rounds_acc[kk] == prev_rounds_acc[kk]);
                        assert(vr[kk] == pvr[kk]);
                        assert(zk_claim_before(rounds_acc, fv(claim), vr, kk + 1) == zk_claim_before(
                            prev_rounds_acc,
                            fv(claim),
                            pvr,
                            kk + 1,
                        ));
                    } else {
                        assert(vr.take(kk) =~= pvr);
                        assert(rounds_acc[kk] == e_new);
                        assert(vr[kk] == fv(r_i));
                    }
                }
                assert forall|kk: int| 0 <= kk < round + 1 implies #[trigger] round_poly_committed(
                    *key,
                    comb,
                    tables_at(orig, values_of(r@).take(kk)),
                    pcs[kk],
                ) by {
                    if kk < round {
                        assert(values_of(r@).take(kk) =~= values_of(prev_r).take(kk));
                        assert(pcs[kk] == prev_pcs[kk]);
                    } else {
                        assert(values_of(r@).take(kk) =~= values_of(prev_r));
                    }
                }
            }
            claim_now = eval;
            blind_now = eval_blind;
            claim_com = eval_com;
            round = round + 1;
        }
        let mut final_evals: Vec<Fr> = Vec::new();
        let mut m: usize = 0;
        while m < polys.len()
            invariant
                m <= polys.len(),
                polys.len() == orig.len(),
                forall|k: int| 0 <= k < polys.len() ==> (#[trigger] polys@[k]).mle_wf(),
                forall|k: int| 0 <= k < polys.len() ==> (#[trigger] polys@[k]).spec_vars() == 0,
                final_evals.len() == m,
                all_wf(final_evals@),
                forall|k: int|
                    0 <= k < m ==> fv(#[trigger] final_evals@[k]) == polys@[k].spec_table()[0],
            decreases polys.len() - m,
        {
            let v = polys[m].final_constant();
            final_evals.push(v);
            m = m + 1;
        }
        let ghost rv = values_of(r@);
        let ghost fc = fv(claim_now);
        let result = ZkSumcheckOutput {
            proof: ZkSumcheckProof { poly_coms, eval_coms, proofs },
            point: r,
            final_evals,
            final_claim: claim_now,
            final_blind: blind_now,
            final_com: claim_com,
        };
        proof {
            assert(rv == values_of(result.point@));
            assert(fc == fv(result.final_claim));
            assert(claim0 == fv(claim));
            assert(zk_rounds_hold(*key, comb, orig, claim0, rv, rounds_acc, fc));
        }
        Some(result)
    }
}

} // verus!
