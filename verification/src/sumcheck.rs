//! The sum-check protocol for `sum_x comb(p_0(x), ..., p_{k-1}(x))` over the
//! Boolean hypercube, made non-interactive with a transcript.
//!
//! Round `i` sends the round polynomial `s_i` by its values at `0..=degree`.
//! The verifier checks `s_i(0) + s_i(1)` against the running claim, absorbs
//! the coefficients of `s_i`, draws the challenge `r_i` and continues with the
//! claim `s_i(r_i)`.

use crate::ff::{Fp, FpConfig};
use crate::helpers::{all_wf, fv, lemma_add_cong, lemma_mul_cong, lemma_pm_pos, lemma_reduced, pm};
use crate::mle::{fold_all, fold_values, DenseMultilinearPoly, MultilinearPoly};
use crate::transcript::{after_challenge, challenge_value, frame, value_list_bytes, Transcript};
use crate::uni_poly::{
    lagrange_coeffs, lemma_lagrange_at_node, lemma_lagrange_coeffs_value,
    node_denominator, nodes_invertible, poly_value, values_of, inv_value, EvalsUniPoly, UniPoly,
};
use vstd::arithmetic::div_mod::*;
use vstd::arithmetic::power2::*;
use vstd::prelude::*;

verus! {

/// The label under which round polynomials are absorbed.
pub open spec fn round_poly_label() -> Seq<u8> {
    seq![114u8, 111u8, 117u8, 110u8, 100u8, 95u8, 112u8, 111u8, 108u8, 121u8]
}

/// The label under which round challenges are drawn.
pub open spec fn challenge_r_label() -> Seq<u8> {
    seq![99u8, 104u8, 97u8, 108u8, 108u8, 101u8, 110u8, 103u8, 101u8, 95u8, 114u8]
}

fn round_poly_label_bytes() -> (r: [u8; 10])
    ensures
        r@ == round_poly_label(),
{
    let r: [u8; 10] = [114u8, 111u8, 117u8, 110u8, 100u8, 95u8, 112u8, 111u8, 108u8, 121u8];
    proof {
        assert(r@ =~= round_poly_label());
    }
    r
}

fn challenge_r_label_bytes() -> (r: [u8; 11])
    ensures
        r@ == challenge_r_label(),
{
    let r: [u8; 11] = [99u8, 104u8, 97u8, 108u8, 108u8, 101u8, 110u8, 103u8, 101u8, 95u8, 114u8];
    proof {
        assert(r@ =~= challenge_r_label());
    }
    r
}

/// The coefficients of the round polynomial with values `e` at `0, 1, ...`.
pub open spec fn round_coeffs<C: FpConfig<N>, const N: usize>(e: Seq<int>) -> Seq<int> {
    lagrange_coeffs(e, pm::<C, N>())
}

/// The transcript after absorbing the round polynomial.
pub open spec fn round_absorbed<C: FpConfig<N>, const N: usize>(e: Seq<int>, state: Seq<u8>) -> Seq<u8> {
    state + frame(round_poly_label(), value_list_bytes::<C, N>(round_coeffs::<C, N>(e)))
}

/// The challenge of a round.
pub open spec fn round_challenge<C: FpConfig<N>, const N: usize>(e: Seq<int>, state: Seq<u8>) -> int {
    challenge_value::<C, N>(round_absorbed::<C, N>(e, state), challenge_r_label())
}

/// The transcript after a round.
pub open spec fn round_after<C: FpConfig<N>, const N: usize>(e: Seq<int>, state: Seq<u8>) -> Seq<u8> {
    after_challenge::<C, N>(round_absorbed::<C, N>(e, state), challenge_r_label())
}

/// The claim after a round: the round polynomial at the challenge.
pub open spec fn round_claim<C: FpConfig<N>, const N: usize>(e: Seq<int>, state: Seq<u8>) -> int {
    poly_value(round_coeffs::<C, N>(e), round_challenge::<C, N>(e, state)) % pm::<C, N>()
}

/// The verifier's check of a round against the claim `h`.
pub open spec fn round_ok<C: FpConfig<N>, const N: usize>(e: Seq<int>, h: int, degree: nat) -> bool {
    let p = pm::<C, N>();
    let c = round_coeffs::<C, N>(e);
    &&& e.len() <= degree + 1
    &&& (poly_value(c, 1) % p + poly_value(c, 0) % p) % p == h
}

/// The claims, challenges and transcript along the rounds, without checks:
/// `(final claim, challenges, transcript)`.
pub open spec fn replay_rounds<C: FpConfig<N>, const N: usize>(
    rounds: Seq<Seq<int>>,
    h: int,
    state: Seq<u8>,
) -> (int, Seq<int>, Seq<u8>)
    decreases rounds.len(),
{
    if rounds.len() == 0 {
        (h, Seq::empty(), state)
    } else {
        let prev = replay_rounds::<C, N>(rounds.drop_last(), h, state);
        let e = rounds.last();
        (
            round_claim::<C, N>(e, prev.2),
            prev.1.push(round_challenge::<C, N>(e, prev.2)),
            round_after::<C, N>(e, prev.2),
        )
    }
}

/// What the verifier computes: `(accepted, final claim, challenges, transcript)`.
/// After a failed round nothing more is absorbed.
pub open spec fn verify_rounds<C: FpConfig<N>, const N: usize>(
    rounds: Seq<Seq<int>>,
    h: int,
    degree: nat,
    state: Seq<u8>,
) -> (bool, int, Seq<int>, Seq<u8>)
    decreases rounds.len(),
{
    if rounds.len() == 0 {
        (true, h, Seq::empty(), state)
    } else {
        let prev = verify_rounds::<C, N>(rounds.drop_last(), h, degree, state);
        let e = rounds.last();
        if !prev.0 {
            prev
        } else if !round_ok::<C, N>(e, prev.1, degree) {
            (false, prev.1, prev.2, prev.3)
        } else {
            (
                true,
                round_claim::<C, N>(e, prev.3),
                prev.2.push(round_challenge::<C, N>(e, prev.3)),
                round_after::<C, N>(e, prev.3),
            )
        }
    }
}

/// Each round's values at `0` and `1` add up to the running claim.
pub open spec fn honest_rounds<C: FpConfig<N>, const N: usize>(
    rounds: Seq<Seq<int>>,
    h: int,
    state: Seq<u8>,
) -> bool
    decreases rounds.len(),
{
    if rounds.len() == 0 {
        true
    } else {
        let prev = replay_rounds::<C, N>(rounds.drop_last(), h, state);
        let e = rounds.last();
        &&& honest_rounds::<C, N>(rounds.drop_last(), h, state)
        &&& e.len() >= 2
        &&& (e[0] + e[1]) % pm::<C, N>() == prev.0
    }
}

/// Every node of `0..n` satisfies `inv(d_k) * d_k = 1` modulo `p`: the
/// computed inverses are true inverses (so when `p` is prime).
pub open spec fn nodes_exact(n: nat, p: int) -> bool {
    forall|k: int|
        0 <= k < n ==> #[trigger] ((inv_value(node_denominator(k, n), p) * node_denominator(k, n))
            % p) == 1
}

/// The value of `e`'s interpolant at a node `k` is `e[k]` when the node is exact.
proof fn lemma_exact_node_value(e: Seq<int>, k: int, p: int)
    requires
        p > 1,
        0 <= k < e.len(),
        nodes_exact(e.len(), p),
    ensures
        poly_value(lagrange_coeffs(e, p), k) % p == e[k] % p,
{
    let n = e.len();
    let d = node_denominator(k, n);
    let iv = inv_value(d, p);
    lemma_lagrange_coeffs_value(e, p, k);
    lemma_lagrange_at_node(e, k, p);
    assert((iv * d) % p == 1);
    vstd::arithmetic::mul::lemma_mul_is_associative(e[k], iv, d);
    lemma_mod_twice(iv * d, p);
    lemma_small_mod(1, p as nat);
    lemma_mul_cong(e[k], iv * d, e[k], 1, p);
}

/// Completeness of the verifier: rounds whose values at `0` and `1` add up to
/// the running claims, sent with the protocol's degree, are accepted, and the
/// verifier replays the prover's claims, challenges and transcript. This needs
/// the computed inverses of the interpolation denominators to be true
/// inverses, which holds when `p` is prime.
pub proof fn lemma_honest_rounds_verify<C: FpConfig<N>, const N: usize>(
    rounds: Seq<Seq<int>>,
    h: int,
    degree: nat,
    state: Seq<u8>,
)
    requires
        honest_rounds::<C, N>(rounds, h, state),
        forall|i: int| 0 <= i < rounds.len() ==> (#[trigger] rounds[i]).len() == degree + 1,
        nodes_exact(degree + 1, pm::<C, N>()),
        0 <= h < pm::<C, N>(),
    ensures
        verify_rounds::<C, N>(rounds, h, degree, state) == ({
            let r = replay_rounds::<C, N>(rounds, h, state);
            (true, r.0, r.1, r.2)
        }),
    decreases rounds.len(),
{
    lemma_pm_pos::<C, N>();
    if rounds.len() > 0 {
        let prefix = rounds.drop_last();
        assert forall|i: int| 0 <= i < prefix.len() implies (#[trigger] prefix[i]).len() == degree
            + 1 by {
            assert(rounds[i].len() == degree + 1);
        }
        lemma_honest_rounds_verify::<C, N>(prefix, h, degree, state);
        let prev = replay_rounds::<C, N>(prefix, h, state);
        let e = rounds.last();
        let p = pm::<C, N>();
        assert(rounds[rounds.len() - 1].len() == degree + 1);
        lemma_exact_node_value(e, 0, p);
        lemma_exact_node_value(e, 1, p);
        let c = round_coeffs::<C, N>(e);
        lemma_mod_twice(poly_value(c, 1), p);
        lemma_mod_twice(poly_value(c, 0), p);
        lemma_add_cong(poly_value(c, 1) % p, poly_value(c, 0) % p, e[1], e[0], p);
        assert(0 <= prev.0 < p) by {
            if prefix.len() == 0 {
            } else {
                lemma_mod_bound(
                    poly_value(
                        round_coeffs::<C, N>(prefix.last()),
                        round_challenge::<C, N>(
                            prefix.last(),
                            replay_rounds::<C, N>(prefix.drop_last(), h, state).2,
                        ),
                    ),
                    p,
                );
            }
        }
        lemma_small_mod(prev.0 as nat, p as nat);
    }
}

/// What an accepting verifier has checked: every round polynomial, by its
/// coefficients, has at most the protocol's degree and its values at `0`
/// and `1` add up, modulo `p`, to the running claim, which starts at the
/// claimed sum `h` and continues with each round polynomial at its
/// challenge. Accepting follows the prover's claims, challenges and
/// transcript.
pub proof fn lemma_verify_accepts_only_consistent_rounds<C: FpConfig<N>, const N: usize>(
    rounds: Seq<Seq<int>>,
    h: int,
    degree: nat,
    state: Seq<u8>,
)
    requires
        verify_rounds::<C, N>(rounds, h, degree, state).0,
    ensures
        ({
            let v = verify_rounds::<C, N>(rounds, h, degree, state);
            let r = replay_rounds::<C, N>(rounds, h, state);
            &&& v.1 == r.0 && v.2 == r.1 && v.3 == r.2
            &&& v.2.len() == rounds.len()
            &&& rounds.len() > 0 ==> v.1 == poly_value(round_coeffs::<C, N>(rounds.last()), v.2.last())
                % pm::<C, N>()
        }),
        forall|k: int|
            0 <= k < rounds.len() ==> (#[trigger] rounds[k]).len() <= degree + 1 && (poly_value(
                round_coeffs::<C, N>(rounds[k]),
                0,
            ) + poly_value(round_coeffs::<C, N>(rounds[k]), 1)) % pm::<C, N>() == replay_rounds::<C, N>(
                rounds.take(k),
                h,
                state,
            ).0,
    decreases rounds.len(),
{
    lemma_pm_pos::<C, N>();
    if rounds.len() > 0 {
        let n = rounds.len() - 1;
        let prefix = rounds.drop_last();
        lemma_verify_accepts_only_consistent_rounds::<C, N>(prefix, h, degree, state);
        let e = rounds.last();
        let c = round_coeffs::<C, N>(e);
        lemma_add_mod_noop(poly_value(c, 0), poly_value(c, 1), pm::<C, N>());
        assert forall|k: int| 0 <= k < rounds.len() implies (#[trigger] rounds[k]).len() <= degree + 1 && (
        poly_value(round_coeffs::<C, N>(rounds[k]), 0) + poly_value(round_coeffs::<C, N>(rounds[k]), 1))
            % pm::<C, N>() == replay_rounds::<C, N>(rounds.take(k), h, state).0 by {
            if k < n {
                assert(rounds.take(k) =~= prefix.take(k));
                assert(rounds[k] == prefix[k]);
            } else {
                assert(rounds.take(k) =~= prefix);
            }
        }
    }
}

/// A sum-check proof: the round polynomials by their values.
pub struct SumcheckProof<C: FpConfig<N>, const N: usize> {
    polys: Vec<EvalsUniPoly<C, N>>,
}

/// What `prove` returns: the proof, the challenge point and the factors'
/// values at that point.
pub struct SumcheckOutput<C: FpConfig<N>, const N: usize> {
    pub proof: SumcheckProof<C, N>,
    pub point: Vec<Fp<C, N>>,
    pub final_evals: Vec<Fp<C, N>>,
}

/// The values of each round polynomial.
pub open spec fn rounds_of<C: FpConfig<N>, const N: usize>(polys: Seq<EvalsUniPoly<C, N>>) -> Seq<
    Seq<int>,
> {
    polys.map_values(|q: EvalsUniPoly<C, N>| values_of(q.spec_evals()))
}

/// Whether two reduced elements have the same value.
pub fn fp_eq<C: FpConfig<N>, const N: usize>(a: Fp<C, N>, b: Fp<C, N>) -> (r: bool)
    requires
        a.wf(),
        b.wf(),
    ensures
        r == (fv(a) == fv(b)),
{
    let r = a == b;
    proof {
        if fv(a) == fv(b) {
            Fp::<C, N>::lemma_value_determines(a, b);
        }
        if r {
            Fp::<C, N>::lemma_raw_determines(a, b);
        }
    }
    r
}

/// `s[0] + s[1] + ...` over the integers.
pub open spec fn int_sum(s: Seq<int>) -> int
    decreases s.len(),
{
    if s.len() == 0 {
        0
    } else {
        int_sum(s.drop_last()) + s.last()
    }
}

/// The tables of the factors.
pub open spec fn tables_of<C: FpConfig<N>, const N: usize>(polys: Seq<DenseMultilinearPoly<C, N>>) -> Seq<
    Seq<int>,
> {
    polys.map_values(|q: DenseMultilinearPoly<C, N>| q.spec_table())
}

/// The factors' values at `(t, x')` for the `i`-th `x'`: each table's pair
/// `(e[2i], e[2i + 1])` on the line through them, at `t`, modulo `p`.
pub open spec fn round_point(tables: Seq<Seq<int>>, i: int, t: int, p: int) -> Seq<int> {
    Seq::new(
        tables.len(),
        |j: int| (tables[j][2 * i] + t * (tables[j][2 * i + 1] - tables[j][2 * i])) % p,
    )
}

/// The factors' tables with the variables fixed at `r`, first to last.
pub open spec fn tables_at<C: FpConfig<N>, const N: usize>(
    polys: Seq<DenseMultilinearPoly<C, N>>,
    r: Seq<int>,
) -> Seq<Seq<int>> {
    Seq::new(polys.len(), |m: int| fold_all(polys[m].spec_table(), r, pm::<C, N>()))
}

/// `out` is a value that `comb` may return on reduced arguments with the
/// values `args`.
pub open spec fn comb_yields<C: FpConfig<N>, const N: usize, F: Fn(&[Fp<C, N>]) -> Fp<C, N>>(
    comb: F,
    args: Seq<int>,
    out: Fp<C, N>,
) -> bool {
    exists|v: &[Fp<C, N>]| all_wf(v@) && values_of(v@) == args && #[trigger] comb.ensures((v,), out)
}

/// Each of `outs` is what `comb` gives at the round point of its index.
pub open spec fn round_outs<C: FpConfig<N>, const N: usize, F: Fn(&[Fp<C, N>]) -> Fp<C, N>>(
    comb: F,
    tables: Seq<Seq<int>>,
    t: int,
    outs: Seq<Fp<C, N>>,
) -> bool {
    forall|i: int|
        0 <= i < outs.len() ==> #[trigger] comb_yields(comb, round_point(tables, i, t, pm::<C, N>()), outs[i])
}

/// `value` is the round polynomial at `t`: the sum, modulo `p`, over the
/// remaining hypercube of what `comb` gives at the round points.
pub open spec fn round_value<C: FpConfig<N>, const N: usize, F: Fn(&[Fp<C, N>]) -> Fp<C, N>>(
    comb: F,
    tables: Seq<Seq<int>>,
    t: int,
    value: int,
) -> bool {
    exists|outs: Seq<Fp<C, N>>|
        outs.len() == tables[0].len() / 2 && #[trigger] round_outs(comb, tables, t, outs) && value
            == int_sum(values_of(outs)) % pm::<C, N>()
}

/// A point on the line through `a` and `b`, computed with reduced factors.
proof fn lemma_line_point(a: int, b: int, t: int, p: int)
    requires
        p > 0,
    ensures
        (a + ((t % p) * ((b - a) % p)) % p) % p == (a + t * (b - a)) % p,
{
    lemma_mod_twice(t, p);
    lemma_mod_twice(b - a, p);
    lemma_mul_cong(t % p, (b - a) % p, t, b - a, p);
    lemma_mod_twice(t * (b - a), p);
    lemma_add_cong(a, ((t % p) * ((b - a) % p)) % p, a, t * (b - a), p);
}

/// Adding one more term to a sum taken modulo `p`.
proof fn lemma_sum_push<C: FpConfig<N>, const N: usize>(outs: Seq<Fp<C, N>>, c: Fp<C, N>, acc: int)
    requires
        pm::<C, N>() > 0,
        acc == int_sum(values_of(outs)) % pm::<C, N>(),
    ensures
        (acc + fv(c)) % pm::<C, N>() == int_sum(values_of(outs.push(c))) % pm::<C, N>(),
{
    let p = pm::<C, N>();
    assert(values_of(outs.push(c)).drop_last() =~= values_of(outs));
    lemma_mod_twice(int_sum(values_of(outs)), p);
    lemma_add_cong(acc, fv(c), int_sum(values_of(outs)), fv(c), p);
}

impl<C: FpConfig<N>, const N: usize> SumcheckProof<C, N> {
    /// The round polynomials.
    pub closed spec fn spec_polys(&self) -> Seq<EvalsUniPoly<C, N>> {
        self.polys@
    }

    /// Every round polynomial has at least one value, all reduced.
    pub open spec fn proof_wf(&self) -> bool {
        forall|i: int|
            0 <= i < self.spec_polys().len() ==> {
                &&& (#[trigger] self.spec_polys()[i]).spec_evals().len() > 0
                &&& all_wf(self.spec_polys()[i].spec_evals())
            }
    }

    /// The number of rounds, the common number of variables. Not
    /// defined on no factor, a zero degree or factors of different sizes.
    pub fn assert_shape(polys: &[DenseMultilinearPoly<C, N>], degree: usize) -> (r: usize)
        requires
            polys.len() > 0,
            degree >= 1,
            forall|i: int|
                0 <= i < polys.len() ==> (#[trigger] polys[i]).spec_vars() == polys[0].spec_vars(),
        ensures
            r == polys[0].spec_vars(),
    {
        polys[0].vars()
    }

    /// Verifies the rounds against the claimed sum. On success returns the
    /// final claim and the challenges; a malformed or wrong proof gives `None`.
    pub fn verify(&self, sum: Fp<C, N>, degree: usize, transcript: &mut Transcript) -> (res: Option<
        (Fp<C, N>, Vec<Fp<C, N>>),
    >)
        requires
            self.proof_wf(),
            sum.wf(),
            forall|n: nat| 1 <= n <= degree + 1 ==> #[trigger] nodes_invertible(n, pm::<C, N>()),
        ensures
            ({
                let v = verify_rounds::<C, N>(
                    rounds_of(self.spec_polys()),
                    fv(sum),
                    degree as nat,
                    old(transcript).absorbed(),
                );
                &&& final(transcript).absorbed() == v.3
                &&& (res is Some) == v.0
                &&& (res matches Some(out) ==> out.0.wf() && fv(out.0) == v.1 && all_wf(out.1@)
                    && values_of(out.1@) == v.2)
            }),
            res is Some ==> forall|k: int|
                0 <= k < self.spec_polys().len() ==> (#[trigger] rounds_of(self.spec_polys())[k]).len()
                    <= degree + 1 && (poly_value(round_coeffs::<C, N>(rounds_of(self.spec_polys())[k]), 0)
                    + poly_value(round_coeffs::<C, N>(rounds_of(self.spec_polys())[k]), 1)) % pm::<C, N>()
                    == replay_rounds::<C, N>(
                    rounds_of(self.spec_polys()).take(k),
                    fv(sum),
                    old(transcript).absorbed(),
                ).0,
    {
        let ghost rounds = rounds_of(self.polys@);
        let ghost s0 = transcript.absorbed();
        let round_label = round_poly_label_bytes();
        let chal_label = challenge_r_label_bytes();
        let mut h = sum;
        let mut r: Vec<Fp<C, N>> = Vec::new();
        let mut i: usize = 0;
        proof {
            lemma_pm_pos::<C, N>();
            assert(rounds.take(0) =~= Seq::<Seq<int>>::empty());
            lemma_reduced(sum);
        }
        while i < self.polys.len()
            invariant
                i <= self.polys.len(),
                s0 == old(transcript).absorbed(),
                rounds == rounds_of(self.polys@),
                self.proof_wf(),
                pm::<C, N>() > 2,
                round_label@ == round_poly_label(),
                chal_label@ == challenge_r_label(),
                forall|n: nat| 1 <= n <= degree + 1 ==> #[trigger] nodes_invertible(n, pm::<C, N>()),
                h.wf(),
                all_wf(r@),
                verify_rounds::<C, N>(rounds.take(i as int), fv(sum), degree as nat, s0) == (
                    true,
                    fv(h),
                    values_of(r@),
                    transcript.absorbed(),
                ),
            decreases self.polys.len() - i,
        {
            let q = &self.polys[i];
            let ghost e = rounds[i as int];
            proof {
                assert(rounds.take(i + 1).drop_last() =~= rounds.take(i as int));
                assert(rounds.take(i + 1).last() == e);
                assert(self.spec_polys()[i as int].spec_evals().len() > 0);
                assert(all_wf(self.spec_polys()[i as int].spec_evals()));
                assert(e == values_of(q.spec_evals()));
                assert(e.len() == q.spec_evals().len());
            }
            if q.evals().len() - 1 > degree {
                proof {
                    lemma_verify_stops::<C, N>(rounds, fv(sum), degree as nat, s0, i as nat);
                }
                return None;
            }
            proof {
                assert(nodes_invertible(e.len(), pm::<C, N>()));
            }
            let coeffs = q.to_coeffs();
            let zero = coeffs.eval(Fp::<C, N>::zero());
            let one = coeffs.eval(Fp::<C, N>::one());
            let total = one.add(zero);
            proof {
                let c = round_coeffs::<C, N>(e);
                assert(values_of(coeffs.spec_coeffs()) == c);
                assert(fv(zero) == poly_value(c, 0) % pm::<C, N>());
                assert(fv(one) == poly_value(c, 1) % pm::<C, N>());
            }
            if !fp_eq(total, h) {
                proof {
                    lemma_verify_stops::<C, N>(rounds, fv(sum), degree as nat, s0, i as nat);
                }
                return None;
            }
            transcript.append_field_list(&round_label, coeffs.coeffs());
            let r_i = transcript.challenge_field::<C, N>(&chal_label);
            h = coeffs.eval(r_i);
            r.push(r_i);
            proof {
                assert(values_of(r@) =~= values_of(r@.drop_last()).push(fv(r_i)));
            }
            i = i + 1;
        }
        proof {
            assert(rounds.take(i as int) =~= rounds);
            lemma_verify_accepts_only_consistent_rounds::<C, N>(rounds, fv(sum), degree as nat, s0);
        }
        Some((h, r))
    }
}

impl<C: FpConfig<N>, const N: usize> SumcheckProof<C, N> {
    /// The round polynomial `s(t) = sum_{x'} comb(p_0(t, x'), ..., p_{k-1}(t, x'))`
    /// by its values at `t = 0, 1, ..., degree`. The value at `1` is not
    /// summed but taken as `claim - s(0)`. Each factor is multilinear, so at
    /// `t` it is `p(0, x') + t * (p(1, x') - p(0, x'))`.
    #[verifier::rlimit(40)]
    pub fn round_polynomial<F: Fn(&[Fp<C, N>]) -> Fp<C, N>>(
        polys: &[DenseMultilinearPoly<C, N>],
        claim: Fp<C, N>,
        degree: usize,
        comb: &F,
    ) -> (r: EvalsUniPoly<C, N>)
        requires
            polys.len() > 0,
            forall|i: int| 0 <= i < polys.len() ==> (#[trigger] polys[i]).mle_wf(),
            forall|i: int|
                0 <= i < polys.len() ==> (#[trigger] polys[i]).spec_vars() == polys[0].spec_vars(),
            polys[0].spec_vars() > 0,
            1 <= degree < usize::MAX,
            claim.wf(),
            forall|v: &[Fp<C, N>]| #[trigger] comb.requires((v,)),
            forall|v: &[Fp<C, N>], out: Fp<C, N>| #[trigger] comb.ensures((v,), out) ==> out.wf(),
        ensures
            r.spec_evals().len() == degree + 1,
            all_wf(r.spec_evals()),
            fv(r.spec_evals()[1]) == (fv(claim) - fv(r.spec_evals()[0])) % pm::<C, N>(),
            forall|t: int|
                0 <= t <= degree && t != 1 ==> #[trigger] round_value(
                    *comb,
                    tables_of(polys@),
                    t,
                    fv(r.spec_evals()[t]),
                ),
    {
        let ghost tables = tables_of(polys@);
        let ghost p = pm::<C, N>();
        proof {
            lemma_pm_pos::<C, N>();
        }
        let k = polys.len();
        let size = polys[0].evals().len();
        let half = size / 2;
        let mut evals: Vec<Fp<C, N>> = Vec::new();
        let ghost mut outs: Seq<Seq<Fp<C, N>>> = Seq::empty();
        let mut t: usize = 0;
        while t <= degree
            invariant
                t <= degree + 1,
                degree < usize::MAX,
                evals.len() == t,
                outs.len() == t,
                forall|u: int| 0 <= u < t ==> fv(#[trigger] evals@[u]) == 0 && outs[u].len() == 0,
                all_wf(evals@),
            decreases degree + 1 - t,
        {
            let z = Fp::<C, N>::zero();
            proof {
                outs = outs.push(Seq::<Fp<C, N>>::empty());
            }
            evals.push(z);
            t = t + 1;
        }
        proof {
            assert forall|u: int| 0 <= u <= degree && u != 1 implies {
                &&& (#[trigger] outs[u]).len() == 0
                &&& round_outs(*comb, tables, u, outs[u])
                &&& fv(evals@[u]) == int_sum(values_of(outs[u])) % p
            } by {
                assert(fv(evals@[u]) == 0);
                assert(values_of(outs[u]) =~= Seq::<int>::empty());
                assert(int_sum(values_of(outs[u])) == 0);
                lemma_small_mod(0, p as nat);
            }
        }
        let mut i: usize = 0;
        proof {
            lemma_pow2_unfold(polys[0].spec_vars());
        }
        while i < half
            invariant
                k == polys.len(),
                tables == tables_of(polys@),
                p == pm::<C, N>(),
                p > 2,
                size == pow2(polys[0].spec_vars()),
                half == size / 2,
                size % 2 == 0,
                i <= half,
                forall|m: int| 0 <= m < polys.len() ==> (#[trigger] polys[m]).mle_wf(),
                forall|m: int|
                    0 <= m < polys.len() ==> (#[trigger] polys[m]).spec_vars() == polys[0].spec_vars(),
                1 <= degree < usize::MAX,
                evals.len() == degree + 1,
                outs.len() == degree + 1,
                all_wf(evals@),
                forall|u: int|
                    0 <= u <= degree && u != 1 ==> {
                        &&& (#[trigger] outs[u]).len() == i
                        &&& round_outs(*comb, tables, u, outs[u])
                        &&& fv(evals@[u]) == int_sum(values_of(outs[u])) % p
                    },
                forall|v: &[Fp<C, N>]| #[trigger] comb.requires((v,)),
                forall|v: &[Fp<C, N>], out: Fp<C, N>| #[trigger] comb.ensures((v,), out) ==> out.wf(),
            decreases half - i,
        {
            let mut lo: Vec<Fp<C, N>> = Vec::new();
            let mut delta: Vec<Fp<C, N>> = Vec::new();
            let mut j: usize = 0;
            while j < k
                invariant
                    k == polys.len(),
                    tables == tables_of(polys@),
                    p == pm::<C, N>(),
                    p > 2,
                    size == pow2(polys[0].spec_vars()),
                    i < half,
                    half == size / 2,
                    size % 2 == 0,
                    j <= k,
                    forall|m: int| 0 <= m < polys.len() ==> (#[trigger] polys[m]).mle_wf(),
                    forall|m: int|
                        0 <= m < polys.len() ==> (#[trigger] polys[m]).spec_vars()
                            == polys[0].spec_vars(),
                    lo.len() == j,
                    delta.len() == j,
                    all_wf(lo@),
                    all_wf(delta@),
                    forall|m: int|
                        0 <= m < j ==> {
                            &&& fv(#[trigger] lo@[m]) == tables[m][2 * i]
                            &&& fv(delta@[m]) == (tables[m][2 * i + 1] - tables[m][2 * i]) % p
                            &&& 0 <= tables[m][2 * i] < p
                        },
                decreases k - j,
            {
                let table = polys[j].evals();
                proof {
                    assert(polys[j as int].mle_wf());
                    assert(polys[j as int].spec_vars() == polys[0].spec_vars());
                    lemma_reduced(table@[2 * i as int]);
                    assert(tables[j as int] == values_of(polys[j as int].spec_evals()));
                }
                let a = table[2 * i];
                let b = table[2 * i + 1];
                lo.push(a);
                delta.push(b.sub(a));
                j = j + 1;
            }
            let lo_slice = lo.as_slice();
            let c0 = comb(lo_slice);
            let e0 = evals[0].add(c0);
            proof {
                assert(values_of(lo_slice@) =~= round_point(tables, i as int, 0, p)) by {
                    assert forall|m: int| 0 <= m < k implies values_of(lo_slice@)[m] == round_point(
                        tables,
                        i as int,
                        0,
                        p,
                    )[m] by {
                        assert(fv(lo@[m]) == tables[m][2 * i]);
                        lemma_small_mod(tables[m][2 * i] as nat, p as nat);
                    }
                }
                assert(comb_yields(*comb, round_point(tables, i as int, 0, p), c0));
                lemma_sum_push(outs[0], c0, fv(evals@[0]));
                let new0 = outs[0].push(c0);
                assert(round_outs(*comb, tables, 0, new0)) by {
                    assert forall|m: int| 0 <= m < new0.len() implies #[trigger] comb_yields(
                        *comb,
                        round_point(tables, m, 0, p),
                        new0[m],
                    ) by {
                        if m < outs[0].len() {
                            assert(new0[m] == outs[0][m]);
                        }
                    }
                }
                outs = outs.update(0, new0);
            }
            evals.set(0, e0);
            let mut t: usize = 2;
            while t <= degree
                invariant
                    2 <= t <= degree + 1,
                    1 <= degree < usize::MAX,
                    tables == tables_of(polys@),
                    k == polys.len(),
                    p == pm::<C, N>(),
                    p > 2,
                    i < half,
                    lo.len() == k,
                    delta.len() == k,
                    all_wf(lo@),
                    all_wf(delta@),
                    forall|m: int|
                        0 <= m < k ==> {
                            &&& fv(#[trigger] lo@[m]) == tables[m][2 * i]
                            &&& fv(delta@[m]) == (tables[m][2 * i + 1] - tables[m][2 * i]) % p
                        },
                    evals.len() == degree + 1,
                    outs.len() == degree + 1,
                    all_wf(evals@),
                    forall|u: int|
                        0 <= u <= degree && u != 1 ==> {
                            &&& (#[trigger] outs[u]).len() == if u < t { i + 1 } else { i as int }
                            &&& round_outs(*comb, tables, u, outs[u])
                            &&& fv(evals@[u]) == int_sum(values_of(outs[u])) % p
                        },
                    forall|v: &[Fp<C, N>]| #[trigger] comb.requires((v,)),
                    forall|v: &[Fp<C, N>], out: Fp<C, N>|
                        #[trigger] comb.ensures((v,), out) ==> out.wf(),
                decreases degree + 1 - t,
            {
                let tf = Fp::<C, N>::from_u64(t as u64);
                let mut pt: Vec<Fp<C, N>> = Vec::new();
                let mut j: usize = 0;
                while j < k
                    invariant
                        j <= k,
                        k == lo.len(),
                        lo.len() == k,
                        delta.len() == k,
                        p == pm::<C, N>(),
                        p > 2,
                        all_wf(lo@),
                        all_wf(delta@),
                        tf.wf(),
                        fv(tf) == (t as int) % p,
                        pt.len() == j,
                        all_wf(pt@),
                        forall|m: int|
                            0 <= m < j ==> fv(#[trigger] pt@[m]) == (fv(lo@[m]) + ((fv(tf) * fv(delta@[m]))
                                % p)) % p,
                    decreases k - j,
                {
                    let v = lo[j].add(tf.mul(delta[j]));
                    pt.push(v);
                    j = j + 1;
                }
                let pt_slice = pt.as_slice();
                let ct = comb(pt_slice);
                let et = evals[t].add(ct);
                proof {
                    assert(values_of(pt_slice@) =~= round_point(tables, i as int, t as int, p)) by {
                        assert forall|m: int| 0 <= m < k implies values_of(pt_slice@)[m] == round_point(
                            tables,
                            i as int,
                            t as int,
                            p,
                        )[m] by {
                            lemma_line_point(tables[m][2 * i], tables[m][2 * i + 1], t as int, p);
                        }
                    }
                    assert(comb_yields(*comb, round_point(tables, i as int, t as int, p), ct));
                    let ot = outs[t as int];
                    lemma_sum_push(ot, ct, fv(evals@[t as int]));
                    let newt = ot.push(ct);
                    assert(round_outs(*comb, tables, t as int, newt)) by {
                        assert forall|m: int| 0 <= m < newt.len() implies #[trigger] comb_yields(
                            *comb,
                            round_point(tables, m, t as int, p),
                            newt[m],
                        ) by {
                            if m < ot.len() {
                                assert(newt[m] == ot[m]);
                            }
                        }
                    }
                    outs = outs.update(t as int, newt);
                }
                evals.set(t, et);
                t = t + 1;
            }
            i = i + 1;
        }
        let e1 = claim.sub(evals[0]);
        evals.set(1, e1);
        let r = EvalsUniPoly::new(evals);
        proof {
            assert forall|u: int| 0 <= u <= degree && u != 1 implies #[trigger] round_value(
                *comb,
                tables,
                u,
                fv(r.spec_evals()[u]),
            ) by {
                assert(tables[0].len() == size);
                assert(outs[u].len() == tables[0].len() / 2);
                assert(round_outs(*comb, tables, u, outs[u]));
            }
        }
        r
    }

    /// Runs the prover: one round per variable, folding every factor at each
    /// challenge. Returns the proof, the challenges and the factors' final
    /// values. Not defined on the shapes that `assert_shape` rejects.
    pub fn prove<F: Fn(&[Fp<C, N>]) -> Fp<C, N>>(
        polys: Vec<DenseMultilinearPoly<C, N>>,
        claim: Fp<C, N>,
        degree: usize,
        comb: F,
        transcript: &mut Transcript,
    ) -> (out: SumcheckOutput<C, N>)
        requires
            polys.len() > 0,
            forall|i: int| 0 <= i < polys.len() ==> (#[trigger] polys[i]).mle_wf(),
            forall|i: int|
                0 <= i < polys.len() ==> (#[trigger] polys[i]).spec_vars() == polys[0].spec_vars(),
            1 <= degree < usize::MAX,
            nodes_invertible((degree + 1) as nat, pm::<C, N>()),
            claim.wf(),
            forall|v: &[Fp<C, N>]| #[trigger] comb.requires((v,)),
            forall|v: &[Fp<C, N>], out: Fp<C, N>| #[trigger] comb.ensures((v,), out) ==> out.wf(),
        ensures
            ({
                let rounds = rounds_of(out.proof.spec_polys());
                let rep = replay_rounds::<C, N>(rounds, fv(claim), old(transcript).absorbed());
                &&& out.proof.proof_wf()
                &&& rounds.len() == polys[0].spec_vars()
                &&& forall|i: int| 0 <= i < rounds.len() ==> (#[trigger] rounds[i]).len() == degree + 1
                &&& honest_rounds::<C, N>(rounds, fv(claim), old(transcript).absorbed())
                &&& forall|k: int, t: int|
                    0 <= k < rounds.len() && 0 <= t <= degree && t != 1 ==> #[trigger] round_value(
                        comb,
                        tables_at(polys@, rep.1.take(k)),
                        t,
                        rounds[k][t],
                    )
                &&& all_wf(out.point@)
                &&& values_of(out.point@) == rep.1
                &&& final(transcript).absorbed() == rep.2
                &&& out.final_evals.len() == polys.len()
                &&& all_wf(out.final_evals@)
                &&& forall|m: int|
                    0 <= m < polys.len() ==> fv(#[trigger] out.final_evals@[m]) == fold_all(
                        polys[m].spec_table(),
                        rep.1,
                        pm::<C, N>(),
                    )[0]
            }),
    {
        let ghost s0 = transcript.absorbed();
        let ghost orig = polys@;
        let ghost vars0 = polys[0].spec_vars();
        let num_rounds = Self::assert_shape(polys.as_slice(), degree);
        let round_label = round_poly_label_bytes();
        let chal_label = challenge_r_label_bytes();
        let mut polys = polys;
        let mut claim_now = claim;
        let mut round_polys: Vec<EvalsUniPoly<C, N>> = Vec::new();
        let mut r: Vec<Fp<C, N>> = Vec::new();
        let mut round: usize = 0;
        proof {
            lemma_pm_pos::<C, N>();
            lemma_reduced(claim);
            assert(rounds_of(round_polys@) =~= Seq::<Seq<int>>::empty());
            assert(values_of(r@) =~= Seq::<int>::empty());
        }
        while round < num_rounds
            invariant
                num_rounds == vars0,
                round <= num_rounds,
                pm::<C, N>() > 2,
                round_label@ == round_poly_label(),
                chal_label@ == challenge_r_label(),
                1 <= degree < usize::MAX,
                nodes_invertible((degree + 1) as nat, pm::<C, N>()),
                polys.len() == orig.len(),
                orig.len() > 0,
                forall|m: int| 0 <= m < polys.len() ==> (#[trigger] polys@[m]).mle_wf(),
                forall|m: int|
                    0 <= m < polys.len() ==> (#[trigger] polys@[m]).spec_vars() == vars0 - round,
                forall|m: int|
                    0 <= m < polys.len() ==> (#[trigger] polys@[m]).spec_table() == fold_all(
                        orig[m].spec_table(),
                        values_of(r@),
                        pm::<C, N>(),
                    ),
                claim_now.wf(),
                round_polys.len() == round,
                r.len() == round,
                all_wf(r@),
                forall|i: int|
                    0 <= i < round_polys.len() ==> {
                        &&& (#[trigger] round_polys@[i]).spec_evals().len() == degree + 1
                        &&& all_wf(round_polys@[i].spec_evals())
                    },
                honest_rounds::<C, N>(rounds_of(round_polys@), fv(claim), s0),
                forall|k: int, t: int|
                    0 <= k < round && 0 <= t <= degree && t != 1 ==> #[trigger] round_value(
                        comb,
                        tables_at(orig, values_of(r@).take(k)),
                        t,
                        rounds_of(round_polys@)[k][t],
                    ),
                replay_rounds::<C, N>(rounds_of(round_polys@), fv(claim), s0) == (
                    fv(claim_now),
                    values_of(r@),
                    transcript.absorbed(),
                ),
                forall|v: &[Fp<C, N>]| #[trigger] comb.requires((v,)),
                forall|v: &[Fp<C, N>], out: Fp<C, N>| #[trigger] comb.ensures((v,), out) ==> out.wf(),
            decreases num_rounds - round,
        {
            proof {
                assert(polys@[0].spec_vars() == vars0 - round);
                assert forall|m: int| 0 <= m < polys.len() implies (#[trigger] polys@[m]).spec_vars()
                    == polys@[0].spec_vars() by {}
            }
            proof {
                assert(tables_of(polys@) =~= tables_at(orig, values_of(r@)));
            }
            let poly = Self::round_polynomial(polys.as_slice(), claim_now, degree, &comb);
            let coeffs = poly.to_coeffs();
            let ghost prev_state = transcript.absorbed();
            transcript.append_field_list(&round_label, coeffs.coeffs());
            let r_i = transcript.challenge_field::<C, N>(&chal_label);
            let ghost prev_claim_elem = claim_now;
            claim_now = coeffs.eval(r_i);
            let ghost e = values_of(poly.spec_evals());
            let ghost before_polys = polys@;
            let next = fold_each(polys, r_i);
            polys = next;
            let ghost prev_round_polys = round_polys@;
            let ghost prev_r = r@;
            round_polys.push(poly);
            r.push(r_i);
            proof {
                assert(round_polys@.drop_last() =~= prev_round_polys);
                assert(rounds_of(round_polys@) =~= rounds_of(prev_round_polys).push(e));
                assert(values_of(coeffs.spec_coeffs()) == round_coeffs::<C, N>(e));
                assert(r@.drop_last() =~= prev_r);
                assert(values_of(r@) =~= values_of(prev_r).push(fv(r_i)));
                lemma_reduced(poly.spec_evals()[0]);
                lemma_reduced(prev_claim_elem);
                assert(e[1] == fv(poly.spec_evals()[1]));
                lemma_prove_step::<C, N>(
                    rounds_of(prev_round_polys),
                    e,
                    fv(claim),
                    s0,
                );
                assert forall|m: int| 0 <= m < polys.len() implies (#[trigger] polys@[m]).spec_table()
                    == fold_all(orig[m].spec_table(), values_of(r@), pm::<C, N>()) by {
                    assert(values_of(r@).drop_last() =~= values_of(prev_r));
                }
                assert forall|kk: int, t: int|
                    0 <= kk < round + 1 && 0 <= t <= degree && t != 1 implies #[trigger] round_value(
                        comb,
                        tables_at(orig, values_of(r@).take(kk)),
                        t,
                        rounds_of(round_polys@)[kk][t],
                    ) by {
                    if kk < round {
                        assert(values_of(r@).take(kk) =~= values_of(prev_r).take(kk));
                        assert(rounds_of(round_polys@)[kk] == rounds_of(prev_round_polys)[kk]);
                    } else {
                        assert(values_of(r@).take(kk) =~= values_of(prev_r));
                        assert(rounds_of(round_polys@)[kk] == e);
                        assert(round_value(comb, tables_at(orig, values_of(prev_r)), t, fv(poly.spec_evals()[t])));
                    }
                }
            }
            round = round + 1;
        }
        let mut final_evals: Vec<Fp<C, N>> = Vec::new();
        let mut m: usize = 0;
        while m < polys.len()
            invariant
                m <= polys.len(),
                polys.len() == orig.len(),
                forall|k: int| 0 <= k < polys.len() ==> (#[trigger] polys@[k]).mle_wf(),
                forall|k: int| 0 <= k < polys.len() ==> (#[trigger] polys@[k]).spec_vars() == 0,
                final_evals.len() == m,
                all_wf(final_evals@),
                forall|k: int|
                    0 <= k < m ==> fv(#[trigger] final_evals@[k]) == polys@[k].spec_table()[0],
            decreases polys.len() - m,
        {
            let v = polys[m].final_constant();
            final_evals.push(v);
            m = m + 1;
        }
        proof {
            assert forall|i: int| 0 <= i < round_polys.len() implies {
                &&& (#[trigger] round_polys@[i]).spec_evals().len() > 0
                &&& all_wf(round_polys@[i].spec_evals())
            } by {}
        }
        SumcheckOutput { proof: SumcheckProof { polys: round_polys }, point: r, final_evals }
    }
}

/// Fixes the first variable of every factor to `r`.
pub(crate) fn fold_each<C: FpConfig<N>, const N: usize>(
    polys: Vec<DenseMultilinearPoly<C, N>>,
    r: Fp<C, N>,
) -> (out: Vec<DenseMultilinearPoly<C, N>>)
    requires
        r.wf(),
        forall|m: int| 0 <= m < polys.len() ==> (#[trigger] polys@[m]).mle_wf(),
        forall|m: int| 0 <= m < polys.len() ==> (#[trigger] polys@[m]).spec_vars() > 0,
    ensures
        out.len() == polys.len(),
        forall|m: int| 0 <= m < out.len() ==> (#[trigger] out@[m]).mle_wf(),
        forall|m: int|
            0 <= m < out.len() ==> (#[trigger] out@[m]).spec_vars() == polys@[m].spec_vars() - 1,
        forall|m: int|
            0 <= m < out.len() ==> (#[trigger] out@[m]).spec_table() == fold_values(
                polys@[m].spec_table(),
                fv(r),
                pm::<C, N>(),
            ),
{
    let ghost before = polys@;
    let mut rest = polys;
    let mut next: Vec<DenseMultilinearPoly<C, N>> = Vec::new();
    while rest.len() > 0
        invariant
            next.len() + rest.len() == before.len(),
            r.wf(),
            forall|m: int| 0 <= m < rest.len() ==> #[trigger] rest@[m] == before[next.len() + m],
            forall|m: int| 0 <= m < before.len() ==> (#[trigger] before[m]).mle_wf(),
            forall|m: int| 0 <= m < before.len() ==> (#[trigger] before[m]).spec_vars() > 0,
            forall|m: int| 0 <= m < next.len() ==> (#[trigger] next@[m]).mle_wf(),
            forall|m: int|
                0 <= m < next.len() ==> (#[trigger] next@[m]).spec_vars() == before[m].spec_vars()
                    - 1,
            forall|m: int|
                0 <= m < next.len() ==> (#[trigger] next@[m]).spec_table() == fold_values(
                    before[m].spec_table(),
                    fv(r),
                    pm::<C, N>(),
                ),
        decreases rest.len(),
    {
        let mut q = rest.remove(0);
        proof {
            assert(q == before[next.len() as int]);
        }
        q.fold(r);
        next.push(q);
    }
    next
}

/// Appending an honest round keeps the rounds honest and extends the replay.
proof fn lemma_prove_step<C: FpConfig<N>, const N: usize>(
    prev: Seq<Seq<int>>,
    e: Seq<int>,
    h: int,
    state: Seq<u8>,
)
    requires
        honest_rounds::<C, N>(prev, h, state),
        e.len() >= 2,
        0 <= e[0] < pm::<C, N>(),
        0 <= replay_rounds::<C, N>(prev, h, state).0 < pm::<C, N>(),
        e[1] == (replay_rounds::<C, N>(prev, h, state).0 - e[0]) % pm::<C, N>(),
    ensures
        honest_rounds::<C, N>(prev.push(e), h, state),
        ({
            let r = replay_rounds::<C, N>(prev, h, state);
            replay_rounds::<C, N>(prev.push(e), h, state) == (
                round_claim::<C, N>(e, r.2),
                r.1.push(round_challenge::<C, N>(e, r.2)),
                round_after::<C, N>(e, r.2),
            )
        }),
{
    lemma_pm_pos::<C, N>();
    let p = pm::<C, N>();
    let c = replay_rounds::<C, N>(prev, h, state).0;
    assert(prev.push(e).drop_last() =~= prev);
    assert(prev.push(e).last() == e);
    lemma_mod_twice(c - e[0], p);
    lemma_small_mod(e[0] as nat, p as nat);
    lemma_add_cong(e[0], e[1], e[0], c - e[0], p);
    lemma_small_mod(c as nat, p as nat);
}

/// Once a round fails, the verifier's result no longer changes.
proof fn lemma_verify_failed_stays<C: FpConfig<N>, const N: usize>(
    rounds: Seq<Seq<int>>,
    h: int,
    degree: nat,
    state: Seq<u8>,
    k: nat,
    m: nat,
)
    requires
        k <= m <= rounds.len(),
        !verify_rounds::<C, N>(rounds.take(k as int), h, degree, state).0,
    ensures
        verify_rounds::<C, N>(rounds.take(m as int), h, degree, state) == verify_rounds::<C, N>(
            rounds.take(k as int),
            h,
            degree,
            state,
        ),
    decreases m - k,
{
    if m > k {
        lemma_verify_failed_stays::<C, N>(rounds, h, degree, state, k, (m - 1) as nat);
        assert(rounds.take(m as int).drop_last() =~= rounds.take(m - 1));
    }
}

/// When round `i` fails its check, the whole run ends there.
proof fn lemma_verify_stops<C: FpConfig<N>, const N: usize>(
    rounds: Seq<Seq<int>>,
    h: int,
    degree: nat,
    state: Seq<u8>,
    i: nat,
)
    requires
        i < rounds.len(),
        verify_rounds::<C, N>(rounds.take(i as int), h, degree, state).0,
        !round_ok::<C, N>(
            rounds[i as int],
            verify_rounds::<C, N>(rounds.take(i as int), h, degree, state).1,
            degree,
        ),
    ensures
        ({
            let prev = verify_rounds::<C, N>(rounds.take(i as int), h, degree, state);
            verify_rounds::<C, N>(rounds, h, degree, state) == (false, prev.1, prev.2, prev.3)
        }),
{
    assert(rounds.take(i as int + 1).drop_last() =~= rounds.take(i as int));
    assert(rounds.take(i as int + 1).last() == rounds[i as int]);
    lemma_verify_failed_stays::<C, N>(rounds, h, degree, state, i + 1, rounds.len());
    assert(rounds.take(rounds.len() as int) =~= rounds);
}

} // verus!
