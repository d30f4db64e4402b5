//! Completeness of the sum-check provers: when the claim is the sum of the
//! combination over the hypercube and the combination has at most the
//! protocol's degree along every line, the claim that the prover's rounds
//! end in is the combination of the factors' final values. Stated for the
//! plain sum-check (over the replayed transcript) and for the
//! zero-knowledge one (over the committed rounds and their challenges).

use crate::ff::{Fp, FpConfig};
use crate::helpers::{all_wf, fv, lemma_add_cong, lemma_mul_cong, lemma_pm_pos, pm};
use crate::mle::{fold_all, fold_values, DenseMultilinearPoly, MultilinearPoly};
use crate::sumcheck::{
    comb_yields, honest_rounds, int_sum, replay_rounds, round_challenge, round_claim, round_coeffs,
    round_outs, round_point, round_value, tables_at,
};
use crate::uni_poly::{inv_value, lagrange_sum, lagrange_value, lemma_lagrange_coeffs_value, node_denominator, node_product, values_of};
use crate::curve::{fr_modulus, lemma_fr_modulus, Bls12381FrConfig, Fr};
use crate::zk_sumcheck::{key_degree, zk_claim_before, zk_round_values, zk_rounds_hold, ZkSumcheckKey};
use vstd::arithmetic::div_mod::*;
use vstd::arithmetic::power2::*;
use vstd::prelude::*;

verus! {

/// The `x`-th entry of every table.
pub open spec fn column(tables: Seq<Seq<int>>, x: int) -> Seq<int> {
    Seq::new(tables.len(), |j: int| tables[j][x])
}

/// `f` at each of the first `len` columns.
pub open spec fn cube_terms(f: spec_fn(Seq<int>) -> int, tables: Seq<Seq<int>>, len: nat) -> Seq<int> {
    Seq::new(len, |x: int| f(column(tables, x)))
}

/// The point at `t` on the line through `a` (at `0`) and `b` (at `1`), modulo `p`.
pub open spec fn line_at(a: Seq<int>, b: Seq<int>, t: int, p: int) -> Seq<int> {
    Seq::new(a.len(), |j: int| (a[j] + t * (b[j] - a[j])) % p)
}

/// `f` on the line through `a` and `b` at the nodes `0..=d`.
pub open spec fn line_values(f: spec_fn(Seq<int>) -> int, a: Seq<int>, b: Seq<int>, d: nat, p: int) -> Seq<int> {
    Seq::new(d + 1, |t: int| f(line_at(a, b, t, p)))
}

/// Every entry lies in `0..p`.
pub open spec fn reduced_seq(s: Seq<int>, p: int) -> bool {
    forall|j: int| 0 <= j < s.len() ==> 0 <= #[trigger] s[j] < p
}

/// `f`, in `k` arguments, has degree at most `d` along every line: on each
/// line its values at the nodes `0..=d` interpolate it everywhere.
pub open spec fn low_degree_on_lines(f: spec_fn(Seq<int>) -> int, d: nat, k: nat, p: int) -> bool {
    forall|a: Seq<int>, b: Seq<int>, r: int|
        a.len() == k && b.len() == k && reduced_seq(a, p) && reduced_seq(b, p) && 0 <= r < p
            ==> #[trigger] lagrange_value(line_values(f, a, b, d, p), r, p) % p == f(line_at(a, b, r, p)) % p
}

/// Whatever `comb` returns on reduced arguments is `f` of their values.
pub open spec fn comb_computes<C: FpConfig<N>, const N: usize, F: Fn(&[Fp<C, N>]) -> Fp<C, N>>(
    comb: F,
    f: spec_fn(Seq<int>) -> int,
) -> bool {
    forall|v: &[Fp<C, N>], out: Fp<C, N>|
        all_wf(v@) && #[trigger] comb.ensures((v,), out) ==> fv(out) == f(values_of(v@)) % pm::<C, N>()
}

/// The pointwise sum of two sequences.
pub open spec fn seq_add(a: Seq<int>, b: Seq<int>) -> Seq<int> {
    Seq::new(a.len(), |k: int| a[k] + b[k])
}

/// The Lagrange sum is additive in the values.
proof fn lemma_lagrange_sum_add(a: Seq<int>, b: Seq<int>, n: nat, m: nat, t: int, p: int)
    requires
        a.len() == b.len(),
        m <= a.len(),
    ensures
        lagrange_sum(seq_add(a, b), n, m, t, p) == lagrange_sum(a, n, m, t, p) + lagrange_sum(b, n, m, t, p),
    decreases m,
{
    if m > 0 {
        lemma_lagrange_sum_add(a, b, n, (m - 1) as nat, t, p);
        let w = inv_value(node_denominator(m - 1, n), p) * node_product(m - 1, n, t);
        let x = a[m - 1];
        let y = b[m - 1];
        assert(seq_add(a, b)[m - 1] == x + y);
        assert((x + y) * inv_value(node_denominator(m - 1, n), p) * node_product(m - 1, n, t) == x
            * inv_value(node_denominator(m - 1, n), p) * node_product(m - 1, n, t) + y * inv_value(
            node_denominator(m - 1, n),
            p,
        ) * node_product(m - 1, n, t)) by (nonlinear_arith);
    }
}

/// The Lagrange sum modulo `p` depends on the values modulo `p` only.
proof fn lemma_lagrange_sum_cong(a: Seq<int>, b: Seq<int>, n: nat, m: nat, t: int, p: int)
    requires
        p > 0,
        m <= a.len(),
        m <= b.len(),
        forall|k: int| 0 <= k < m ==> #[trigger] a[k] % p == b[k] % p,
    ensures
        lagrange_sum(a, n, m, t, p) % p == lagrange_sum(b, n, m, t, p) % p,
    decreases m,
{
    if m > 0 {
        lemma_lagrange_sum_cong(a, b, n, (m - 1) as nat, t, p);
        let w = inv_value(node_denominator(m - 1, n), p) * node_product(m - 1, n, t);
        assert(a[m - 1] % p == b[m - 1] % p);
        lemma_mul_cong(a[m - 1], w, b[m - 1], w, p);
        vstd::arithmetic::mul::lemma_mul_is_associative(
            a[m - 1],
            inv_value(node_denominator(m - 1, n), p),
            node_product(m - 1, n, t),
        );
        vstd::arithmetic::mul::lemma_mul_is_associative(
            b[m - 1],
            inv_value(node_denominator(m - 1, n), p),
            node_product(m - 1, n, t),
        );
        lemma_add_cong(
            lagrange_sum(a, n, (m - 1) as nat, t, p),
            a[m - 1] * w,
            lagrange_sum(b, n, (m - 1) as nat, t, p),
            b[m - 1] * w,
            p,
        );
    }
}

/// Sums of congruent terms are congruent.
proof fn lemma_int_sum_cong(a: Seq<int>, b: Seq<int>, p: int)
    requires
        p > 0,
        a.len() == b.len(),
        forall|k: int| 0 <= k < a.len() ==> #[trigger] a[k] % p == b[k] % p,
    ensures
        int_sum(a) % p == int_sum(b) % p,
    decreases a.len(),
{
    if a.len() > 0 {
        lemma_int_sum_cong(a.drop_last(), b.drop_last(), p);
        assert(a[a.len() - 1] % p == b[a.len() - 1] % p);
        lemma_add_cong(int_sum(a.drop_last()), a.last(), int_sum(b.drop_last()), b.last(), p);
    }
}

/// A sum over `2h` terms, by even and odd positions.
proof fn lemma_int_sum_pairs(s: Seq<int>, h: nat)
    requires
        s.len() == 2 * h,
    ensures
        int_sum(s) == int_sum(Seq::new(h, |i: int| s[2 * i])) + int_sum(Seq::new(h, |i: int| s[2 * i + 1])),
    decreases h,
{
    if h > 0 {
        let s2 = s.drop_last().drop_last();
        lemma_int_sum_pairs(s2, (h - 1) as nat);
        assert(Seq::new(h, |i: int| s[2 * i]).drop_last() =~= Seq::new((h - 1) as nat, |i: int| s2[2 * i]));
        assert(Seq::new(h, |i: int| s[2 * i + 1]).drop_last() =~= Seq::new(
            (h - 1) as nat,
            |i: int| s2[2 * i + 1],
        ));
        let ev = Seq::new(h, |i: int| s[2 * i]);
        let od = Seq::new(h, |i: int| s[2 * i + 1]);
        assert(ev.last() == s[2 * h - 2]);
        assert(od.last() == s[2 * h - 1]);
        assert(int_sum(s) == int_sum(s.drop_last()) + s[2 * h - 1]);
        assert(s.drop_last().drop_last() == s2);
        assert(int_sum(s.drop_last()) == int_sum(s2) + s[2 * h - 2]);
    } else {
        assert(Seq::new(h, |i: int| s[2 * i]) =~= Seq::<int>::empty());
        assert(Seq::new(h, |i: int| s[2 * i + 1]) =~= Seq::<int>::empty());
    }
}

/// The Lagrange sum of the zero values is zero.
proof fn lemma_lagrange_sum_zero(z: Seq<int>, n: nat, m: nat, t: int, p: int)
    requires
        m <= z.len(),
        forall|k: int| 0 <= k < z.len() ==> #[trigger] z[k] == 0,
    ensures
        lagrange_sum(z, n, m, t, p) == 0,
{
    lemma_lagrange_sum_add(z, z, n, m, t, p);
    assert(seq_add(z, z) =~= z);
}

/// Interpolating a sum of value vectors gives the sum of the interpolations.
proof fn lemma_lagrange_of_sums(gs: Seq<Seq<int>>, h: nat, d: nat, c: int, p: int)
    requires
        h <= gs.len(),
        forall|i: int| 0 <= i < gs.len() ==> (#[trigger] gs[i]).len() == d + 1,
    ensures
        lagrange_value(Seq::new(d + 1, |t: int| int_sum(Seq::new(h, |i: int| gs[i][t]))), c, p) == int_sum(
            Seq::new(h, |i: int| lagrange_value(gs[i], c, p)),
        ),
    decreases h,
{
    let e = Seq::new(d + 1, |t: int| int_sum(Seq::new(h, |i: int| gs[i][t])));
    if h == 0 {
        assert forall|k: int| 0 <= k < e.len() implies #[trigger] e[k] == 0 by {
            assert(Seq::new(h, |i: int| gs[i][k]) =~= Seq::<int>::empty());
        }
        lemma_lagrange_sum_zero(e, e.len(), e.len(), c, p);
        assert(Seq::new(h, |i: int| lagrange_value(gs[i], c, p)) =~= Seq::<int>::empty());
    } else {
        let prev = Seq::new(d + 1, |t: int| int_sum(Seq::new((h - 1) as nat, |i: int| gs[i][t])));
        lemma_lagrange_of_sums(gs, (h - 1) as nat, d, c, p);
        assert(e =~= seq_add(prev, gs[h - 1])) by {
            assert forall|t: int| 0 <= t < d + 1 implies e[t] == seq_add(prev, gs[h - 1])[t] by {
                assert(Seq::new(h, |i: int| gs[i][t]).drop_last() =~= Seq::new((h - 1) as nat, |i: int| gs[i][t]));
            }
        }
        lemma_lagrange_sum_add(prev, gs[h - 1], d + 1, d + 1, c, p);
        assert(Seq::new(h, |i: int| lagrange_value(gs[i], c, p)).drop_last() =~= Seq::new(
            (h - 1) as nat,
            |i: int| lagrange_value(gs[i], c, p),
        ));
    }
}

/// One honest round: when the round values other than at `1` are the round
/// sums of `comb`, the values at `0` and `1` add up to the claim, and the
/// claim is the hypercube sum of `f` on the tables, the round polynomial at
/// a challenge `c` is the hypercube sum on the tables folded at `c`.
proof fn lemma_round_complete<C: FpConfig<N>, const N: usize, F: Fn(&[Fp<C, N>]) -> Fp<C, N>>(
    comb: F,
    f: spec_fn(Seq<int>) -> int,
    d: nat,
    tables: Seq<Seq<int>>,
    size: nat,
    e: Seq<int>,
    h: int,
    c: int,
)
    requires
        pm::<C, N>() > 2,
        size >= 2,
        size % 2 == 0,
        tables.len() > 0,
        forall|m: int| 0 <= m < tables.len() ==> (#[trigger] tables[m]).len() == size,
        forall|m: int| 0 <= m < tables.len() ==> reduced_seq(#[trigger] tables[m], pm::<C, N>()),
        comb_computes(comb, f),
        low_degree_on_lines(f, d, tables.len(), pm::<C, N>()),
        e.len() == d + 1,
        d >= 1,
        forall|t: int| 0 <= t <= d && t != 1 ==> #[trigger] round_value(comb, tables, t, e[t]),
        (e[0] + e[1]) % pm::<C, N>() == h,
        h == int_sum(cube_terms(f, tables, size)) % pm::<C, N>(),
        0 <= c < pm::<C, N>(),
    ensures
        crate::uni_poly::poly_value(round_coeffs::<C, N>(e), c) % pm::<C, N>() == int_sum(
            cube_terms(f, Seq::new(tables.len(), |m: int| fold_values(tables[m], c, pm::<C, N>())), size / 2),
        ) % pm::<C, N>(),
{
    let p = pm::<C, N>();
    let half = size / 2;
    let k = tables.len();
    let gs = Seq::new(half, |i: int| line_values(f, column(tables, 2 * i), column(tables, 2 * i + 1), d, p));
    let ee = Seq::new(d + 1, |t: int| int_sum(Seq::new(half, |i: int| gs[i][t])));
    let folded = Seq::new(k, |m: int| fold_values(tables[m], c, p));
    // the round points are the points on the lines
    assert forall|i: int, t: int| 0 <= i < half implies #[trigger] round_point(tables, i, t, p) == line_at(
        column(tables, 2 * i),
        column(tables, 2 * i + 1),
        t,
        p,
    ) by {
        assert(round_point(tables, i, t, p) =~= line_at(column(tables, 2 * i), column(tables, 2 * i + 1), t, p));
    }
    assert forall|i: int| 0 <= i < half implies reduced_seq(#[trigger] column(tables, 2 * i), p) && reduced_seq(
        column(tables, 2 * i + 1),
        p,
    ) by {
        assert forall|j: int| 0 <= j < k implies 0 <= #[trigger] column(tables, 2 * i)[j] < p by {
            assert(reduced_seq(tables[j], p));
        }
        assert forall|j: int| 0 <= j < k implies 0 <= #[trigger] column(tables, 2 * i + 1)[j] < p by {
            assert(reduced_seq(tables[j], p));
        }
    }
    // the values other than at 1
    assert forall|t: int| 0 <= t <= d && t != 1 implies #[trigger] (e[t] % p) == ee[t] % p by {
        assert(round_value(comb, tables, t, e[t]));
        let outs = choose|outs: Seq<Fp<C, N>>|
            outs.len() == tables[0].len() / 2 && #[trigger] round_outs(comb, tables, t, outs) && e[t]
                == int_sum(values_of(outs)) % p;
        let gt = Seq::new(half, |i: int| gs[i][t]);
        assert forall|i: int| 0 <= i < half implies #[trigger] values_of(outs)[i] % p == gt[i] % p by {
            assert(comb_yields(comb, round_point(tables, i, t, p), outs[i]));
            let v = choose|v: &[Fp<C, N>]|
                all_wf(v@) && values_of(v@) == round_point(tables, i, t, p) && #[trigger] comb.ensures((v,), outs[i]);
            assert(fv(outs[i]) == f(values_of(v@)) % p);
            assert(gs[i][t] == f(line_at(column(tables, 2 * i), column(tables, 2 * i + 1), t, p)));
            lemma_mod_twice(f(values_of(v@)), p);
        }
        lemma_int_sum_cong(values_of(outs), gt, p);
        lemma_mod_twice(int_sum(values_of(outs)), p);
    }
    // the values at 0 and 1 add up to the hypercube sum
    let s = cube_terms(f, tables, size);
    lemma_int_sum_pairs(s, half);
    assert(Seq::new(half, |i: int| s[2 * i]) =~= Seq::new(half, |i: int| gs[i][0])) by {
        assert forall|i: int| 0 <= i < half implies s[2 * i] == gs[i][0] by {
            assert(line_at(column(tables, 2 * i), column(tables, 2 * i + 1), 0, p) =~= column(tables, 2 * i)) by {
                assert forall|j: int| 0 <= j < k implies #[trigger] line_at(
                    column(tables, 2 * i),
                    column(tables, 2 * i + 1),
                    0,
                    p,
                )[j] == column(tables, 2 * i)[j] by {
                    assert(reduced_seq(column(tables, 2 * i), p));
                    lemma_small_mod(column(tables, 2 * i)[j] as nat, p as nat);
                }
            }
        }
    }
    assert(Seq::new(half, |i: int| s[2 * i + 1]) =~= Seq::new(half, |i: int| gs[i][1])) by {
        assert forall|i: int| 0 <= i < half implies s[2 * i + 1] == gs[i][1] by {
            assert(line_at(column(tables, 2 * i), column(tables, 2 * i + 1), 1, p) =~= column(tables, 2 * i + 1))
                by {
                assert forall|j: int| 0 <= j < k implies #[trigger] line_at(
                    column(tables, 2 * i),
                    column(tables, 2 * i + 1),
                    1,
                    p,
                )[j] == column(tables, 2 * i + 1)[j] by {
                    assert(reduced_seq(column(tables, 2 * i + 1), p));
                    lemma_small_mod(column(tables, 2 * i + 1)[j] as nat, p as nat);
                }
            }
        }
    }
    assert(ee[0] + ee[1] == int_sum(s));
    assert(e[0] % p == ee[0] % p);
    lemma_sub_mod_noop(e[0] + e[1], e[0], p);
    lemma_sub_mod_noop(ee[0] + ee[1], ee[0], p);
    lemma_mod_twice(int_sum(s), p);
    assert(e[1] % p == ee[1] % p);
    // interpolation
    lemma_lagrange_coeffs_value(e, p, c);
    lemma_lagrange_sum_cong(e, ee, d + 1, d + 1, c, p);
    lemma_lagrange_of_sums(gs, half, d, c, p);
    let lv = Seq::new(half, |i: int| lagrange_value(gs[i], c, p));
    let fl = cube_terms(f, folded, half);
    assert forall|i: int| 0 <= i < half implies #[trigger] lv[i] % p == fl[i] % p by {
        assert(reduced_seq(column(tables, 2 * i), p));
        assert(lagrange_value(line_values(f, column(tables, 2 * i), column(tables, 2 * i + 1), d, p), c, p) % p
            == f(line_at(column(tables, 2 * i), column(tables, 2 * i + 1), c, p)) % p);
        assert(line_at(column(tables, 2 * i), column(tables, 2 * i + 1), c, p) =~= column(folded, i)) by {
            assert forall|j: int| 0 <= j < k implies #[trigger] line_at(
                column(tables, 2 * i),
                column(tables, 2 * i + 1),
                c,
                p,
            )[j] == column(folded, i)[j] by {
                let x = tables[j][2 * i];
                let y = tables[j][2 * i + 1];
                assert((1 - c) * x + c * y == x + c * (y - x)) by (nonlinear_arith);
            }
        }
    }
    lemma_int_sum_cong(lv, fl, p);
}

/// Every entry of a value taken modulo `p` lies in `0..p`.
proof fn lemma_mod_range(x: int, p: int)
    requires
        p > 0,
    ensures
        0 <= x % p < p,
{
    lemma_fundamental_div_mod(x, p);
    lemma_mod_bound(x, p);
}

/// Replaying draws one challenge per round.
proof fn lemma_replay_len<C: FpConfig<N>, const N: usize>(rounds: Seq<Seq<int>>, h: int, state: Seq<u8>)
    ensures
        replay_rounds::<C, N>(rounds, h, state).1.len() == rounds.len(),
    decreases rounds.len(),
{
    if rounds.len() > 0 {
        lemma_replay_len::<C, N>(rounds.drop_last(), h, state);
    }
}

/// After `rounds`, the claim that replaying them reaches is the hypercube
/// sum of `f` on the tables folded at the challenges drawn so far.
proof fn lemma_complete_prefix<C: FpConfig<N>, const N: usize, F: Fn(&[Fp<C, N>]) -> Fp<C, N>>(
    polys: Seq<DenseMultilinearPoly<C, N>>,
    comb: F,
    f: spec_fn(Seq<int>) -> int,
    d: nat,
    n: nat,
    claim: int,
    rounds: Seq<Seq<int>>,
    state: Seq<u8>,
)
    requires
        pm::<C, N>() > 2,
        polys.len() > 0,
        forall|m: int| 0 <= m < polys.len() ==> (#[trigger] polys[m]).mle_wf(),
        forall|m: int| 0 <= m < polys.len() ==> (#[trigger] polys[m]).spec_vars() == n,
        rounds.len() <= n,
        d >= 1,
        forall|k: int| 0 <= k < rounds.len() ==> (#[trigger] rounds[k]).len() == d + 1,
        comb_computes(comb, f),
        low_degree_on_lines(f, d, polys.len(), pm::<C, N>()),
        claim == int_sum(cube_terms(f, tables_at(polys, Seq::empty()), pow2(n))) % pm::<C, N>(),
        honest_rounds::<C, N>(rounds, claim, state),
        forall|k: int, t: int|
            0 <= k < rounds.len() && 0 <= t <= d && t != 1 ==> #[trigger] round_value(
                comb,
                tables_at(polys, replay_rounds::<C, N>(rounds, claim, state).1.take(k)),
                t,
                rounds[k][t],
            ),
    ensures
        ({
            let rep = replay_rounds::<C, N>(rounds, claim, state);
            let tabs = tables_at(polys, rep.1);
            &&& rep.1.len() == rounds.len()
            &&& reduced_seq(rep.1, pm::<C, N>())
            &&& forall|m: int| 0 <= m < polys.len() ==> (#[trigger] tabs[m]).len() == pow2((n - rounds.len()) as nat)
            &&& forall|m: int| 0 <= m < polys.len() ==> reduced_seq(#[trigger] tabs[m], pm::<C, N>())
            &&& rep.0 == int_sum(cube_terms(f, tabs, pow2((n - rounds.len()) as nat))) % pm::<C, N>()
        }),
    decreases rounds.len(),
{
    let p = pm::<C, N>();
    let rep = replay_rounds::<C, N>(rounds, claim, state);
    if rounds.len() == 0 {
        let tabs = tables_at(polys, rep.1);
        assert(rep.1 =~= Seq::<int>::empty());
        assert forall|m: int| 0 <= m < polys.len() implies reduced_seq(#[trigger] tabs[m], p) by {
            assert(tabs[m] == polys[m].spec_table());
            assert forall|j: int| 0 <= j < tabs[m].len() implies 0 <= #[trigger] tabs[m][j] < p by {
                crate::helpers::lemma_reduced(polys[m].spec_evals()[j]);
            }
        }
        assert(reduced_seq(rep.1, p));
    } else {
        let l = rounds.len();
        let prev_rounds = rounds.drop_last();
        let prev = replay_rounds::<C, N>(prev_rounds, claim, state);
        let e = rounds.last();
        assert(rep.1 == prev.1.push(round_challenge::<C, N>(e, prev.2)));
        lemma_replay_len::<C, N>(prev_rounds, claim, state);
        assert forall|k: int, t: int|
            0 <= k < prev_rounds.len() && 0 <= t <= d && t != 1 implies #[trigger] round_value(
                comb,
                tables_at(polys, prev.1.take(k)),
                t,
                prev_rounds[k][t],
            ) by {
            assert(rep.1.take(k) =~= prev.1.take(k));
            assert(round_value(comb, tables_at(polys, rep.1.take(k)), t, rounds[k][t]));
        }
        lemma_complete_prefix(polys, comb, f, d, n, claim, prev_rounds, state);
        let tabs = tables_at(polys, prev.1);
        let size = pow2((n - (l - 1)) as nat);
        lemma_pow2_unfold((n - (l - 1)) as nat);
        lemma_pow2_pos((n - l) as nat);
        assert(size / 2 == pow2((n - l) as nat));
        assert forall|t: int| 0 <= t <= d && t != 1 implies #[trigger] round_value(comb, tabs, t, e[t]) by {
            assert(rep.1.take(l - 1) =~= prev.1);
            assert(round_value(comb, tables_at(polys, rep.1.take(l - 1)), t, rounds[l - 1][t]));
        }
        let c = round_challenge::<C, N>(e, prev.2);
        lemma_mod_range(
            crate::bytes::be_value(
                crate::transcript::challenge_bytes(
                    crate::sumcheck::round_absorbed::<C, N>(e, prev.2),
                    crate::sumcheck::challenge_r_label(),
                    crate::transcript::challenge_len::<C, N>(),
                ),
            ) as int,
            p,
        );
        lemma_round_complete::<C, N, F>(comb, f, d, tabs, size, e, prev.0, c);
        let next = tables_at(polys, rep.1);
        assert(rep.1.drop_last() =~= prev.1);
        assert(next =~= Seq::new(tabs.len(), |m: int| fold_values(tabs[m], c, p)));
        assert forall|m: int| 0 <= m < polys.len() implies reduced_seq(#[trigger] next[m], p) && next[m].len()
            == pow2((n - l) as nat) by {
            assert forall|j: int| 0 <= j < next[m].len() implies 0 <= #[trigger] next[m][j] < p by {
                lemma_mod_range((1 - c) * tabs[m][2 * j] + c * tabs[m][2 * j + 1], p);
            }
        }
        assert forall|j: int| 0 <= j < rep.1.len() implies 0 <= #[trigger] rep.1[j] < p by {
            if j < l - 1 {
                assert(rep.1[j] == prev.1[j]);
            }
        }
    }
}

/// The completeness of the sum-check: when `comb` computes `f`, `f` has at
/// most the protocol's degree along every line, the claim is the sum of `f`
/// over the hypercube of the factors, and the rounds are the prover's
/// (their values other than at `1` are the round sums of `comb` on the
/// tables folded at the challenges before them, and each round's values at
/// `0` and `1` add up to the running claim), then replaying all the rounds
/// ends in the claim `f` of the factors' final values.
pub proof fn lemma_sumcheck_complete<C: FpConfig<N>, const N: usize, F: Fn(&[Fp<C, N>]) -> Fp<C, N>>(
    polys: Seq<DenseMultilinearPoly<C, N>>,
    comb: F,
    f: spec_fn(Seq<int>) -> int,
    degree: nat,
    claim: int,
    rounds: Seq<Seq<int>>,
    state: Seq<u8>,
)
    requires
        polys.len() > 0,
        forall|m: int| 0 <= m < polys.len() ==> (#[trigger] polys[m]).mle_wf(),
        forall|m: int| 0 <= m < polys.len() ==> (#[trigger] polys[m]).spec_vars() == polys[0].spec_vars(),
        rounds.len() == polys[0].spec_vars(),
        degree >= 1,
        forall|k: int| 0 <= k < rounds.len() ==> (#[trigger] rounds[k]).len() == degree + 1,
        comb_computes(comb, f),
        low_degree_on_lines(f, degree, polys.len(), pm::<C, N>()),
        claim == int_sum(
            cube_terms(f, tables_at(polys, Seq::empty()), pow2(polys[0].spec_vars())),
        ) % pm::<C, N>(),
        honest_rounds::<C, N>(rounds, claim, state),
        forall|k: int, t: int|
            0 <= k < rounds.len() && 0 <= t <= degree && t != 1 ==> #[trigger] round_value(
                comb,
                tables_at(polys, replay_rounds::<C, N>(rounds, claim, state).1.take(k)),
                t,
                rounds[k][t],
            ),
    ensures
        ({
            let rep = replay_rounds::<C, N>(rounds, claim, state);
            rep.0 == f(
                Seq::new(polys.len(), |m: int| fold_all(polys[m].spec_table(), rep.1, pm::<C, N>())[0]),
            ) % pm::<C, N>()
        }),
{
    lemma_pm_pos::<C, N>();
    let n = polys[0].spec_vars();
    lemma_complete_prefix(polys, comb, f, degree, n, claim, rounds, state);
    let rep = replay_rounds::<C, N>(rounds, claim, state);
    let tabs = tables_at(polys, rep.1);
    assert(pow2(0) == 1) by {
        lemma2_to64();
    }
    let terms = cube_terms(f, tabs, 1);
    assert(terms.drop_last() =~= Seq::<int>::empty());
    assert(terms.len() == 1);
    assert(int_sum(terms.drop_last()) == 0);
    assert(int_sum(terms) == terms[0]);
    assert((n - rounds.len()) as nat == 0);
    assert(column(tabs, 0) =~= Seq::new(polys.len(), |m: int| fold_all(polys[m].spec_table(), rep.1, pm::<C, N>())[0]));
}

/// Before round `l` of an honest zero-knowledge run, the claim is the
/// hypercube sum of `f` on the tables folded at the challenges before it.
proof fn lemma_zk_prefix<F: Fn(&[Fr]) -> Fr>(
    key: ZkSumcheckKey,
    polys: Seq<DenseMultilinearPoly<Bls12381FrConfig, 4>>,
    comb: F,
    f: spec_fn(Seq<int>) -> int,
    n: nat,
    claim: int,
    r: Seq<int>,
    rounds: Seq<Seq<int>>,
    final_claim: int,
    l: nat,
)
    requires
        polys.len() > 0,
        forall|m: int| 0 <= m < polys.len() ==> (#[trigger] polys[m]).mle_wf(),
        forall|m: int| 0 <= m < polys.len() ==> (#[trigger] polys[m]).spec_vars() == n,
        r.len() == n,
        reduced_seq(r, fr_modulus() as int),
        l <= r.len(),
        key_degree(key) >= 1,
        comb_computes(comb, f),
        low_degree_on_lines(f, key_degree(key), polys.len(), fr_modulus() as int),
        claim == int_sum(cube_terms(f, tables_at(polys, Seq::empty()), pow2(n))) % (fr_modulus() as int),
        zk_rounds_hold(key, comb, polys, claim, r, rounds, final_claim),
    ensures
        ({
            let tabs = tables_at(polys, r.take(l as int));
            &&& forall|m: int| 0 <= m < polys.len() ==> (#[trigger] tabs[m]).len() == pow2((n - l) as nat)
            &&& forall|m: int| 0 <= m < polys.len() ==> reduced_seq(#[trigger] tabs[m], fr_modulus() as int)
            &&& zk_claim_before(rounds, claim, r, l as int) == int_sum(cube_terms(f, tabs, pow2((n - l) as nat)))
                % (fr_modulus() as int)
        }),
    decreases l,
{
    let p = fr_modulus() as int;
    lemma_fr_modulus();
    lemma_pm_pos::<Bls12381FrConfig, 4>();
    if l == 0 {
        let tabs = tables_at(polys, r.take(0));
        assert(r.take(0) =~= Seq::<int>::empty());
        assert forall|m: int| 0 <= m < polys.len() implies reduced_seq(#[trigger] tabs[m], p) by {
            assert(tabs[m] == polys[m].spec_table());
            assert forall|j: int| 0 <= j < tabs[m].len() implies 0 <= #[trigger] tabs[m][j] < p by {
                crate::helpers::lemma_reduced(polys[m].spec_evals()[j]);
            }
        }
    } else {
        let k = (l - 1) as nat;
        lemma_zk_prefix(key, polys, comb, f, n, claim, r, rounds, final_claim, k);
        let tabs = tables_at(polys, r.take(k as int));
        let size = pow2((n - k) as nat);
        lemma_pow2_unfold((n - k) as nat);
        lemma_pow2_pos((n - l) as nat);
        let ki = k as int;
        assert(0 <= ki < rounds.len());
        assert(zk_round_values(
            comb,
            tables_at(polys, r.take(ki)),
            key_degree(key),
            zk_claim_before(rounds, claim, r, ki),
            r[ki],
            zk_claim_before(rounds, claim, r, ki + 1),
            rounds[ki],
        ));
        assert(ki + 1 == l as int);
        let e = rounds[k as int];
        let c = r[k as int];
        lemma_round_complete::<Bls12381FrConfig, 4, F>(
            comb,
            f,
            key_degree(key),
            tabs,
            size,
            e,
            zk_claim_before(rounds, claim, r, k as int),
            c,
        );
        let next = tables_at(polys, r.take(l as int));
        assert(r.take(l as int).drop_last() =~= r.take(k as int));
        assert(next =~= Seq::new(tabs.len(), |m: int| fold_values(tabs[m], c, p)));
        assert forall|m: int| 0 <= m < polys.len() implies reduced_seq(#[trigger] next[m], p) && next[m].len()
            == pow2((n - l) as nat) by {
            assert forall|j: int| 0 <= j < next[m].len() implies 0 <= #[trigger] next[m][j] < p by {
                lemma_mod_range((1 - c) * tabs[m][2 * j] + c * tabs[m][2 * j + 1], p);
            }
        }
    }
}

/// The completeness of the zero-knowledge sum-check: when `comb` computes
/// `f`, `f` has at most the key's degree along every line, and the claim is
/// the sum of `f` over the hypercube of the factors, an honest run (the
/// rounds that the prover commits to, with the claims they pass on) ends in
/// the final claim `f` of the factors' values at the challenges.
pub proof fn lemma_zk_sumcheck_complete<F: Fn(&[Fr]) -> Fr>(
    key: ZkSumcheckKey,
    polys: Seq<DenseMultilinearPoly<Bls12381FrConfig, 4>>,
    comb: F,
    f: spec_fn(Seq<int>) -> int,
    claim: int,
    r: Seq<int>,
    rounds: Seq<Seq<int>>,
    final_claim: int,
)
    requires
        polys.len() > 0,
        forall|m: int| 0 <= m < polys.len() ==> (#[trigger] polys[m]).mle_wf(),
        forall|m: int| 0 <= m < polys.len() ==> (#[trigger] polys[m]).spec_vars() == polys[0].spec_vars(),
        r.len() == polys[0].spec_vars(),
        reduced_seq(r, fr_modulus() as int),
        key_degree(key) >= 1,
        comb_computes(comb, f),
        low_degree_on_lines(f, key_degree(key), polys.len(), fr_modulus() as int),
        claim == int_sum(
            cube_terms(f, tables_at(polys, Seq::empty()), pow2(polys[0].spec_vars())),
        ) % (fr_modulus() as int),
        zk_rounds_hold(key, comb, polys, claim, r, rounds, final_claim),
    ensures
        final_claim == f(
            Seq::new(polys.len(), |m: int| fold_all(polys[m].spec_table(), r, fr_modulus() as int)[0]),
        ) % (fr_modulus() as int),
{
    let n = polys[0].spec_vars();
    lemma_fr_modulus();
    lemma_zk_prefix(key, polys, comb, f, n, claim, r, rounds, final_claim, n);
    assert(r.take(n as int) =~= r);
    let tabs = tables_at(polys, r);
    assert(pow2(0) == 1) by {
        lemma2_to64();
    }
    let terms = cube_terms(f, tabs, 1);
    assert(terms.drop_last() =~= Seq::<int>::empty());
    assert(terms.len() == 1);
    assert(int_sum(terms.drop_last()) == 0);
    assert(int_sum(terms) == terms[0]);
    assert(column(tabs, 0) =~= Seq::new(polys.len(), |m: int| fold_all(polys[m].spec_table(), r, fr_modulus() as int)[0]));
}

/// `value` is the round polynomial at `t` of the combination `f`: the sum,
/// modulo `p`, of `f` at the round points.
pub open spec fn round_value_of(f: spec_fn(Seq<int>) -> int, tables: Seq<Seq<int>>, t: int, p: int, value: int) -> bool {
    value == int_sum(Seq::new(tables[0].len() / 2, |i: int| f(round_point(tables, i, t, p)))) % p
}

/// A round value of a closure that computes `f` is the round value of `f`.
pub proof fn lemma_round_value_of<C: FpConfig<N>, const N: usize, F: Fn(&[Fp<C, N>]) -> Fp<C, N>>(
    comb: F,
    f: spec_fn(Seq<int>) -> int,
    tables: Seq<Seq<int>>,
    t: int,
    value: int,
)
    requires
        comb_computes(comb, f),
        round_value(comb, tables, t, value),
    ensures
        round_value_of(f, tables, t, pm::<C, N>(), value),
{
    let p = pm::<C, N>();
    lemma_pm_pos::<C, N>();
    let outs = choose|outs: Seq<Fp<C, N>>|
        outs.len() == tables[0].len() / 2 && #[trigger] round_outs(comb, tables, t, outs) && value == int_sum(
            values_of(outs),
        ) % p;
    let g = Seq::new(tables[0].len() / 2, |i: int| f(round_point(tables, i, t, p)));
    assert forall|i: int| 0 <= i < outs.len() implies #[trigger] values_of(outs)[i] % p == g[i] % p by {
        assert(comb_yields(comb, round_point(tables, i, t, p), outs[i]));
        let v = choose|v: &[Fp<C, N>]|
            all_wf(v@) && values_of(v@) == round_point(tables, i, t, p) && #[trigger] comb.ensures((v,), outs[i]);
        lemma_mod_twice(f(values_of(v@)), p);
    }
    lemma_int_sum_cong(values_of(outs), g, p);
    lemma_mod_twice(int_sum(values_of(outs)), p);
}

} // verus!
