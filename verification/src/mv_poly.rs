//! Multivariate polynomials in `N` variables over `Fp<C, L>`, kept as a list
//! of terms sorted by monomial (lexicographic order on exponent vectors),
//! with no zero coefficient and no repeated monomial.

use crate::ff::{Fp, FpConfig};
use crate::helpers::{
    fv, lemma_add_cong, lemma_mul_cong, lemma_pm_pos, lemma_reduced, pm,
};
use crate::uni_poly::values_of;
use crate::poly::{exps_add, Monomial};
use vstd::arithmetic::div_mod::*;
use vstd::arithmetic::power::*;
use vstd::prelude::*;

verus! {

/// `a < b` in lexicographic order.
pub open spec fn lex_lt(a: Seq<usize>, b: Seq<usize>) -> bool
    decreases a.len(),
{
    if a.len() == 0 || b.len() == 0 {
        false
    } else if a[0] < b[0] {
        true
    } else if a[0] > b[0] {
        false
    } else {
        lex_lt(a.drop_first(), b.drop_first())
    }
}

pub proof fn lemma_lex_irreflexive(a: Seq<usize>)
    ensures
        !lex_lt(a, a),
    decreases a.len(),
{
    if a.len() > 0 {
        lemma_lex_irreflexive(a.drop_first());
    }
}

pub proof fn lemma_lex_trans(a: Seq<usize>, b: Seq<usize>, c: Seq<usize>)
    requires
        lex_lt(a, b),
        lex_lt(b, c),
    ensures
        lex_lt(a, c),
    decreases a.len(),
{
    if a[0] == b[0] && b[0] == c[0] {
        lemma_lex_trans(a.drop_first(), b.drop_first(), c.drop_first());
    }
}

pub proof fn lemma_lex_asym(a: Seq<usize>, b: Seq<usize>)
    requires
        lex_lt(a, b),
    ensures
        !lex_lt(b, a),
        a != b,
{
    if lex_lt(b, a) {
        lemma_lex_trans(a, b, a);
        lemma_lex_irreflexive(a);
    }
    if a == b {
        lemma_lex_irreflexive(a);
    }
}

pub proof fn lemma_lex_total(a: Seq<usize>, b: Seq<usize>)
    requires
        a.len() == b.len(),
        a != b,
    ensures
        lex_lt(a, b) || lex_lt(b, a),
    decreases a.len(),
{
    if a.len() > 0 && a[0] == b[0] {
        if a.drop_first() == b.drop_first() {
            assert(a =~= seq![a[0]] + a.drop_first());
            assert(b =~= seq![b[0]] + b.drop_first());
        }
        lemma_lex_total(a.drop_first(), b.drop_first());
    } else if a.len() == 0 {
        assert(a =~= b);
    }
}

/// Equal prefixes followed by a smaller entry make a smaller sequence.
proof fn lemma_lex_at(a: Seq<usize>, b: Seq<usize>, i: int)
    requires
        0 <= i < a.len(),
        i < b.len(),
        a.take(i) == b.take(i),
        a[i] < b[i],
    ensures
        lex_lt(a, b),
    decreases i,
{
    if i > 0 {
        assert(a[0] == a.take(i)[0]);
        assert(b[0] == b.take(i)[0]);
        assert(a.drop_first().take(i - 1) =~= a.take(i).drop_first());
        assert(b.drop_first().take(i - 1) =~= b.take(i).drop_first());
        lemma_lex_at(a.drop_first(), b.drop_first(), i - 1);
    }
}

/// The three outcomes of comparing two monomials.
#[derive(Clone, Copy, Debug, PartialEq, Eq)]
pub enum MonoOrder {
    Less,
    Equal,
    Greater,
}

/// Compares exponent vectors lexicographically.
pub fn compare_monomials<const N: usize>(a: &Monomial<N>, b: &Monomial<N>) -> (r: MonoOrder)
    ensures
        (r == MonoOrder::Less) == lex_lt(a.spec_exps(), b.spec_exps()),
        (r == MonoOrder::Greater) == lex_lt(b.spec_exps(), a.spec_exps()),
        (r == MonoOrder::Equal) == (a.spec_exps() == b.spec_exps()),
{
    let ea = a.exponents();
    let eb = b.exponents();
    let mut i: usize = 0;
    proof {
        a.lemma_len();
        b.lemma_len();
    }
    while i < N
        invariant
            i <= N,
            ea@ == a.spec_exps(),
            eb@ == b.spec_exps(),
            ea@.len() == N,
            eb@.len() == N,
            ea@.take(i as int) == eb@.take(i as int),
        decreases N - i,
    {
        if ea[i] < eb[i] {
            proof {
                lemma_lex_at(ea@, eb@, i as int);
                lemma_lex_asym(ea@, eb@);
            }
            return MonoOrder::Less;
        }
        if ea[i] > eb[i] {
            proof {
                lemma_lex_at(eb@, ea@, i as int);
                lemma_lex_asym(eb@, ea@);
            }
            return MonoOrder::Greater;
        }
        proof {
            assert(ea@.take(i + 1) =~= ea@.take(i as int).push(ea@[i as int]));
            assert(eb@.take(i + 1) =~= eb@.take(i as int).push(eb@[i as int]));
        }
        i = i + 1;
    }
    proof {
        assert(ea@.take(N as int) =~= ea@);
        assert(eb@.take(N as int) =~= eb@);
        lemma_lex_irreflexive(ea@);
    }
    MonoOrder::Equal
}

/// The coefficient of the monomial `m` in a list of terms: the sum of the
/// values of the coefficients of the terms with that monomial.
pub open spec fn coeff_of<C: FpConfig<L>, const L: usize, const N: usize>(
    ts: Seq<(Monomial<N>, Fp<C, L>)>,
    m: Seq<usize>,
) -> int
    decreases ts.len(),
{
    if ts.len() == 0 {
        0
    } else {
        coeff_of(ts.drop_last(), m) + if ts.last().0.spec_exps() == m {
            fv(ts.last().1)
        } else {
            0
        }
    }
}

/// The monomials strictly increase along the list.
pub open spec fn terms_sorted<C: FpConfig<L>, const L: usize, const N: usize>(
    ts: Seq<(Monomial<N>, Fp<C, L>)>,
) -> bool {
    forall|i: int, j: int|
        0 <= i < j < ts.len() ==> lex_lt(#[trigger] ts[i].0.spec_exps(), #[trigger] ts[j].0.spec_exps())
}

/// Every coefficient is reduced and nonzero.
pub open spec fn terms_nonzero<C: FpConfig<L>, const L: usize, const N: usize>(
    ts: Seq<(Monomial<N>, Fp<C, L>)>,
) -> bool {
    forall|i: int| 0 <= i < ts.len() ==> (#[trigger] ts[i]).1.wf() && fv(ts[i].1) != 0
}

/// A canonical term list: sorted, reduced and without zero coefficients.
pub open spec fn terms_canonical<C: FpConfig<L>, const L: usize, const N: usize>(
    ts: Seq<(Monomial<N>, Fp<C, L>)>,
) -> bool {
    terms_sorted(ts) && terms_nonzero(ts)
}

/// A monomial absent from a list has coefficient zero in it.
pub proof fn lemma_coeff_absent<C: FpConfig<L>, const L: usize, const N: usize>(
    ts: Seq<(Monomial<N>, Fp<C, L>)>,
    m: Seq<usize>,
)
    requires
        forall|i: int| 0 <= i < ts.len() ==> (#[trigger] ts[i]).0.spec_exps() != m,
    ensures
        coeff_of(ts, m) == 0,
    decreases ts.len(),
{
    if ts.len() > 0 {
        assert forall|i: int| 0 <= i < ts.drop_last().len() implies (
        #[trigger] ts.drop_last()[i]).0.spec_exps() != m by {
            assert(ts[i].0.spec_exps() != m);
        }
        lemma_coeff_absent(ts.drop_last(), m);
        assert(ts[ts.len() - 1].0.spec_exps() != m);
    }
}

/// The coefficient of a monomial that appears once is that term's value.
pub proof fn lemma_coeff_single<C: FpConfig<L>, const L: usize, const N: usize>(
    ts: Seq<(Monomial<N>, Fp<C, L>)>,
    k: int,
)
    requires
        0 <= k < ts.len(),
        forall|i: int| 0 <= i < ts.len() && i != k ==> (#[trigger] ts[i]).0.spec_exps() != ts[k].0.spec_exps(),
    ensures
        coeff_of(ts, ts[k].0.spec_exps()) == fv(ts[k].1),
    decreases ts.len(),
{
    let m = ts[k].0.spec_exps();
    if k == ts.len() - 1 {
        assert forall|i: int| 0 <= i < ts.drop_last().len() implies (
        #[trigger] ts.drop_last()[i]).0.spec_exps() != m by {
            assert(ts[i].0.spec_exps() != m);
        }
        lemma_coeff_absent(ts.drop_last(), m);
    } else {
        let d = ts.drop_last();
        assert(d[k] == ts[k]);
        assert forall|i: int| 0 <= i < d.len() && i != k implies (#[trigger] d[i]).0.spec_exps()
            != d[k].0.spec_exps() by {
            assert(ts[i].0.spec_exps() != m);
        }
        lemma_coeff_single(d, k);
        assert(ts[ts.len() - 1].0.spec_exps() != m);
    }
}

/// In a sorted list, monomials are distinct.
pub proof fn lemma_sorted_distinct<C: FpConfig<L>, const L: usize, const N: usize>(
    ts: Seq<(Monomial<N>, Fp<C, L>)>,
    i: int,
    j: int,
)
    requires
        terms_sorted(ts),
        0 <= i < ts.len(),
        0 <= j < ts.len(),
        i != j,
    ensures
        ts[i].0.spec_exps() != ts[j].0.spec_exps(),
{
    if i < j {
        lemma_lex_asym(ts[i].0.spec_exps(), ts[j].0.spec_exps());
    } else {
        lemma_lex_asym(ts[j].0.spec_exps(), ts[i].0.spec_exps());
    }
}

/// Coefficients of a canonical list are reduced.
pub proof fn lemma_coeff_reduced<C: FpConfig<L>, const L: usize, const N: usize>(
    ts: Seq<(Monomial<N>, Fp<C, L>)>,
    m: Seq<usize>,
)
    requires
        terms_canonical(ts),
    ensures
        0 <= coeff_of(ts, m) < pm::<C, L>(),
{
    lemma_pm_pos::<C, L>();
    if exists|k: int| 0 <= k < ts.len() && (#[trigger] ts[k]).0.spec_exps() == m {
        let k = choose|k: int| 0 <= k < ts.len() && (#[trigger] ts[k]).0.spec_exps() == m;
        assert forall|i: int| 0 <= i < ts.len() && i != k implies (#[trigger] ts[i]).0.spec_exps()
            != ts[k].0.spec_exps() by {
            lemma_sorted_distinct(ts, i, k);
        }
        lemma_coeff_single(ts, k);
        lemma_reduced(ts[k].1);
    } else {
        lemma_coeff_absent(ts, m);
    }
}


/// The coefficient of `m` contributed by one term.
pub open spec fn term_share<C: FpConfig<L>, const L: usize, const N: usize>(
    t: (Monomial<N>, Fp<C, L>),
    m: Seq<usize>,
) -> int {
    if t.0.spec_exps() == m {
        fv(t.1)
    } else {
        0
    }
}

/// Coefficients add up over concatenation.
pub proof fn lemma_coeff_concat<C: FpConfig<L>, const L: usize, const N: usize>(
    a: Seq<(Monomial<N>, Fp<C, L>)>,
    b: Seq<(Monomial<N>, Fp<C, L>)>,
    m: Seq<usize>,
)
    ensures
        coeff_of(a + b, m) == coeff_of(a, m) + coeff_of(b, m),
    decreases b.len(),
{
    if b.len() == 0 {
        assert(a + b =~= a);
    } else {
        lemma_coeff_concat(a, b.drop_last(), m);
        assert((a + b).drop_last() =~= a + b.drop_last());
    }
}

proof fn lemma_coeff_single_term<C: FpConfig<L>, const L: usize, const N: usize>(
    t: (Monomial<N>, Fp<C, L>),
    m: Seq<usize>,
)
    ensures
        coeff_of(seq![t], m) == term_share(t, m),
{
    assert(seq![t].drop_last() =~= Seq::<(Monomial<N>, Fp<C, L>)>::empty());
    assert(coeff_of(Seq::<(Monomial<N>, Fp<C, L>)>::empty(), m) == 0);
    assert(seq![t].last() == t);
}

/// Inserting a term adds its contribution.
pub proof fn lemma_coeff_insert<C: FpConfig<L>, const L: usize, const N: usize>(
    ts: Seq<(Monomial<N>, Fp<C, L>)>,
    pos: int,
    t: (Monomial<N>, Fp<C, L>),
    m: Seq<usize>,
)
    requires
        0 <= pos <= ts.len(),
    ensures
        coeff_of(ts.insert(pos, t), m) == coeff_of(ts, m) + term_share(t, m),
{
    assert(ts.insert(pos, t) =~= ts.take(pos) + seq![t] + ts.skip(pos));
    assert(ts =~= ts.take(pos) + ts.skip(pos));
    lemma_coeff_concat(ts.take(pos) + seq![t], ts.skip(pos), m);
    lemma_coeff_concat(ts.take(pos), seq![t], m);
    lemma_coeff_concat(ts.take(pos), ts.skip(pos), m);
    lemma_coeff_single_term(t, m);
}

/// Removing a term takes its contribution away.
pub proof fn lemma_coeff_remove<C: FpConfig<L>, const L: usize, const N: usize>(
    ts: Seq<(Monomial<N>, Fp<C, L>)>,
    pos: int,
    m: Seq<usize>,
)
    requires
        0 <= pos < ts.len(),
    ensures
        coeff_of(ts.remove(pos), m) == coeff_of(ts, m) - term_share(ts[pos], m),
{
    lemma_coeff_insert(ts.remove(pos), pos, ts[pos], m);
    assert(ts.remove(pos).insert(pos, ts[pos]) =~= ts);
}

/// Replacing a term swaps its contribution.
pub proof fn lemma_coeff_update<C: FpConfig<L>, const L: usize, const N: usize>(
    ts: Seq<(Monomial<N>, Fp<C, L>)>,
    pos: int,
    t: (Monomial<N>, Fp<C, L>),
    m: Seq<usize>,
)
    requires
        0 <= pos < ts.len(),
    ensures
        coeff_of(ts.update(pos, t), m) == coeff_of(ts, m) - term_share(ts[pos], m) + term_share(t, m),
{
    lemma_coeff_remove(ts, pos, m);
    lemma_coeff_insert(ts.remove(pos), pos, t, m);
    assert(ts.remove(pos).insert(pos, t) =~= ts.update(pos, t));
}

/// Where `m` sits in a sorted term list: `Ok(pos)` if present, else
/// `Err(pos)` with every earlier monomial below `m` and every later one above.
fn search_terms<C: FpConfig<L>, const L: usize, const N: usize>(
    terms: &Vec<(Monomial<N>, Fp<C, L>)>,
    m: &Monomial<N>,
) -> (r: Result<usize, usize>)
    requires
        terms_sorted(terms@),
    ensures
        r matches Ok(pos) ==> pos < terms.len() && terms@[pos as int].0.spec_exps() == m.spec_exps(),
        r matches Err(pos) ==> pos <= terms.len() && (forall|i: int|
            0 <= i < pos ==> lex_lt(#[trigger] terms@[i].0.spec_exps(), m.spec_exps())) && (forall|
            i: int,
        |
            pos <= i < terms.len() ==> lex_lt(m.spec_exps(), #[trigger] terms@[i].0.spec_exps())),
{
    let mut lo: usize = 0;
    let mut hi: usize = terms.len();
    while lo < hi
        invariant
            lo <= hi <= terms.len(),
            terms_sorted(terms@),
            forall|i: int| 0 <= i < lo ==> lex_lt(#[trigger] terms@[i].0.spec_exps(), m.spec_exps()),
            forall|i: int|
                hi <= i < terms.len() ==> lex_lt(m.spec_exps(), #[trigger] terms@[i].0.spec_exps()),
        decreases hi - lo,
    {
        let mid = lo + (hi - lo) / 2;
        match compare_monomials(&terms[mid].0, m) {
            MonoOrder::Less => {
                proof {
                    assert forall|i: int| 0 <= i < mid + 1 implies lex_lt(
                        #[trigger] terms@[i].0.spec_exps(),
                        m.spec_exps(),
                    ) by {
                        if i < mid {
                            lemma_lex_trans(
                                terms@[i].0.spec_exps(),
                                terms@[mid as int].0.spec_exps(),
                                m.spec_exps(),
                            );
                        }
                    }
                }
                lo = mid + 1;
            },
            MonoOrder::Greater => {
                proof {
                    assert forall|i: int| mid <= i < terms.len() implies lex_lt(
                        m.spec_exps(),
                        #[trigger] terms@[i].0.spec_exps(),
                    ) by {
                        if i > mid {
                            lemma_lex_trans(
                                m.spec_exps(),
                                terms@[mid as int].0.spec_exps(),
                                terms@[i].0.spec_exps(),
                            );
                        }
                    }
                }
                hi = mid;
            },
            MonoOrder::Equal => {
                return Ok(mid);
            },
        }
    }
    Err(lo)
}

/// A monomial above every monomial of a list has coefficient zero there.
proof fn lemma_coeff_above<C: FpConfig<L>, const L: usize, const N: usize>(
    ts: Seq<(Monomial<N>, Fp<C, L>)>,
    m: Seq<usize>,
)
    requires
        forall|k: int| 0 <= k < ts.len() ==> lex_lt(#[trigger] ts[k].0.spec_exps(), m),
    ensures
        coeff_of(ts, m) == 0,
{
    assert forall|k: int| 0 <= k < ts.len() implies (#[trigger] ts[k]).0.spec_exps() != m by {
        lemma_lex_asym(ts[k].0.spec_exps(), m);
    }
    lemma_coeff_absent(ts, m);
}

/// `a + b`, or `a - b` when `sub`.
pub open spec fn plus_or_minus(a: int, b: int, sub: bool) -> int {
    if sub {
        a - b
    } else {
        a + b
    }
}

/// The negation of a nonzero residue is nonzero.
proof fn lemma_neg_nonzero(c: int, p: int)
    requires
        0 < c < p,
    ensures
        (0 - c) % p != 0,
        (0 - c) % p == p - c,
{
    lemma_fundamental_div_mod_converse(0 - c, p, -1, p - c);
}

/// Taking one more element of a list adds its share.
proof fn lemma_coeff_take_succ<C: FpConfig<L>, const L: usize, const N: usize>(
    ts: Seq<(Monomial<N>, Fp<C, L>)>,
    i: int,
    m: Seq<usize>,
)
    requires
        0 <= i < ts.len(),
    ensures
        coeff_of(ts.take(i + 1), m) == coeff_of(ts.take(i), m) + term_share(ts[i], m),
{
    assert(ts.take(i + 1).drop_last() =~= ts.take(i));
}

/// `prod_i x_i^(e_i)` over the integers.
pub open spec fn mono_value(e: Seq<usize>, x: Seq<int>) -> int
    decreases e.len(),
{
    if e.len() == 0 {
        1
    } else {
        mono_value(e.drop_last(), x.drop_last()) * pow(x[e.len() - 1], e.last() as nat)
    }
}

/// The value of a product of monomials is the product of their values,
/// where no exponent overflows.
pub proof fn lemma_mono_value_mul(a: Seq<usize>, b: Seq<usize>, x: Seq<int>)
    requires
        a.len() == b.len(),
        a.len() <= x.len(),
        forall|i: int| 0 <= i < a.len() ==> #[trigger] a[i] + b[i] <= usize::MAX,
    ensures
        mono_value(exps_add(a, b), x) == mono_value(a, x) * mono_value(b, x),
    decreases a.len(),
{
    if a.len() > 0 {
        let n = a.len() - 1;
        let xs = x.subrange(0, a.len() as int);
        assert(exps_add(a, b).drop_last() =~= exps_add(a.drop_last(), b.drop_last()));
        assert(a[n] + b[n] <= usize::MAX);
        lemma_mono_value_prefix(a, x);
        lemma_mono_value_prefix(b, x);
        lemma_mono_value_prefix(exps_add(a, b), x);
        lemma_mono_value_mul(a.drop_last(), b.drop_last(), xs.drop_last());
        lemma_pow_adds(xs[n], a[n] as nat, b[n] as nat);
        let ma = mono_value(a.drop_last(), xs.drop_last());
        let mb = mono_value(b.drop_last(), xs.drop_last());
        let pa = pow(xs[n], a[n] as nat);
        let pb = pow(xs[n], b[n] as nat);
        assert((ma * mb) * (pa * pb) == (ma * pa) * (mb * pb)) by (nonlinear_arith);
    }
}

/// Only the first `e.len()` coordinates matter.
proof fn lemma_mono_value_prefix(e: Seq<usize>, x: Seq<int>)
    requires
        e.len() <= x.len(),
    ensures
        mono_value(e, x) == mono_value(e, x.subrange(0, e.len() as int)),
    decreases e.len(),
{
    if e.len() > 0 {
        let xs = x.subrange(0, e.len() as int);
        assert(xs.drop_last() =~= x.subrange(0, e.len() - 1));
        lemma_mono_value_prefix(e.drop_last(), x);
        assert(x.subrange(0, e.len() - 1) =~= x.drop_last().subrange(0, e.len() - 1));
        lemma_mono_value_prefix(e.drop_last(), x.drop_last());
    }
}

/// `sum_k c_k * prod_i x_i^(e_ki)` over the terms, over the integers.
pub open spec fn terms_value<C: FpConfig<L>, const L: usize, const N: usize>(
    ts: Seq<(Monomial<N>, Fp<C, L>)>,
    x: Seq<int>,
) -> int
    decreases ts.len(),
{
    if ts.len() == 0 {
        0
    } else {
        terms_value(ts.drop_last(), x) + fv(ts.last().1) * mono_value(ts.last().0.spec_exps(), x)
    }
}

/// The largest exponent of variable `i` over the terms, or `0`.
pub open spec fn max_exp<C: FpConfig<L>, const L: usize, const N: usize>(
    ts: Seq<(Monomial<N>, Fp<C, L>)>,
    i: int,
) -> nat
    decreases ts.len(),
{
    if ts.len() == 0 {
        0
    } else {
        let rest = max_exp(ts.drop_last(), i);
        let e = ts.last().0.spec_exps()[i] as nat;
        if e > rest {
            e
        } else {
            rest
        }
    }
}

/// The largest total degree over the terms, or `0`.
pub open spec fn max_total<C: FpConfig<L>, const L: usize, const N: usize>(
    ts: Seq<(Monomial<N>, Fp<C, L>)>,
) -> int
    decreases ts.len(),
{
    if ts.len() == 0 {
        0
    } else {
        let rest = max_total(ts.drop_last());
        let d = crate::poly::exps_sum(ts.last().0.spec_exps());
        if d > rest {
            d
        } else {
            rest
        }
    }
}

proof fn lemma_max_exp_bound<C: FpConfig<L>, const L: usize, const N: usize>(
    ts: Seq<(Monomial<N>, Fp<C, L>)>,
    i: int,
    k: int,
)
    requires
        0 <= k < ts.len(),
    ensures
        ts[k].0.spec_exps()[i] <= max_exp(ts, i),
    decreases ts.len(),
{
    if k < ts.len() - 1 {
        lemma_max_exp_bound(ts.drop_last(), i, k);
    }
}

/// The powers `1, b, b^2, ..., b^max_degree`.
fn scalar_powers<C: FpConfig<L>, const L: usize>(base: Fp<C, L>, max_degree: usize) -> (r: Vec<
    Fp<C, L>,
>)
    requires
        base.wf(),
        max_degree < usize::MAX,
    ensures
        r.len() == max_degree + 1,
        forall|e: int| 0 <= e < r.len() ==> (#[trigger] r@[e]).wf(),
        forall|e: int| 0 <= e < r.len() ==> fv(#[trigger] r@[e]) == pow(fv(base), e as nat) % pm::<C, L>(),
{
    let mut powers: Vec<Fp<C, L>> = Vec::new();
    powers.push(Fp::<C, L>::one());
    proof {
        lemma_pm_pos::<C, L>();
        lemma_pow0(fv(base));
        lemma_small_mod(1, pm::<C, L>() as nat);
    }
    let mut exp: usize = 1;
    while exp <= max_degree
        invariant
            1 <= exp <= max_degree + 1,
            max_degree < usize::MAX,
            base.wf(),
            pm::<C, L>() > 2,
            powers.len() == exp,
            forall|e: int| 0 <= e < powers.len() ==> (#[trigger] powers@[e]).wf(),
            forall|e: int|
                0 <= e < powers.len() ==> fv(#[trigger] powers@[e]) == pow(fv(base), e as nat) % pm::<
                    C,
                    L,
                >(),
        decreases max_degree + 1 - exp,
    {
        let prev = powers[exp - 1];
        let next = prev.mul(base);
        proof {
            let p = pm::<C, L>();
            let b = fv(base);
            lemma_reduced(base);
            lemma_mod_twice(pow(b, (exp - 1) as nat), p);
            lemma_mul_cong(fv(prev), b, pow(b, (exp - 1) as nat), b, p);
            lemma_pow_adds(b, (exp - 1) as nat, 1);
            lemma_pow1(b);
        }
        powers.push(next);
        exp = exp + 1;
    }
    powers
}

/// `sum_u [t * u has exponents m] c_t * c_u` over the terms `u` of `us`.
pub open spec fn row_sum<C: FpConfig<L>, const L: usize, const N: usize>(
    t: (Monomial<N>, Fp<C, L>),
    us: Seq<(Monomial<N>, Fp<C, L>)>,
    m: Seq<usize>,
) -> int
    decreases us.len(),
{
    if us.len() == 0 {
        0
    } else {
        row_sum(t, us.drop_last(), m) + if exps_add(t.0.spec_exps(), us.last().0.spec_exps()) == m {
            fv(t.1) * fv(us.last().1)
        } else {
            0
        }
    }
}

/// The coefficient of `m` in the product of two term lists, before reduction.
pub open spec fn prod_sum<C: FpConfig<L>, const L: usize, const N: usize>(
    ts: Seq<(Monomial<N>, Fp<C, L>)>,
    us: Seq<(Monomial<N>, Fp<C, L>)>,
    m: Seq<usize>,
) -> int
    decreases ts.len(),
{
    if ts.len() == 0 {
        0
    } else {
        prod_sum(ts.drop_last(), us, m) + row_sum(ts.last(), us, m)
    }
}

/// `a` divides `m`: same length and no larger exponent anywhere.
pub open spec fn exps_le(a: Seq<usize>, m: Seq<usize>) -> bool {
    a.len() == m.len() && forall|i: int| 0 <= i < a.len() ==> #[trigger] a[i] <= m[i]
}

/// The exponents of `m / a`.
pub open spec fn exps_sub(m: Seq<usize>, a: Seq<usize>) -> Seq<usize> {
    Seq::new(m.len(), |i: int| (m[i] - a[i]) as usize)
}

/// The coefficient of `m` in the `e`-th power of the polynomial with terms
/// `us`, over the integers: `1` at the monomial `1` for `e = 0`, and for
/// `e > 0` the coefficients of the `(e - 1)`-th power multiplied by `us`.
pub open spec fn power_coeff<C: FpConfig<L>, const L: usize, const N: usize>(
    us: Seq<(Monomial<N>, Fp<C, L>)>,
    e: nat,
    m: Seq<usize>,
) -> int
    decreases e, us.len() + 1,
{
    if e == 0 {
        if m == zero_exps(N as nat) {
            1
        } else {
            0
        }
    } else {
        power_step(us, us, e, m)
    }
}

/// `sum_{v in vs, v | m} power_coeff(us, e - 1, m / v) * c_v`.
pub open spec fn power_step<C: FpConfig<L>, const L: usize, const N: usize>(
    us: Seq<(Monomial<N>, Fp<C, L>)>,
    vs: Seq<(Monomial<N>, Fp<C, L>)>,
    e: nat,
    m: Seq<usize>,
) -> int
    decreases e, vs.len(),
{
    if e == 0 || vs.len() == 0 {
        0
    } else {
        power_step(us, vs.drop_last(), e, m) + if exps_le(vs.last().0.spec_exps(), m) {
            power_coeff(us, (e - 1) as nat, exps_sub(m, vs.last().0.spec_exps())) * fv(vs.last().1)
        } else {
            0
        }
    }
}

/// `sum_{v in vs, v | m} coeff_of(ts, m / v) * c_v`.
pub open spec fn shift_sum<C: FpConfig<L>, const L: usize, const N: usize>(
    ts: Seq<(Monomial<N>, Fp<C, L>)>,
    vs: Seq<(Monomial<N>, Fp<C, L>)>,
    m: Seq<usize>,
) -> int
    decreases vs.len(),
{
    if vs.len() == 0 {
        0
    } else {
        shift_sum(ts, vs.drop_last(), m) + if exps_le(vs.last().0.spec_exps(), m) {
            coeff_of(ts, exps_sub(m, vs.last().0.spec_exps())) * fv(vs.last().1)
        } else {
            0
        }
    }
}

/// `t u = m` exactly when `u` divides `m` and `t = m / u`, when no exponent
/// of the product overflows.
proof fn lemma_exps_add_iff<const N: usize>(t: Monomial<N>, u: Monomial<N>, m: Seq<usize>)
    requires
        forall|i: int| 0 <= i < N ==> #[trigger] t.spec_exps()[i] + u.spec_exps()[i] <= usize::MAX,
    ensures
        (exps_add(t.spec_exps(), u.spec_exps()) == m) == (exps_le(u.spec_exps(), m) && t.spec_exps()
            == exps_sub(m, u.spec_exps())),
{
    t.lemma_len();
    u.lemma_len();
    let a = t.spec_exps();
    let b = u.spec_exps();
    if exps_add(a, b) == m {
        assert(exps_le(b, m));
        assert(a =~= exps_sub(m, b));
    }
    if exps_le(b, m) && a == exps_sub(m, b) {
        assert(exps_add(a, b) =~= m);
    }
}

/// One row of the product, regrouped by the factor from `vs`.
proof fn lemma_row_shift<C: FpConfig<L>, const L: usize, const N: usize>(
    t: (Monomial<N>, Fp<C, L>),
    vs: Seq<(Monomial<N>, Fp<C, L>)>,
    m: Seq<usize>,
)
    requires
        forall|l: int, i: int|
            0 <= l < vs.len() && 0 <= i < N ==> t.0.spec_exps()[i] + #[trigger] vs[l].0.spec_exps()[i]
                <= usize::MAX,
    ensures
        row_sum(t, vs, m) == shift_sum(seq![t], vs, m),
    decreases vs.len(),
{
    if vs.len() > 0 {
        let n = vs.len() - 1;
        let v = vs.last();
        lemma_row_shift(t, vs.drop_last(), m);
        assert forall|i: int| 0 <= i < N implies #[trigger] t.0.spec_exps()[i] + v.0.spec_exps()[i]
            <= usize::MAX by {
            assert(vs[n] == v);
        }
        lemma_exps_add_iff(t.0, v.0, m);
        if exps_le(v.0.spec_exps(), m) {
            let x = exps_sub(m, v.0.spec_exps());
            assert(seq![t].drop_last() =~= Seq::<(Monomial<N>, Fp<C, L>)>::empty());
            assert(coeff_of(seq![t].drop_last(), x) == 0);
            assert(seq![t].last() == t);
            assert(coeff_of(seq![t], x) == if t.0.spec_exps() == x { fv(t.1) } else { 0 });
            vstd::arithmetic::mul::lemma_mul_is_commutative(fv(t.1), fv(v.1));
        }
    }
}

/// `shift_sum` is additive in its first argument's last term.
proof fn lemma_shift_push<C: FpConfig<L>, const L: usize, const N: usize>(
    ts: Seq<(Monomial<N>, Fp<C, L>)>,
    vs: Seq<(Monomial<N>, Fp<C, L>)>,
    m: Seq<usize>,
)
    requires
        ts.len() > 0,
    ensures
        shift_sum(ts, vs, m) == shift_sum(ts.drop_last(), vs, m) + shift_sum(seq![ts.last()], vs, m),
    decreases vs.len(),
{
    if vs.len() > 0 {
        lemma_shift_push(ts, vs.drop_last(), m);
        let v = vs.last();
        if exps_le(v.0.spec_exps(), m) {
            let x = exps_sub(m, v.0.spec_exps());
            let t = ts.last();
            assert(seq![t].drop_last() =~= Seq::<(Monomial<N>, Fp<C, L>)>::empty());
            assert(coeff_of(seq![t].drop_last(), x) == 0);
            assert(seq![t].last() == t);
            assert(coeff_of(seq![t], x) == if t.0.spec_exps() == x { fv(t.1) } else { 0 });
            assert(coeff_of(ts, x) == coeff_of(ts.drop_last(), x) + coeff_of(seq![t], x));
            vstd::arithmetic::mul::lemma_mul_is_distributive_add_other_way(
                fv(v.1),
                coeff_of(ts.drop_last(), x),
                coeff_of(seq![t], x),
            );
        }
    }
}

/// The product's coefficient, regrouped by the terms of the right factor:
/// `sum_{v | m} coeff(ts, m / v) * c_v`.
proof fn lemma_prod_shift<C: FpConfig<L>, const L: usize, const N: usize>(
    ts: Seq<(Monomial<N>, Fp<C, L>)>,
    vs: Seq<(Monomial<N>, Fp<C, L>)>,
    m: Seq<usize>,
)
    requires
        product_fits(ts, vs),
    ensures
        prod_sum(ts, vs, m) == shift_sum(ts, vs, m),
    decreases ts.len(),
{
    if ts.len() == 0 {
        lemma_shift_empty(ts, vs, m);
    } else {
        let n = ts.len() - 1;
        assert(product_fits(ts.drop_last(), vs)) by {
            assert forall|k: int, l: int, i: int|
                0 <= k < ts.drop_last().len() && 0 <= l < vs.len() && 0 <= i < N implies #[trigger] ts.drop_last()[k].0.spec_exps()[i]
                    + #[trigger] vs[l].0.spec_exps()[i] <= usize::MAX by {
                assert(ts.drop_last()[k] == ts[k]);
            }
        }
        lemma_prod_shift(ts.drop_last(), vs, m);
        assert forall|l: int, i: int| 0 <= l < vs.len() && 0 <= i < N implies ts.last().0.spec_exps()[i]
            + #[trigger] vs[l].0.spec_exps()[i] <= usize::MAX by {
            assert(ts[n] == ts.last());
            assert(ts[n].0.spec_exps()[i] + vs[l].0.spec_exps()[i] <= usize::MAX);
        }
        lemma_row_shift(ts.last(), vs, m);
        lemma_shift_push(ts, vs, m);
    }
}

/// Nothing to sum over an empty left factor.
proof fn lemma_shift_empty<C: FpConfig<L>, const L: usize, const N: usize>(
    ts: Seq<(Monomial<N>, Fp<C, L>)>,
    vs: Seq<(Monomial<N>, Fp<C, L>)>,
    m: Seq<usize>,
)
    requires
        ts.len() == 0,
    ensures
        shift_sum(ts, vs, m) == 0,
    decreases vs.len(),
{
    if vs.len() > 0 {
        lemma_shift_empty(ts, vs.drop_last(), m);
    }
}

/// Where `ts` holds the `(e - 1)`-th power modulo `p`, the regrouped
/// product by `vs` is the power step modulo `p`.
proof fn lemma_shift_power<C: FpConfig<L>, const L: usize, const N: usize>(
    ts: Seq<(Monomial<N>, Fp<C, L>)>,
    us: Seq<(Monomial<N>, Fp<C, L>)>,
    vs: Seq<(Monomial<N>, Fp<C, L>)>,
    e: nat,
    m: Seq<usize>,
)
    requires
        e >= 1,
        forall|x: Seq<usize>| #[trigger] coeff_of(ts, x) % pm::<C, L>() == power_coeff(us, (e - 1) as nat, x)
            % pm::<C, L>(),
    ensures
        shift_sum(ts, vs, m) % pm::<C, L>() == power_step(us, vs, e, m) % pm::<C, L>(),
    decreases vs.len(),
{
    let p = pm::<C, L>();
    lemma_pm_pos::<C, L>();
    if vs.len() > 0 {
        lemma_shift_power(ts, us, vs.drop_last(), e, m);
        let v = vs.last();
        let a = shift_sum(ts, vs.drop_last(), m);
        let b = power_step(us, vs.drop_last(), e, m);
        if exps_le(v.0.spec_exps(), m) {
            let x = exps_sub(m, v.0.spec_exps());
            assert(coeff_of(ts, x) % p == power_coeff(us, (e - 1) as nat, x) % p);
            lemma_mul_cong(coeff_of(ts, x), fv(v.1), power_coeff(us, (e - 1) as nat, x), fv(v.1), p);
            lemma_add_cong(a, coeff_of(ts, x) * fv(v.1), b, power_coeff(us, (e - 1) as nat, x) * fv(v.1), p);
        } else {
            assert(shift_sum(ts, vs, m) == a);
            assert(power_step(us, vs, e, m) == b);
        }
    }
}

/// Multiplying the `e`-th power of a polynomial by the polynomial gives
/// the `(e + 1)`-th power: whatever term list holds the `e`-th power's
/// coefficients modulo `p`, its product by `us` holds the next power's.
pub proof fn lemma_power_times_base<C: FpConfig<L>, const L: usize, const N: usize>(
    ts: Seq<(Monomial<N>, Fp<C, L>)>,
    us: Seq<(Monomial<N>, Fp<C, L>)>,
    e: nat,
    m: Seq<usize>,
)
    requires
        product_fits(ts, us),
        forall|x: Seq<usize>| #[trigger] coeff_of(ts, x) % pm::<C, L>() == power_coeff(us, e, x) % pm::<C, L>(),
    ensures
        prod_sum(ts, us, m) % pm::<C, L>() == power_coeff(us, e + 1, m) % pm::<C, L>(),
{
    lemma_prod_shift(ts, us, m);
    lemma_shift_power(ts, us, us, e + 1, m);
    assert(power_coeff(us, e + 1, m) == power_step(us, us, e + 1, m));
}

/// The first power of a polynomial is the polynomial: its coefficients are
/// those of its terms.
pub proof fn lemma_first_power<C: FpConfig<L>, const L: usize, const N: usize>(
    us: Seq<(Monomial<N>, Fp<C, L>)>,
    m: Seq<usize>,
)
    ensures
        power_coeff(us, 1, m) == coeff_of(us, m),
{
    lemma_power_one(us, us, m);
}

/// The first power is the polynomial itself.
proof fn lemma_power_one<C: FpConfig<L>, const L: usize, const N: usize>(
    us: Seq<(Monomial<N>, Fp<C, L>)>,
    vs: Seq<(Monomial<N>, Fp<C, L>)>,
    m: Seq<usize>,
)
    ensures
        power_step(us, vs, 1, m) == coeff_of(vs, m),
    decreases vs.len(),
{
    if vs.len() > 0 {
        lemma_power_one(us, vs.drop_last(), m);
        let v = vs.last().0;
        v.lemma_len();
        if exps_le(v.spec_exps(), m) {
            let x = exps_sub(m, v.spec_exps());
            if x == zero_exps(N as nat) {
                assert(v.spec_exps() =~= m) by {
                    assert forall|i: int| 0 <= i < N implies v.spec_exps()[i] == m[i] by {
                        assert(x[i] == 0);
                    }
                }
            }
            if v.spec_exps() == m {
                assert(x =~= zero_exps(N as nat));
            }
        } else {
            if v.spec_exps() == m {
                assert(exps_le(v.spec_exps(), m));
            }
        }
        assert(power_step(us, vs, 1, m) == power_step(us, vs.drop_last(), 1, m) + if exps_le(
            v.spec_exps(),
            m,
        ) {
            power_coeff(us, 0, exps_sub(m, v.spec_exps())) * fv(vs.last().1)
        } else {
            0
        });
    }
}

/// No exponent of a product overflows.
pub open spec fn product_fits<C: FpConfig<L>, const L: usize, const N: usize>(
    ts: Seq<(Monomial<N>, Fp<C, L>)>,
    us: Seq<(Monomial<N>, Fp<C, L>)>,
) -> bool {
    forall|k: int, l: int, i: int|
        0 <= k < ts.len() && 0 <= l < us.len() && 0 <= i < N ==> #[trigger] ts[k].0.spec_exps()[i]
            + #[trigger] us[l].0.spec_exps()[i] <= usize::MAX
}

/// Every exponent of variable `i` is at most `c * max_exp(base, i)`.
pub open spec fn exps_within<C: FpConfig<L>, const L: usize, const N: usize>(
    ts: Seq<(Monomial<N>, Fp<C, L>)>,
    base: Seq<(Monomial<N>, Fp<C, L>)>,
    c: nat,
) -> bool {
    forall|k: int, i: int|
        0 <= k < ts.len() && 0 <= i < N ==> #[trigger] ts[k].0.spec_exps()[i] <= c * max_exp(base, i)
}

/// A nonzero product coefficient comes from some pair of terms.
proof fn lemma_prod_support<C: FpConfig<L>, const L: usize, const N: usize>(
    ts: Seq<(Monomial<N>, Fp<C, L>)>,
    us: Seq<(Monomial<N>, Fp<C, L>)>,
    m: Seq<usize>,
)
    requires
        prod_sum(ts, us, m) != 0,
    ensures
        exists|k: int, l: int|
            0 <= k < ts.len() && 0 <= l < us.len() && #[trigger] exps_add(
                ts[k].0.spec_exps(),
                us[l].0.spec_exps(),
            ) == m && ts[k] == ts[k] && us[l] == us[l],
    decreases ts.len(),
{
    let t = ts.last();
    if row_sum(t, us, m) != 0 {
        lemma_row_support(t, us, m);
        let l = choose|l: int|
            0 <= l < us.len() && #[trigger] exps_add(t.0.spec_exps(), us[l].0.spec_exps()) == m;
        assert(exps_add(ts[ts.len() - 1].0.spec_exps(), us[l].0.spec_exps()) == m);
    } else {
        lemma_prod_support(ts.drop_last(), us, m);
        let (k, l) = choose|k: int, l: int|
            0 <= k < ts.drop_last().len() && 0 <= l < us.len() && #[trigger] exps_add(
                ts.drop_last()[k].0.spec_exps(),
                us[l].0.spec_exps(),
            ) == m && ts.drop_last()[k] == ts.drop_last()[k] && us[l] == us[l];
        assert(ts.drop_last()[k] == ts[k]);
        assert(exps_add(ts[k].0.spec_exps(), us[l].0.spec_exps()) == m);
    }
}

proof fn lemma_row_support<C: FpConfig<L>, const L: usize, const N: usize>(
    t: (Monomial<N>, Fp<C, L>),
    us: Seq<(Monomial<N>, Fp<C, L>)>,
    m: Seq<usize>,
)
    requires
        row_sum(t, us, m) != 0,
    ensures
        exists|l: int| 0 <= l < us.len() && #[trigger] exps_add(t.0.spec_exps(), us[l].0.spec_exps()) == m,
    decreases us.len(),
{
    if exps_add(t.0.spec_exps(), us.last().0.spec_exps()) == m {
        assert(exps_add(t.0.spec_exps(), us[us.len() - 1].0.spec_exps()) == m);
    } else {
        lemma_row_support(t, us.drop_last(), m);
        let l = choose|l: int|
            0 <= l < us.drop_last().len() && #[trigger] exps_add(
                t.0.spec_exps(),
                us.drop_last()[l].0.spec_exps(),
            ) == m;
        assert(us.drop_last()[l] == us[l]);
    }
}

/// `sum_t [key(e_t) == m] c_t * factor(e_t)` over the terms.
pub open spec fn curry_sum<C: FpConfig<L>, const L: usize, const N: usize>(
    ts: Seq<(Monomial<N>, Fp<C, L>)>,
    m: Seq<usize>,
    key: spec_fn(Seq<usize>) -> Seq<usize>,
    factor: spec_fn(Seq<usize>) -> int,
) -> int
    decreases ts.len(),
{
    if ts.len() == 0 {
        0
    } else {
        curry_sum(ts.drop_last(), m, key, factor) + if key(ts.last().0.spec_exps()) == m {
            fv(ts.last().1) * factor(ts.last().0.spec_exps())
        } else {
            0
        }
    }
}

/// A single limb denotes itself.
proof fn lemma_single_limb(x: u64)
    ensures
        crate::limbs::limbs_value(seq![x]) == x,
{
    assert(seq![x].drop_last() =~= Seq::<u64>::empty());
    assert(crate::limbs::limbs_value(Seq::<u64>::empty()) == 0);
    assert(crate::limbs::base_pow(0) == 1);
    assert(seq![x].last() == x);
    assert(x as nat * 1 == x);
}

/// `prod_i values[i]^(exps[start + i])`.
fn fixed_factor<C: FpConfig<L>, const L: usize>(
    values: &[Fp<C, L>],
    exps: &[usize],
    start: usize,
) -> (r: Fp<C, L>)
    requires
        start + values.len() <= exps.len(),
        forall|i: int| 0 <= i < values.len() ==> (#[trigger] values@[i]).wf(),
    ensures
        r.wf(),
        fv(r) == mono_value(
            exps@.subrange(start as int, start + values.len()),
            values_of(values@),
        ) % pm::<C, L>(),
{
    let ghost p = pm::<C, L>();
    let ghost x = values_of(values@);
    let mut acc = Fp::<C, L>::one();
    let mut i: usize = 0;
    proof {
        lemma_pm_pos::<C, L>();
        lemma_small_mod(1, p as nat);
        assert(exps@.subrange(start as int, start as int).len() == 0);
        assert(mono_value(exps@.subrange(start as int, start as int), x.take(0)) == 1);
    }
    while i < values.len()
        invariant
            i <= values.len(),
            start + values.len() <= exps.len(),
            p == pm::<C, L>(),
            p > 2,
            x == values_of(values@),
            forall|j: int| 0 <= j < values.len() ==> (#[trigger] values@[j]).wf(),
            acc.wf(),
            fv(acc) == mono_value(exps@.subrange(start as int, start + i), x.take(i as int)) % p,
        decreases values.len() - i,
    {
        let e = exps[start + i];
        let ex: [u64; 1] = [e as u64];
        proof {
            assert(ex@ =~= seq![e as u64]);
            lemma_single_limb(e as u64);
        }
        let pw = values[i].pow(&ex);
        let ghost before = fv(acc);
        acc = acc.mul(pw);
        proof {
            let sub = exps@.subrange(start as int, start + i + 1);
            assert(sub.drop_last() =~= exps@.subrange(start as int, start + i));
            assert(x.take(i + 1).drop_last() =~= x.take(i as int));
            assert(sub.last() == e);
            assert(x.take(i + 1)[i as int] == fv(values@[i as int]));
            let mv = mono_value(exps@.subrange(start as int, start + i), x.take(i as int));
            let pv = pow(fv(values@[i as int]), e as nat);
            lemma_reduced(pw);
            lemma_mod_twice(mv, p);
            lemma_mod_twice(pv, p);
            lemma_mul_cong(before, fv(pw), mv, pv, p);
        }
        i = i + 1;
    }
    proof {
        assert(x.take(i as int) =~= x);
    }
    acc
}

/// The exponents of the monomial `1`.
pub open spec fn zero_exps(n: nat) -> Seq<usize> {
    Seq::new(n, |i: int| 0usize)
}

/// The exponents of the variable `x_index`.
pub open spec fn unit_exps(n: nat, index: int) -> Seq<usize> {
    Seq::new(
        n,
        |i: int|
            if i == index {
                1usize
            } else {
                0usize
            },
    )
}

impl<const N: usize> Monomial<N> {
    /// The value `prod_i point[i]^(e_i)`.
    pub fn eval<C: FpConfig<L>, const L: usize>(&self, point: &[Fp<C, L>; N]) -> (r: Fp<C, L>)
        requires
            forall|i: int| 0 <= i < N ==> (#[trigger] point@[i]).wf(),
        ensures
            r.wf(),
            fv(r) == mono_value(self.spec_exps(), values_of(point@)) % pm::<C, L>(),
    {
        let exps = self.exponents();
        let ghost p = pm::<C, L>();
        let ghost x = values_of(point@);
        let mut value = Fp::<C, L>::one();
        let mut i: usize = 0;
        proof {
            self.lemma_len();
            lemma_pm_pos::<C, L>();
            lemma_small_mod(1, p as nat);
            assert(exps@.take(0) =~= Seq::<usize>::empty());
            assert(mono_value(exps@.take(0), x.take(0)) == 1);
        }
        while i < N
            invariant
                i <= N,
                p == pm::<C, L>(),
                p > 2,
                x == values_of(point@),
                exps@ == self.spec_exps(),
                exps@.len() == N,
                forall|j: int| 0 <= j < N ==> (#[trigger] point@[j]).wf(),
                value.wf(),
                fv(value) == mono_value(exps@.take(i as int), x.take(i as int)) % p,
            decreases N - i,
        {
            let e = exps[i];
            let ghost before = fv(value);
            let ghost mv = mono_value(exps@.take(i as int), x.take(i as int));
            let ghost xi = fv(point@[i as int]);
            proof {
                assert(exps@.take(i + 1).drop_last() =~= exps@.take(i as int));
                assert(x.take(i + 1).drop_last() =~= x.take(i as int));
                assert(exps@.take(i + 1).last() == e);
                assert(x.take(i + 1)[i as int] == xi);
                assert(mono_value(exps@.take(i + 1), x.take(i + 1)) == mv * pow(xi, e as nat));
                lemma_reduced(point@[i as int]);
                lemma_mod_twice(mv, p);
            }
            if e == 0 {
                proof {
                    lemma_pow0(xi);
                    assert(mv * 1 == mv);
                }
            } else if e == 1 {
                value = value.mul(point[i]);
                proof {
                    lemma_pow1(xi);
                    lemma_mod_twice(xi, p);
                    lemma_mul_cong(before, xi, mv, xi, p);
                }
            } else {
                let ex: [u64; 1] = [e as u64];
                proof {
                    assert(ex@ =~= seq![e as u64]);
                    lemma_single_limb(e as u64);
                }
                let pw = point[i].pow(&ex);
                value = value.mul(pw);
                proof {
                    let pv = pow(xi, e as nat);
                    lemma_reduced(pw);
                    lemma_mod_twice(pv, p);
                    lemma_mul_cong(before, fv(pw), mv, pv, p);
                }
            }
            i = i + 1;
        }
        proof {
            assert(exps@.take(N as int) =~= exps@);
            assert(x.take(N as int) =~= x);
        }
        value
    }
}

/// A polynomial in `N` variables over `Fp<C, L>`.
#[derive(Clone, Debug, PartialEq, Eq)]
pub struct MvPolynomial<C: FpConfig<L>, const L: usize, const N: usize> {
    terms: Vec<(Monomial<N>, Fp<C, L>)>,
}

impl<C: FpConfig<L>, const L: usize, const N: usize> MvPolynomial<C, L, N> {
    /// The terms, sorted by monomial.
    pub closed spec fn spec_terms(&self) -> Seq<(Monomial<N>, Fp<C, L>)> {
        self.terms@
    }

    /// Some polynomial, for the operator specifications that claim nothing.
    pub closed spec fn spec_zero() -> Self {
        vstd::pervasive::arbitrary()
    }

    /// The representation is canonical.
    pub open spec fn poly_wf(&self) -> bool {
        terms_canonical(self.spec_terms())
    }

    /// The coefficient of the monomial with exponents `m`.
    pub open spec fn coeff(&self, m: Seq<usize>) -> int {
        coeff_of(self.spec_terms(), m)
    }

    /// The zero polynomial.
    pub fn zero() -> (r: Self)
        ensures
            r.poly_wf(),
            r.spec_terms().len() == 0,
            forall|m: Seq<usize>| #[trigger] r.coeff(m) == 0,
    {
        Self { terms: Vec::new() }
    }

    /// The polynomial `coeff * monomial`; zero when `coeff` is zero.
    pub fn term(monomial: Monomial<N>, coeff: Fp<C, L>) -> (r: Self)
        requires
            coeff.wf(),
        ensures
            r.poly_wf(),
            forall|m: Seq<usize>|
                #[trigger] r.coeff(m) == if m == monomial.spec_exps() {
                    fv(coeff)
                } else {
                    0
                },
    {
        if coeff.is_zero() {
            Self::zero()
        } else {
            let mut terms: Vec<(Monomial<N>, Fp<C, L>)> = Vec::new();
            terms.push((monomial, coeff));
            let r = Self { terms };
            proof {
                assert forall|m: Seq<usize>| #[trigger] r.coeff(m) == if m == monomial.spec_exps() {
                    fv(coeff)
                } else {
                    0
                } by {
                    lemma_coeff_single_term((monomial, coeff), m);
                    assert(r.spec_terms() =~= seq![(monomial, coeff)]);
                }
            }
            r
        }
    }

    /// The constant polynomial `coeff`.
    pub fn constant(coeff: Fp<C, L>) -> (r: Self)
        requires
            coeff.wf(),
        ensures
            r.poly_wf(),
            forall|m: Seq<usize>|
                #[trigger] r.coeff(m) == if m == zero_exps(N as nat) {
                    fv(coeff)
                } else {
                    0
                },
    {
        let one = Monomial::<N>::one();
        proof {
            assert(one.spec_exps() =~= zero_exps(N as nat));
        }
        Self::term(one, coeff)
    }

    /// The constant polynomial `1`.
    pub fn one() -> (r: Self)
        ensures
            r.poly_wf(),
            forall|m: Seq<usize>|
                #[trigger] r.coeff(m) == if m == zero_exps(N as nat) {
                    1int
                } else {
                    0
                },
    {
        Self::constant(Fp::<C, L>::one())
    }

    /// The polynomial `x_index`.
    pub fn variable(index: usize) -> (r: Self)
        requires
            index < N,
        ensures
            r.poly_wf(),
            forall|m: Seq<usize>|
                #[trigger] r.coeff(m) == if m == unit_exps(N as nat, index as int) {
                    1int
                } else {
                    0
                },
    {
        let v = Monomial::<N>::variable(index);
        proof {
            assert(v.spec_exps() =~= unit_exps(N as nat, index as int));
        }
        Self::term(v, Fp::<C, L>::one())
    }

    /// The terms, sorted by monomial.
    pub fn terms(&self) -> (r: &[(Monomial<N>, Fp<C, L>)])
        ensures
            r@ == self.spec_terms(),
    {
        self.terms.as_slice()
    }

    /// The number of terms with a nonzero coefficient.
    pub fn num_terms(&self) -> (r: usize)
        ensures
            r == self.spec_terms().len(),
    {
        self.terms.len()
    }

    /// Whether this is the zero polynomial.
    pub fn is_zero(&self) -> (r: bool)
        requires
            self.poly_wf(),
        ensures
            r == (self.spec_terms().len() == 0),
            r == (forall|m: Seq<usize>| #[trigger] self.coeff(m) == 0),
    {
        proof {
            if self.spec_terms().len() > 0 {
                let t = self.spec_terms()[0];
                assert forall|i: int| 0 <= i < self.spec_terms().len() && i != 0 implies (
                #[trigger] self.spec_terms()[i]).0.spec_exps() != self.spec_terms()[0].0.spec_exps() by {
                    lemma_sorted_distinct(self.spec_terms(), i, 0);
                }
                lemma_coeff_single(self.spec_terms(), 0);
                assert(self.coeff(t.0.spec_exps()) != 0);
            }
        }
        self.terms.len() == 0
    }

    /// Merges two canonical term lists into the canonical list of their sum,
    /// or of their difference when `subtract_rhs`.
    fn merge_terms(
        lhs: Vec<(Monomial<N>, Fp<C, L>)>,
        rhs: Vec<(Monomial<N>, Fp<C, L>)>,
        subtract_rhs: bool,
    ) -> (merged: Vec<(Monomial<N>, Fp<C, L>)>)
        requires
            terms_canonical(lhs@),
            terms_canonical(rhs@),
        ensures
            terms_canonical(merged@),
            merged.len() <= lhs.len() + rhs.len(),
            forall|m: Seq<usize>|
                #[trigger] coeff_of(merged@, m) == plus_or_minus(
                    coeff_of(lhs@, m),
                    coeff_of(rhs@, m),
                    subtract_rhs,
                ) % pm::<C, L>(),
    {
        let ghost p = pm::<C, L>();
        let mut merged: Vec<(Monomial<N>, Fp<C, L>)> = Vec::new();
        let mut i: usize = 0;
        let mut j: usize = 0;
        proof {
            lemma_pm_pos::<C, L>();
            assert forall|m: Seq<usize>| #[trigger] coeff_of(merged@, m) == plus_or_minus(
                coeff_of(lhs@.take(0), m),
                coeff_of(rhs@.take(0), m),
                subtract_rhs,
            ) % p by {
                assert(lhs@.take(0).len() == 0);
                assert(rhs@.take(0).len() == 0);
                lemma_small_mod(0, p as nat);
            }
        }
        while i < lhs.len() || j < rhs.len()
            invariant
                p == pm::<C, L>(),
                p > 2,
                i <= lhs.len(),
                j <= rhs.len(),
                merged.len() <= i + j,
                terms_canonical(lhs@),
                terms_canonical(rhs@),
                terms_canonical(merged@),
                forall|k: int|
                    0 <= k < merged.len() && i < lhs.len() ==> lex_lt(
                        #[trigger] merged@[k].0.spec_exps(),
                        lhs@[i as int].0.spec_exps(),
                    ),
                forall|k: int|
                    0 <= k < merged.len() && j < rhs.len() ==> lex_lt(
                        #[trigger] merged@[k].0.spec_exps(),
                        rhs@[j as int].0.spec_exps(),
                    ),
                forall|k: int|
                    0 <= k < i && j < rhs.len() ==> lex_lt(
                        #[trigger] lhs@[k].0.spec_exps(),
                        rhs@[j as int].0.spec_exps(),
                    ),
                forall|k: int|
                    0 <= k < j && i < lhs.len() ==> lex_lt(
                        #[trigger] rhs@[k].0.spec_exps(),
                        lhs@[i as int].0.spec_exps(),
                    ),
                forall|m: Seq<usize>|
                    #[trigger] coeff_of(merged@, m) == plus_or_minus(
                        coeff_of(lhs@.take(i as int), m),
                        coeff_of(rhs@.take(j as int), m),
                        subtract_rhs,
                    ) % p,
            decreases lhs.len() + rhs.len() - i - j,
        {
            let ghost old_merged = merged@;
            let ghost oi = i as int;
            let ghost oj = j as int;
            let take_lhs;
            let take_rhs;
            if i < lhs.len() && j < rhs.len() {
                match compare_monomials(&lhs[i].0, &rhs[j].0) {
                    MonoOrder::Less => {
                        take_lhs = true;
                        take_rhs = false;
                    },
                    MonoOrder::Greater => {
                        take_lhs = false;
                        take_rhs = true;
                    },
                    MonoOrder::Equal => {
                        take_lhs = true;
                        take_rhs = true;
                    },
                }
            } else if i < lhs.len() {
                take_lhs = true;
                take_rhs = false;
            } else {
                take_lhs = false;
                take_rhs = true;
            }
            proof {
                if take_lhs && !take_rhs && j < rhs.len() {
                    assert(lex_lt(lhs@[oi].0.spec_exps(), rhs@[oj].0.spec_exps()));
                }
                if take_rhs && !take_lhs && i < lhs.len() {
                    assert(lex_lt(rhs@[oj].0.spec_exps(), lhs@[oi].0.spec_exps()));
                }
            }
            let ghost key: Seq<usize> = if take_lhs {
                lhs@[oi].0.spec_exps()
            } else {
                rhs@[oj].0.spec_exps()
            };
            proof {
                // every term consumed so far lies below `key`
                assert forall|k: int| 0 <= k < oi implies lex_lt(
                    #[trigger] lhs@.take(oi)[k].0.spec_exps(),
                    key,
                ) by {
                    assert(lhs@.take(oi)[k] == lhs@[k]);
                    if take_lhs {
                        assert(lex_lt(lhs@[k].0.spec_exps(), lhs@[oi].0.spec_exps()));
                    } else {
                        assert(lex_lt(lhs@[k].0.spec_exps(), rhs@[oj].0.spec_exps()));
                    }
                }
                assert forall|k: int| 0 <= k < oj implies lex_lt(
                    #[trigger] rhs@.take(oj)[k].0.spec_exps(),
                    key,
                ) by {
                    assert(rhs@.take(oj)[k] == rhs@[k]);
                    if take_rhs {
                        assert(lex_lt(rhs@[k].0.spec_exps(), rhs@[oj].0.spec_exps()));
                    } else {
                        assert(lex_lt(rhs@[k].0.spec_exps(), lhs@[oi].0.spec_exps()));
                    }
                }
                lemma_coeff_above(lhs@.take(oi), key);
                lemma_coeff_above(rhs@.take(oj), key);
                assert forall|k: int| 0 <= k < old_merged.len() implies lex_lt(
                    #[trigger] old_merged[k].0.spec_exps(),
                    key,
                ) by {}
                lemma_coeff_above(old_merged, key);
            }
            let ghost mut pushed = false;
            if take_lhs && take_rhs {
                let c = if subtract_rhs {
                    lhs[i].1.sub(rhs[j].1)
                } else {
                    lhs[i].1.add(rhs[j].1)
                };
                if !c.is_zero() {
                    merged.push((lhs[i].0, c));
                    proof {
                        pushed = true;
                    }
                }
                proof {
                    lemma_reduced(c);
                    lemma_reduced(lhs@[oi].1);
                    lemma_reduced(rhs@[oj].1);
                    lemma_small_mod(0, p as nat);
                }
                i = i + 1;
                j = j + 1;
            } else if take_lhs {
                merged.push(lhs[i]);
                proof {
                    pushed = true;
                    lemma_reduced(lhs@[oi].1);
                }
                i = i + 1;
            } else {
                let c = if subtract_rhs {
                    rhs[j].1.neg()
                } else {
                    rhs[j].1
                };
                proof {
                    lemma_reduced(rhs@[oj].1);
                    lemma_reduced(c);
                    if subtract_rhs {
                        lemma_neg_nonzero(fv(rhs@[oj].1), p);
                    }
                }
                merged.push((rhs[j].0, c));
                proof {
                    pushed = true;
                }
                j = j + 1;
            }
            proof {
                assert(merged@.len() == old_merged.len() + if pushed {
                    1int
                } else {
                    0
                });
                if pushed {
                    assert(merged@.drop_last() =~= old_merged);
                    assert(merged@.last().0.spec_exps() == key);
                }
                // coefficients
                assert forall|m: Seq<usize>| #[trigger] coeff_of(merged@, m) == plus_or_minus(
                    coeff_of(lhs@.take(i as int), m),
                    coeff_of(rhs@.take(j as int), m),
                    subtract_rhs,
                ) % p by {
                    let a_old = coeff_of(lhs@.take(oi), m);
                    let b_old = coeff_of(rhs@.take(oj), m);
                    let mo = coeff_of(old_merged, m);
                    assert(mo == plus_or_minus(a_old, b_old, subtract_rhs) % p);
                    let a_new = coeff_of(lhs@.take(i as int), m);
                    let b_new = coeff_of(rhs@.take(j as int), m);
                    if take_lhs {
                        lemma_coeff_take_succ(lhs@, oi, m);
                        assert(a_new == a_old + term_share(lhs@[oi], m));
                    } else {
                        assert(lhs@.take(i as int) == lhs@.take(oi));
                    }
                    if take_rhs {
                        lemma_coeff_take_succ(rhs@, oj, m);
                        assert(b_new == b_old + term_share(rhs@[oj], m));
                    } else {
                        assert(rhs@.take(j as int) == rhs@.take(oj));
                    }
                    let mn = coeff_of(merged@, m);
                    if pushed {
                        assert(mn == mo + term_share(merged@.last(), m));
                    } else {
                        assert(merged@ == old_merged);
                    }
                    if m != key {
                        if take_lhs {
                            assert(term_share(lhs@[oi], m) == 0);
                        }
                        if take_rhs {
                            assert(term_share(rhs@[oj], m) == 0);
                        }
                        if pushed {
                            assert(term_share(merged@.last(), m) == 0);
                        }
                    } else {
                        assert(a_old == 0);
                        assert(b_old == 0);
                        assert(mo == 0);
                        lemma_small_mod(0, p as nat);
                        if take_lhs && take_rhs {
                            assert(a_new == fv(lhs@[oi].1));
                            assert(b_new == fv(rhs@[oj].1));
                        } else if take_lhs {
                            assert(a_new == fv(lhs@[oi].1));
                            assert(b_new == 0);
                            assert(mn == fv(lhs@[oi].1));
                            lemma_small_mod(fv(lhs@[oi].1) as nat, p as nat);
                        } else {
                            assert(a_new == 0);
                            assert(b_new == fv(rhs@[oj].1));
                            lemma_small_mod(fv(rhs@[oj].1) as nat, p as nat);
                        }
                    }
                }
                // sortedness and the ordering invariants
                assert forall|a: int, b: int|
                    0 <= a < b < merged@.len() implies lex_lt(
                    #[trigger] merged@[a].0.spec_exps(),
                    #[trigger] merged@[b].0.spec_exps(),
                ) by {
                    if b == old_merged.len() {
                        assert(lex_lt(old_merged[a].0.spec_exps(), key));
                    }
                }
                assert forall|k: int|
                    0 <= k < merged.len() && i < lhs.len() implies lex_lt(
                    #[trigger] merged@[k].0.spec_exps(),
                    lhs@[i as int].0.spec_exps(),
                ) by {
                    if take_lhs {
                        if k < old_merged.len() {
                            lemma_lex_trans(
                                old_merged[k].0.spec_exps(),
                                key,
                                lhs@[i as int].0.spec_exps(),
                            );
                        }
                    } else {
                        if k == old_merged.len() {
                            assert(lex_lt(key, lhs@[i as int].0.spec_exps()));
                        }
                    }
                }
                assert forall|k: int|
                    0 <= k < merged.len() && j < rhs.len() implies lex_lt(
                    #[trigger] merged@[k].0.spec_exps(),
                    rhs@[j as int].0.spec_exps(),
                ) by {
                    if take_rhs {
                        if k < old_merged.len() {
                            lemma_lex_trans(
                                old_merged[k].0.spec_exps(),
                                key,
                                rhs@[j as int].0.spec_exps(),
                            );
                        }
                    } else {
                        if k == old_merged.len() {
                            assert(lex_lt(key, rhs@[j as int].0.spec_exps()));
                        }
                    }
                }
                assert forall|k: int|
                    0 <= k < i && j < rhs.len() implies lex_lt(
                    #[trigger] lhs@[k].0.spec_exps(),
                    rhs@[j as int].0.spec_exps(),
                ) by {
                    if take_rhs {
                        assert(key == rhs@[oj].0.spec_exps());
                        assert(lex_lt(rhs@[oj].0.spec_exps(), rhs@[j as int].0.spec_exps()));
                        if k < oi {
                            assert(lex_lt(lhs@.take(oi)[k].0.spec_exps(), key));
                            lemma_lex_trans(lhs@[k].0.spec_exps(), key, rhs@[j as int].0.spec_exps());
                        }
                    }
                }
                assert forall|k: int|
                    0 <= k < j && i < lhs.len() implies lex_lt(
                    #[trigger] rhs@[k].0.spec_exps(),
                    lhs@[i as int].0.spec_exps(),
                ) by {
                    if take_lhs {
                        assert(key == lhs@[oi].0.spec_exps());
                        assert(lex_lt(lhs@[oi].0.spec_exps(), lhs@[i as int].0.spec_exps()));
                        if k < oj {
                            assert(lex_lt(rhs@.take(oj)[k].0.spec_exps(), key));
                            lemma_lex_trans(rhs@[k].0.spec_exps(), key, lhs@[i as int].0.spec_exps());
                        }
                    }
                }
            }
        }
        proof {
            assert(lhs@.take(lhs.len() as int) =~= lhs@);
            assert(rhs@.take(rhs.len() as int) =~= rhs@);
        }
        merged
    }

    /// Adds `coeff * monomial`, merging with an existing term of the same
    /// monomial and dropping the term if its coefficient becomes zero.
    pub fn add_term(&mut self, monomial: Monomial<N>, coeff: Fp<C, L>)
        requires
            old(self).poly_wf(),
            coeff.wf(),
        ensures
            final(self).poly_wf(),
            forall|m: Seq<usize>|
                #[trigger] final(self).coeff(m) == if m == monomial.spec_exps() {
                    (old(self).coeff(m) + fv(coeff)) % pm::<C, L>()
                } else {
                    old(self).coeff(m)
                },
    {
        proof {
            lemma_pm_pos::<C, L>();
            lemma_reduced(coeff);
        }
        let ghost ts = self.terms@;
        let ghost mm = monomial.spec_exps();
        if coeff.is_zero() {
            proof {
                assert forall|m: Seq<usize>| #[trigger] self.coeff(m) == if m == mm {
                    (self.coeff(m) + fv(coeff)) % pm::<C, L>()
                } else {
                    self.coeff(m)
                } by {
                    lemma_coeff_reduced(ts, m);
                    lemma_small_mod(coeff_of(ts, m) as nat, pm::<C, L>() as nat);
                }
            }
            return;
        }
        match search_terms(&self.terms, &monomial) {
            Ok(pos) => {
                let old_c = self.terms[pos].1;
                let c = old_c.add(coeff);
                proof {
                    assert forall|i: int| 0 <= i < ts.len() && i != pos implies (
                    #[trigger] ts[i]).0.spec_exps() != ts[pos as int].0.spec_exps() by {
                        lemma_sorted_distinct(ts, i, pos as int);
                    }
                    lemma_coeff_single(ts, pos as int);
                }
                if c.is_zero() {
                    self.terms.remove(pos);
                    proof {
                        assert forall|m: Seq<usize>| #[trigger] self.coeff(m) == if m == mm {
                            (coeff_of(ts, m) + fv(coeff)) % pm::<C, L>()
                        } else {
                            coeff_of(ts, m)
                        } by {
                            lemma_coeff_remove(ts, pos as int, m);
                        }
                        assert forall|i: int, j: int|
                            0 <= i < j < self.terms@.len() implies lex_lt(
                            #[trigger] self.terms@[i].0.spec_exps(),
                            #[trigger] self.terms@[j].0.spec_exps(),
                        ) by {
                            let i0 = if i < pos { i } else { i + 1 };
                            let j0 = if j < pos { j } else { j + 1 };
                            assert(self.terms@[i] == ts[i0]);
                            assert(self.terms@[j] == ts[j0]);
                        }
                    }
                } else {
                    self.terms.set(pos, (monomial, c));
                    proof {
                        lemma_reduced(old_c);
                        assert forall|m: Seq<usize>| #[trigger] self.coeff(m) == if m == mm {
                            (coeff_of(ts, m) + fv(coeff)) % pm::<C, L>()
                        } else {
                            coeff_of(ts, m)
                        } by {
                            lemma_coeff_update(ts, pos as int, (monomial, c), m);
                        }
                        assert forall|i: int, j: int|
                            0 <= i < j < self.terms@.len() implies lex_lt(
                            #[trigger] self.terms@[i].0.spec_exps(),
                            #[trigger] self.terms@[j].0.spec_exps(),
                        ) by {
                            assert(ts[i].0.spec_exps() == self.terms@[i].0.spec_exps());
                            assert(ts[j].0.spec_exps() == self.terms@[j].0.spec_exps());
                        }
                    }
                }
            },
            Err(pos) => {
                self.terms.insert(pos, (monomial, coeff));
                proof {
                    assert forall|i: int| 0 <= i < ts.len() implies (#[trigger] ts[i]).0.spec_exps()
                        != mm by {
                        if i < pos {
                            lemma_lex_asym(ts[i].0.spec_exps(), mm);
                        } else {
                            lemma_lex_asym(mm, ts[i].0.spec_exps());
                        }
                    }
                    lemma_coeff_absent(ts, mm);
                    assert forall|m: Seq<usize>| #[trigger] self.coeff(m) == if m == mm {
                        (coeff_of(ts, m) + fv(coeff)) % pm::<C, L>()
                    } else {
                        coeff_of(ts, m)
                    } by {
                        lemma_coeff_insert(ts, pos as int, (monomial, coeff), m);
                    }
                    assert forall|i: int, j: int|
                        0 <= i < j < self.terms@.len() implies lex_lt(
                        #[trigger] self.terms@[i].0.spec_exps(),
                        #[trigger] self.terms@[j].0.spec_exps(),
                    ) by {
                        if j < pos {
                        } else if j == pos {
                        } else if i < pos {
                            lemma_lex_trans(ts[i].0.spec_exps(), mm, ts[j - 1].0.spec_exps());
                        } else if i == pos {
                        } else {
                        }
                    }
                }
            },
        }
    }

    /// A copy of the term list.
    fn copy_terms(&self) -> (r: Vec<(Monomial<N>, Fp<C, L>)>)
        ensures
            r@ == self.spec_terms(),
    {
        let mut out: Vec<(Monomial<N>, Fp<C, L>)> = Vec::new();
        let mut i: usize = 0;
        while i < self.terms.len()
            invariant
                i <= self.terms.len(),
                out@ == self.terms@.take(i as int),
            decreases self.terms.len() - i,
        {
            let t = self.terms[i];
            out.push(t);
            i = i + 1;
            proof {
                assert(out@ =~= self.terms@.take(i as int));
            }
        }
        proof {
            assert(self.terms@.take(i as int) =~= self.terms@);
        }
        out
    }

    /// The canonical list with the same coefficients as `terms`: like terms
    /// are added and zero results dropped.
    fn normalize_terms(terms: Vec<(Monomial<N>, Fp<C, L>)>) -> (r: Vec<(Monomial<N>, Fp<C, L>)>)
        requires
            forall|i: int| 0 <= i < terms.len() ==> (#[trigger] terms@[i]).1.wf(),
        ensures
            terms_canonical(r@),
            forall|m: Seq<usize>| #[trigger] coeff_of(r@, m) == coeff_of(terms@, m) % pm::<C, L>(),
    {
        let mut acc = Self::zero();
        let mut i: usize = 0;
        proof {
            lemma_pm_pos::<C, L>();
            assert forall|m: Seq<usize>| #[trigger] acc.coeff(m) == coeff_of(terms@.take(0), m)
                % pm::<C, L>() by {
                assert(terms@.take(0).len() == 0);
                lemma_small_mod(0, pm::<C, L>() as nat);
            }
        }
        while i < terms.len()
            invariant
                i <= terms.len(),
                pm::<C, L>() > 2,
                forall|k: int| 0 <= k < terms.len() ==> (#[trigger] terms@[k]).1.wf(),
                acc.poly_wf(),
                forall|m: Seq<usize>|
                    #[trigger] acc.coeff(m) == coeff_of(terms@.take(i as int), m) % pm::<C, L>(),
            decreases terms.len() - i,
        {
            let t = terms[i];
            let ghost before = acc;
            acc.add_term(t.0, t.1);
            proof {
                assert forall|m: Seq<usize>| #[trigger] acc.coeff(m) == coeff_of(
                    terms@.take(i + 1),
                    m,
                ) % pm::<C, L>() by {
                    lemma_coeff_take_succ(terms@, i as int, m);
                    let c0 = coeff_of(terms@.take(i as int), m);
                    if m == t.0.spec_exps() {
                        lemma_reduced(t.1);
                        lemma_mod_twice(fv(t.1), pm::<C, L>());
                        lemma_mod_twice(c0, pm::<C, L>());
                        lemma_add_cong(
                            c0 % pm::<C, L>(),
                            fv(t.1),
                            c0,
                            fv(t.1),
                            pm::<C, L>(),
                        );
                    }
                }
            }
            i = i + 1;
        }
        proof {
            assert(terms@.take(i as int) =~= terms@);
            assert forall|m: Seq<usize>| #[trigger] coeff_of(acc.terms@, m) == coeff_of(terms@, m)
                % pm::<C, L>() by {
                assert(acc.coeff(m) == coeff_of(terms@.take(i as int), m) % pm::<C, L>());
            }
        }
        acc.terms
    }

    /// The polynomial with the given terms: like terms are added and zero
    /// coefficients dropped.
    pub fn from_terms(terms: Vec<(Monomial<N>, Fp<C, L>)>) -> (r: Self)
        requires
            forall|i: int| 0 <= i < terms.len() ==> (#[trigger] terms@[i]).1.wf(),
        ensures
            r.poly_wf(),
            forall|m: Seq<usize>| #[trigger] r.coeff(m) == coeff_of(terms@, m) % pm::<C, L>(),
    {
        Self { terms: Self::normalize_terms(terms) }
    }

    /// `self + rhs`.
    pub fn add_poly(&self, rhs: &Self) -> (r: Self)
        requires
            self.poly_wf(),
            rhs.poly_wf(),
        ensures
            r.poly_wf(),
            forall|m: Seq<usize>| #[trigger] r.coeff(m) == (self.coeff(m) + rhs.coeff(m)) % pm::<C, L>(),
    {
        Self { terms: Self::merge_terms(self.copy_terms(), rhs.copy_terms(), false) }
    }

    /// `self - rhs`.
    pub fn sub_poly(&self, rhs: &Self) -> (r: Self)
        requires
            self.poly_wf(),
            rhs.poly_wf(),
        ensures
            r.poly_wf(),
            forall|m: Seq<usize>| #[trigger] r.coeff(m) == (self.coeff(m) - rhs.coeff(m)) % pm::<C, L>(),
    {
        Self { terms: Self::merge_terms(self.copy_terms(), rhs.copy_terms(), true) }
    }

    /// `-self`.
    pub fn neg_poly(&self) -> (r: Self)
        requires
            self.poly_wf(),
        ensures
            r.poly_wf(),
            forall|m: Seq<usize>| #[trigger] r.coeff(m) == (0 - self.coeff(m)) % pm::<C, L>(),
    {
        let mut out: Vec<(Monomial<N>, Fp<C, L>)> = Vec::new();
        let mut i: usize = 0;
        proof {
            lemma_pm_pos::<C, L>();
        }
        while i < self.terms.len()
            invariant
                i <= self.terms.len(),
                pm::<C, L>() > 2,
                terms_canonical(self.terms@),
                out.len() == i,
                forall|k: int| 0 <= k < i ==> (#[trigger] out@[k]).0 == self.terms@[k].0,
                forall|k: int|
                    0 <= k < i ==> (#[trigger] out@[k]).1.wf() && fv(out@[k].1) == (0 - fv(
                        self.terms@[k].1,
                    )) % pm::<C, L>(),
            decreases self.terms.len() - i,
        {
            let t = self.terms[i];
            out.push((t.0, t.1.neg()));
            i = i + 1;
        }
        let r = Self { terms: out };
        proof {
            let p = pm::<C, L>();
            assert forall|k: int| 0 <= k < r.terms@.len() implies (#[trigger] r.terms@[k]).1.wf()
                && fv(r.terms@[k].1) != 0 by {
                lemma_reduced(self.terms@[k].1);
                lemma_neg_nonzero(fv(self.terms@[k].1), p);
            }
            assert forall|a: int, b: int| 0 <= a < b < r.terms@.len() implies lex_lt(
                #[trigger] r.terms@[a].0.spec_exps(),
                #[trigger] r.terms@[b].0.spec_exps(),
            ) by {
                assert(lex_lt(self.terms@[a].0.spec_exps(), self.terms@[b].0.spec_exps()));
            }
            assert forall|m: Seq<usize>| #[trigger] r.coeff(m) == (0 - self.coeff(m)) % p by {
                if exists|k: int| 0 <= k < self.terms@.len() && (#[trigger] self.terms@[k]).0.spec_exps() == m {
                    let k = choose|k: int| 0 <= k < self.terms@.len() && (#[trigger] self.terms@[k]).0.spec_exps() == m;
                    assert forall|i: int| 0 <= i < self.terms@.len() && i != k implies (
                    #[trigger] self.terms@[i]).0.spec_exps() != self.terms@[k].0.spec_exps() by {
                        lemma_sorted_distinct(self.terms@, i, k);
                    }
                    assert forall|i: int| 0 <= i < r.terms@.len() && i != k implies (
                    #[trigger] r.terms@[i]).0.spec_exps() != r.terms@[k].0.spec_exps() by {
                        lemma_sorted_distinct(self.terms@, i, k);
                    }
                    lemma_coeff_single(self.terms@, k);
                    lemma_coeff_single(r.terms@, k);
                } else {
                    lemma_coeff_absent(self.terms@, m);
                    assert forall|i: int| 0 <= i < r.terms@.len() implies (
                    #[trigger] r.terms@[i]).0.spec_exps() != m by {
                        assert(self.terms@[i].0.spec_exps() != m);
                    }
                    lemma_coeff_absent(r.terms@, m);
                    lemma_small_mod(0, p as nat);
                }
            }
        }
        r
    }

    /// The degree in each variable: entry `i` is the largest exponent of `x_i`
    /// (all zero for the zero polynomial).
    pub fn degrees(&self) -> (r: [usize; N])
        ensures
            forall|i: int| 0 <= i < N ==> #[trigger] r@[i] == max_exp(self.spec_terms(), i),
    {
        let mut degrees = [0usize; N];
        let mut k: usize = 0;
        while k < self.terms.len()
            invariant
                k <= self.terms.len(),
                degrees@.len() == N,
                forall|i: int|
                    0 <= i < N ==> #[trigger] degrees@[i] == max_exp(self.terms@.take(k as int), i),
            decreases self.terms.len() - k,
        {
            let exps = self.terms[k].0.exponents();
            let mut i: usize = 0;
            proof {
                self.terms@[k as int].0.lemma_len();
            }
            while i < N
                invariant
                    k < self.terms.len(),
                    i <= N,
                    degrees@.len() == N,
                    exps@ == self.terms@[k as int].0.spec_exps(),
                    exps@.len() == N,
                    forall|j: int|
                        0 <= j < i ==> #[trigger] degrees@[j] == max_exp(self.terms@.take(k + 1), j),
                    forall|j: int|
                        i <= j < N ==> #[trigger] degrees@[j] == max_exp(self.terms@.take(k as int), j),
                decreases N - i,
            {
                proof {
                    assert(self.terms@.take(k + 1).drop_last() =~= self.terms@.take(k as int));
                }
                if exps[i] > degrees[i] {
                    degrees[i] = exps[i];
                }
                i = i + 1;
            }
            k = k + 1;
        }
        proof {
            assert(self.terms@.take(k as int) =~= self.terms@);
        }
        degrees
    }

    /// The largest exponent of `x_index`; `None` for the zero polynomial.
    pub fn degree_of(&self, index: usize) -> (r: Option<usize>)
        requires
            index < N,
        ensures
            r == if self.spec_terms().len() == 0 {
                None
            } else {
                Some(max_exp(self.spec_terms(), index as int) as usize)
            },
    {
        if self.terms.len() == 0 {
            return None;
        }
        let degrees = self.degrees();
        Some(degrees[index])
    }

    /// The total degree, the largest total degree of a term; `None` for the
    /// zero polynomial.
    pub fn degree(&self) -> (r: Option<usize>)
        requires
            forall|k: int|
                0 <= k < self.spec_terms().len() ==> crate::poly::exps_sum(
                    (#[trigger] self.spec_terms()[k]).0.spec_exps(),
                ) <= usize::MAX,
        ensures
            r == if self.spec_terms().len() == 0 {
                None
            } else {
                Some(max_total(self.spec_terms()) as usize)
            },
    {
        if self.terms.len() == 0 {
            return None;
        }
        let mut best: usize = 0;
        let mut k: usize = 0;
        while k < self.terms.len()
            invariant
                k <= self.terms.len(),
                forall|j: int|
                    0 <= j < self.spec_terms().len() ==> crate::poly::exps_sum(
                        (#[trigger] self.spec_terms()[j]).0.spec_exps(),
                    ) <= usize::MAX,
                best == max_total(self.terms@.take(k as int)),
            decreases self.terms.len() - k,
        {
            proof {
                assert(self.terms@.take(k + 1).drop_last() =~= self.terms@.take(k as int));
                assert(self.terms@[k as int] == self.terms@.take(k + 1).last());
                assert(crate::poly::exps_sum(self.spec_terms()[k as int].0.spec_exps()) <= usize::MAX);
            }
            let d = self.terms[k].0.degree();
            if d > best {
                best = d;
            }
            k = k + 1;
        }
        proof {
            assert(self.terms@.take(k as int) =~= self.terms@);
        }
        Some(best)
    }

    /// Whether every variable has degree at most one.
    pub fn is_multilinear(&self) -> (r: bool)
        ensures
            r == (forall|i: int| 0 <= i < N ==> #[trigger] max_exp(self.spec_terms(), i) <= 1),
    {
        let degrees = self.degrees();
        let mut i: usize = 0;
        while i < N
            invariant
                i <= N,
                forall|j: int| 0 <= j < N ==> #[trigger] degrees@[j] == max_exp(self.spec_terms(), j),
                forall|j: int| 0 <= j < i ==> #[trigger] max_exp(self.spec_terms(), j) <= 1,
            decreases N - i,
        {
            if degrees[i] > 1 {
                assert(max_exp(self.spec_terms(), i as int) > 1);
                return false;
            }
            i = i + 1;
        }
        true
    }

    /// The value at `point`.
    pub fn eval(&self, point: &[Fp<C, L>; N]) -> (r: Fp<C, L>)
        requires
            self.poly_wf(),
            forall|i: int| 0 <= i < N ==> (#[trigger] point@[i]).wf(),
            forall|i: int| 0 <= i < N ==> #[trigger] max_exp(self.spec_terms(), i) < usize::MAX,
        ensures
            r.wf(),
            fv(r) == terms_value(self.spec_terms(), values_of(point@)) % pm::<C, L>(),
    {
        let ghost p = pm::<C, L>();
        let ghost x = values_of(point@);
        proof {
            lemma_pm_pos::<C, L>();
        }
        if self.terms.len() == 0 {
            proof {
                lemma_small_mod(0, p as nat);
            }
            return Fp::<C, L>::zero();
        }
        let degrees = self.degrees();
        let mut powers: Vec<Vec<Fp<C, L>>> = Vec::new();
        let mut i: usize = 0;
        while i < N
            invariant
                i <= N,
                p == pm::<C, L>(),
                forall|j: int| 0 <= j < N ==> (#[trigger] point@[j]).wf(),
                forall|j: int| 0 <= j < N ==> #[trigger] degrees@[j] == max_exp(self.spec_terms(), j),
                forall|j: int| 0 <= j < N ==> #[trigger] max_exp(self.spec_terms(), j) < usize::MAX,
                powers.len() == i,
                forall|j: int| 0 <= j < i ==> (#[trigger] powers@[j]).len() == degrees@[j] + 1,
                forall|j: int, e: int|
                    0 <= j < i && 0 <= e < powers@[j].len() ==> (#[trigger] powers@[j]@[e]).wf()
                        && fv(powers@[j]@[e]) == pow(fv(point@[j]), e as nat) % p,
            decreases N - i,
        {
            let row = scalar_powers(point[i], degrees[i]);
            powers.push(row);
            i = i + 1;
        }
        let mut value = Fp::<C, L>::zero();
        let mut k: usize = 0;
        proof {
            lemma_small_mod(0, p as nat);
            assert(self.terms@.take(0).len() == 0);
        }
        while k < self.terms.len()
            invariant
                k <= self.terms.len(),
                p == pm::<C, L>(),
                p > 2,
                x == values_of(point@),
                terms_canonical(self.terms@),
                forall|j: int| 0 <= j < N ==> (#[trigger] point@[j]).wf(),
                forall|j: int| 0 <= j < N ==> #[trigger] degrees@[j] == max_exp(self.terms@, j),
                powers.len() == N,
                forall|j: int| 0 <= j < N ==> (#[trigger] powers@[j]).len() == degrees@[j] + 1,
                forall|j: int, e: int|
                    0 <= j < N && 0 <= e < powers@[j].len() ==> (#[trigger] powers@[j]@[e]).wf()
                        && fv(powers@[j]@[e]) == pow(fv(point@[j]), e as nat) % p,
                value.wf(),
                fv(value) == terms_value(self.terms@.take(k as int), x) % p,
            decreases self.terms.len() - k,
        {
            let (monomial, coeff) = self.terms[k];
            let exps = monomial.exponents();
            let mut term = coeff;
            let mut i: usize = 0;
            proof {
                monomial.lemma_len();
                lemma_reduced(coeff);
                assert(exps@.take(0) =~= Seq::<usize>::empty());
                assert(mono_value(exps@.take(0), x.take(0)) == 1);
            }
            while i < N
                invariant
                    i <= N,
                    k < self.terms.len(),
                    p == pm::<C, L>(),
                    p > 2,
                    x == values_of(point@),
                    exps@ == monomial.spec_exps(),
                    exps@.len() == N,
                    monomial == self.terms@[k as int].0,
                    coeff == self.terms@[k as int].1,
                    coeff.wf(),
                    forall|j: int| 0 <= j < N ==> (#[trigger] point@[j]).wf(),
                    forall|j: int| 0 <= j < N ==> #[trigger] degrees@[j] == max_exp(self.terms@, j),
                    powers.len() == N,
                    forall|j: int| 0 <= j < N ==> (#[trigger] powers@[j]).len() == degrees@[j] + 1,
                    forall|j: int, e: int|
                        0 <= j < N && 0 <= e < powers@[j].len() ==> (#[trigger] powers@[j]@[e]).wf()
                            && fv(powers@[j]@[e]) == pow(fv(point@[j]), e as nat) % p,
                    term.wf(),
                    fv(term) == (fv(coeff) * mono_value(exps@.take(i as int), x.take(i as int))) % p,
                decreases N - i,
            {
                let e = exps[i];
                proof {
                    lemma_max_exp_bound(self.terms@, i as int, k as int);
                    assert(exps@.take(i + 1).drop_last() =~= exps@.take(i as int));
                    assert(x.take(i + 1).drop_last() =~= x.take(i as int));
                    assert(x.take(i + 1)[i as int] == fv(point@[i as int]));
                    assert(exps@.take(i + 1).last() == e);
                    assert(mono_value(exps@.take(i + 1), x.take(i + 1)) == mono_value(
                        exps@.take(i as int),
                        x.take(i as int),
                    ) * pow(fv(point@[i as int]), e as nat));
                }
                let ghost before = fv(term);
                if e != 0 {
                    let pw = powers[i][e];
                    term = term.mul(pw);
                    proof {
                        let mv = mono_value(exps@.take(i as int), x.take(i as int));
                        let pv = pow(fv(point@[i as int]), e as nat);
                        lemma_reduced(pw);
                        lemma_mod_twice(fv(coeff) * mv, p);
                        lemma_mod_twice(pv, p);
                        lemma_mul_cong(before, fv(pw), fv(coeff) * mv, pv, p);
                        vstd::arithmetic::mul::lemma_mul_is_associative(fv(coeff), mv, pv);
                    }
                } else {
                    proof {
                        lemma_pow0(fv(point@[i as int]));
                        let mv = mono_value(exps@.take(i as int), x.take(i as int));
                        assert(mv * 1 == mv);
                    }
                }
                i = i + 1;
            }
            let ghost before_value = fv(value);
            value = value.add(term);
            proof {
                assert(exps@.take(N as int) =~= exps@);
                assert(x.take(N as int) =~= x);
                assert(self.terms@.take(k + 1).drop_last() =~= self.terms@.take(k as int));
                let tv = terms_value(self.terms@.take(k as int), x);
                let mv = fv(coeff) * mono_value(exps@, x);
                lemma_mod_twice(tv, p);
                lemma_mod_twice(mv, p);
                lemma_add_cong(before_value, fv(term), tv, mv, p);
            }
            k = k + 1;
        }
        proof {
            assert(self.terms@.take(k as int) =~= self.terms@);
        }
        value
    }

    /// `self * rhs`: every pair of terms is multiplied and the products are
    /// collected by monomial.
    pub fn mul_poly(&self, rhs: &Self) -> (r: Self)
        requires
            self.poly_wf(),
            rhs.poly_wf(),
            product_fits(self.spec_terms(), rhs.spec_terms()),
        ensures
            r.poly_wf(),
            forall|m: Seq<usize>|
                #[trigger] r.coeff(m) == prod_sum(self.spec_terms(), rhs.spec_terms(), m) % pm::<
                    C,
                    L,
                >(),
    {
        let ghost p = pm::<C, L>();
        let ghost us = rhs.terms@;
        let mut acc = Self::zero();
        let mut k: usize = 0;
        proof {
            lemma_pm_pos::<C, L>();
            assert forall|m: Seq<usize>| #[trigger] acc.coeff(m) == prod_sum(
                self.terms@.take(0),
                us,
                m,
            ) % p by {
                assert(self.terms@.take(0).len() == 0);
                lemma_small_mod(0, p as nat);
            }
        }
        while k < self.terms.len()
            invariant
                k <= self.terms.len(),
                p == pm::<C, L>(),
                p > 2,
                us == rhs.terms@,
                terms_canonical(self.terms@),
                terms_canonical(us),
                product_fits(self.terms@, us),
                acc.poly_wf(),
                forall|m: Seq<usize>|
                    #[trigger] acc.coeff(m) == prod_sum(self.terms@.take(k as int), us, m) % p,
            decreases self.terms.len() - k,
        {
            let (a, ca) = self.terms[k];
            let mut l: usize = 0;
            proof {
                assert forall|m: Seq<usize>| #[trigger] acc.coeff(m) == (prod_sum(
                    self.terms@.take(k as int),
                    us,
                    m,
                ) + row_sum(self.terms@[k as int], us.take(0), m)) % p by {
                    assert(us.take(0).len() == 0);
                }
            }
            while l < rhs.terms.len()
                invariant
                    k < self.terms.len(),
                    l <= rhs.terms.len(),
                    p == pm::<C, L>(),
                    p > 2,
                    us == rhs.terms@,
                    a == self.terms@[k as int].0,
                    ca == self.terms@[k as int].1,
                    terms_canonical(self.terms@),
                    terms_canonical(us),
                    product_fits(self.terms@, us),
                    acc.poly_wf(),
                    forall|m: Seq<usize>|
                        #[trigger] acc.coeff(m) == (prod_sum(self.terms@.take(k as int), us, m)
                            + row_sum(self.terms@[k as int], us.take(l as int), m)) % p,
                decreases rhs.terms.len() - l,
            {
                let (b, cb) = rhs.terms[l];
                proof {
                    assert forall|i: int| 0 <= i < N implies #[trigger] a.spec_exps()[i]
                        + b.spec_exps()[i] <= usize::MAX by {
                        assert(self.terms@[k as int].0.spec_exps()[i] + us[l as int].0.spec_exps()[i]
                            <= usize::MAX);
                    }
                }
                let mono = a.mul(&b);
                let c = ca.mul(cb);
                let ghost before = acc;
                acc.add_term(mono, c);
                proof {
                    a.lemma_len();
                    assert(mono.spec_exps() =~= exps_add(a.spec_exps(), b.spec_exps()));
                    assert(us.take(l + 1).drop_last() =~= us.take(l as int));
                    assert(us.take(l + 1).last() == (b, cb));
                    assert forall|m: Seq<usize>| #[trigger] acc.coeff(m) == (prod_sum(
                        self.terms@.take(k as int),
                        us,
                        m,
                    ) + row_sum(self.terms@[k as int], us.take(l + 1), m)) % p by {
                        let base = prod_sum(self.terms@.take(k as int), us, m) + row_sum(
                            self.terms@[k as int],
                            us.take(l as int),
                            m,
                        );
                        if m == mono.spec_exps() {
                            lemma_reduced(ca);
                            lemma_reduced(cb);
                            lemma_mod_twice(base, p);
                            lemma_mod_twice(fv(ca) * fv(cb), p);
                            lemma_add_cong(before.coeff(m), fv(c), base, fv(ca) * fv(cb), p);
                            lemma_reduced(c);
                        }
                    }
                }
                l = l + 1;
            }
            proof {
                assert(us.take(l as int) =~= us);
                assert(self.terms@.take(k + 1).drop_last() =~= self.terms@.take(k as int));
                assert(self.terms@.take(k + 1).last() == self.terms@[k as int]);
            }
            k = k + 1;
        }
        proof {
            assert(self.terms@.take(k as int) =~= self.terms@);
        }
        acc
    }

    /// The exponents of a product are bounded by the sums of the factors' bounds.
    proof fn lemma_product_exps(a: Self, b: Self, r: Self, base: Seq<(Monomial<N>, Fp<C, L>)>, ca: nat, cb: nat)
        requires
            a.poly_wf(),
            b.poly_wf(),
            r.poly_wf(),
            product_fits(a.spec_terms(), b.spec_terms()),
            exps_within(a.spec_terms(), base, ca),
            exps_within(b.spec_terms(), base, cb),
            forall|m: Seq<usize>|
                #[trigger] r.coeff(m) == prod_sum(a.spec_terms(), b.spec_terms(), m) % pm::<C, L>(),
        ensures
            exps_within(r.spec_terms(), base, ca + cb),
    {
        let p = pm::<C, L>();
        lemma_pm_pos::<C, L>();
        assert forall|k: int, i: int| 0 <= k < r.spec_terms().len() && 0 <= i < N implies #[trigger] r.spec_terms()[k].0.spec_exps()[i]
            <= (ca + cb) * max_exp(base, i) by {
            let ts = r.spec_terms();
            let m = ts[k].0.spec_exps();
            assert forall|j: int| 0 <= j < ts.len() && j != k implies (#[trigger] ts[j]).0.spec_exps()
                != ts[k].0.spec_exps() by {
                lemma_sorted_distinct(ts, j, k);
            }
            lemma_coeff_single(ts, k);
            assert(r.coeff(m) != 0);
            if prod_sum(a.spec_terms(), b.spec_terms(), m) == 0 {
                lemma_small_mod(0, p as nat);
            }
            lemma_prod_support(a.spec_terms(), b.spec_terms(), m);
            let (x, y) = choose|x: int, y: int|
                0 <= x < a.spec_terms().len() && 0 <= y < b.spec_terms().len() && #[trigger] exps_add(
                    a.spec_terms()[x].0.spec_exps(),
                    b.spec_terms()[y].0.spec_exps(),
                ) == m && a.spec_terms()[x] == a.spec_terms()[x] && b.spec_terms()[y] == b.spec_terms()[y];
            a.spec_terms()[x].0.lemma_len();
            assert(a.spec_terms()[x].0.spec_exps()[i] + b.spec_terms()[y].0.spec_exps()[i] <= usize::MAX);
            assert(m[i] == a.spec_terms()[x].0.spec_exps()[i] + b.spec_terms()[y].0.spec_exps()[i]);
            assert(a.spec_terms()[x].0.spec_exps()[i] <= ca * max_exp(base, i));
            assert(b.spec_terms()[y].0.spec_exps()[i] <= cb * max_exp(base, i));
            assert(ca * max_exp(base, i) + cb * max_exp(base, i) == (ca + cb) * max_exp(base, i))
                by (nonlinear_arith);
        }
    }

    /// `self^exp`: the polynomial multiplied by itself `exp` times.
    pub fn pow(&self, exp: usize) -> (r: Self)
        requires
            self.poly_wf(),
            forall|i: int| 0 <= i < N ==> #[trigger] max_exp(self.spec_terms(), i) * exp <= usize::MAX,
        ensures
            r.poly_wf(),
            exp == 0 ==> forall|m: Seq<usize>|
                #[trigger] r.coeff(m) == if m == zero_exps(N as nat) {
                    1int
                } else {
                    0
                },
            exp == 1 ==> forall|m: Seq<usize>| #[trigger] r.coeff(m) == self.coeff(m),
            forall|m: Seq<usize>|
                #[trigger] r.coeff(m) == power_coeff(self.spec_terms(), exp as nat, m) % pm::<C, L>(),
    {
        let ghost us = self.terms@;
        let ghost p = pm::<C, L>();
        proof {
            lemma_pm_pos::<C, L>();
            lemma_small_mod(0, p as nat);
            lemma_small_mod(1, p as nat);
        }
        if exp == 0 {
            return Self::one();
        }
        let copy = Self { terms: self.copy_terms() };
        if exp == 1 {
            proof {
                assert forall|m: Seq<usize>| #[trigger] copy.coeff(m) == power_coeff(us, 1, m) % p by {
                    lemma_power_one(us, us, m);
                    lemma_coeff_reduced(us, m);
                    lemma_small_mod(coeff_of(us, m) as nat, p as nat);
                }
            }
            return copy;
        }
        if self.is_zero() {
            let z = Self::zero();
            proof {
                assert forall|m: Seq<usize>| #[trigger] z.coeff(m) == power_coeff(us, exp as nat, m) % p by {
                    assert(power_coeff(us, exp as nat, m) == power_step(us, us, exp as nat, m));
                }
            }
            return z;
        }
        let base = copy;
        let mut result = Self::one();
        let mut k: usize = 0;
        proof {
            assert forall|l: int, i: int| 0 <= l < base.terms@.len() && 0 <= i < N implies #[trigger] base.terms@[l].0.spec_exps()[i]
                <= 1 * max_exp(us, i) by {
                lemma_max_exp_bound(us, i, l);
            }
            assert forall|l: int, i: int| 0 <= l < result.terms@.len() && 0 <= i < N implies #[trigger] result.terms@[l].0.spec_exps()[i]
                <= 0 * max_exp(us, i) by {
                let ts = result.terms@;
                let m = ts[l].0.spec_exps();
                assert forall|j: int| 0 <= j < ts.len() && j != l implies (#[trigger] ts[j]).0.spec_exps()
                    != ts[l].0.spec_exps() by {
                    lemma_sorted_distinct(ts, j, l);
                }
                lemma_coeff_single(ts, l);
                assert(result.coeff(m) != 0);
                assert(m == zero_exps(N as nat));
                assert(m[i] == 0);
            }
            assert forall|m: Seq<usize>| #[trigger] result.coeff(m) == power_coeff(us, 0, m) % p by {}
        }
        while k < exp
            invariant
                k <= exp,
                p == pm::<C, L>(),
                p > 2,
                base.poly_wf(),
                base.terms@ == us,
                result.poly_wf(),
                exps_within(base.terms@, us, 1),
                exps_within(result.terms@, us, k as nat),
                forall|i: int| 0 <= i < N ==> #[trigger] max_exp(us, i) * exp <= usize::MAX,
                forall|m: Seq<usize>| #[trigger] result.coeff(m) == power_coeff(us, k as nat, m) % p,
            decreases exp - k,
        {
            proof {
                assert forall|a: int, l: int, i: int|
                    0 <= a < result.terms@.len() && 0 <= l < base.terms@.len() && 0 <= i < N implies #[trigger] result.terms@[a].0.spec_exps()[i]
                        + #[trigger] base.terms@[l].0.spec_exps()[i] <= usize::MAX by {
                    let mx = max_exp(us, i);
                    assert(result.terms@[a].0.spec_exps()[i] <= k * mx);
                    assert(base.terms@[l].0.spec_exps()[i] <= 1 * mx);
                    assert(k * mx + 1 * mx <= mx * exp) by (nonlinear_arith)
                        requires
                            k + 1 <= exp,
                    ;
                }
            }
            let next = result.mul_poly(&base);
            proof {
                Self::lemma_product_exps(result, base, next, us, k as nat, 1);
                let ts = result.terms@;
                assert forall|x: Seq<usize>| #[trigger] coeff_of(ts, x) % p == power_coeff(us, k as nat, x) % p by {
                    assert(result.coeff(x) == power_coeff(us, k as nat, x) % p);
                    lemma_coeff_reduced(ts, x);
                    lemma_small_mod(coeff_of(ts, x) as nat, p as nat);
                    lemma_mod_twice(power_coeff(us, k as nat, x), p);
                }
                assert forall|m: Seq<usize>| #[trigger] next.coeff(m) == power_coeff(us, (k + 1) as nat, m) % p by {
                    lemma_prod_shift(ts, us, m);
                    lemma_shift_power(ts, us, us, (k + 1) as nat, m);
                    lemma_mod_twice(shift_sum(ts, us, m), p);
                    assert(power_coeff(us, (k + 1) as nat, m) == power_step(us, us, (k + 1) as nat, m));
                }
            }
            result = next;
            k = k + 1;
        }
        result
    }

    /// Fixes the leading `K` variables to `values`, leaving a polynomial in
    /// the remaining `M` variables: `Q(y) = P(values, y)`. Not
    /// defined unless `K + M == N`.
    pub fn curry_prefix<const K: usize, const M: usize>(&self, values: &[Fp<C, L>; K]) -> (r:
        MvPolynomial<C, L, M>)
        requires
            K + M == N,
            self.poly_wf(),
            forall|i: int| 0 <= i < K ==> (#[trigger] values@[i]).wf(),
        ensures
            r.poly_wf(),
            forall|m: Seq<usize>|
                #[trigger] r.coeff(m) == curry_sum(
                    self.spec_terms(),
                    m,
                    |e: Seq<usize>| e.subrange(K as int, N as int),
                    |e: Seq<usize>| mono_value(e.subrange(0, K as int), values_of(values@)),
                ) % pm::<C, L>(),
    {
        let ghost key = |e: Seq<usize>| e.subrange(K as int, N as int);
        let ghost factor = |e: Seq<usize>| mono_value(e.subrange(0, K as int), values_of(values@));
        let mut result = MvPolynomial::<C, L, M>::zero();
        let mut k: usize = 0;
        proof {
            lemma_pm_pos::<C, L>();
            assert forall|m: Seq<usize>| #[trigger] result.coeff(m) == curry_sum(
                self.terms@.take(0),
                m,
                key,
                factor,
            ) % pm::<C, L>() by {
                assert(self.terms@.take(0).len() == 0);
                lemma_small_mod(0, pm::<C, L>() as nat);
            }
        }
        while k < self.terms.len()
            invariant
                k <= self.terms.len(),
                K + M == N,
                pm::<C, L>() > 2,
                terms_canonical(self.terms@),
                forall|i: int| 0 <= i < K ==> (#[trigger] values@[i]).wf(),
                key == (|e: Seq<usize>| e.subrange(K as int, N as int)),
                factor == (|e: Seq<usize>| mono_value(e.subrange(0, K as int), values_of(values@))),
                result.poly_wf(),
                forall|m: Seq<usize>|
                    #[trigger] result.coeff(m) == curry_sum(self.terms@.take(k as int), m, key, factor)
                        % pm::<C, L>(),
            decreases self.terms.len() - k,
        {
            let (monomial, coeff) = self.terms[k];
            let exps = monomial.exponents();
            proof {
                monomial.lemma_len();
            }
            let fixed = fixed_factor(values, exps, 0);
            let mut rest = [0usize; M];
            let mut j: usize = 0;
            while j < M
                invariant
                    j <= M,
                    K + M == N,
                    exps@.len() == N,
                    rest@.len() == M,
                    forall|q: int| 0 <= q < j ==> #[trigger] rest@[q] == exps@[K + q],
                decreases M - j,
            {
                rest[j] = exps[K + j];
                j = j + 1;
            }
            let mono = Monomial::<M>::new(rest);
            let c = coeff.mul(fixed);
            let ghost before = result;
            result.add_term(mono, c);
            proof {
                let p = pm::<C, L>();
                assert(mono.spec_exps() =~= key(exps@));
                assert(exps@.subrange(0, K as int) == exps@.subrange(0, 0 + K));
                assert(values_of(values@).len() == K);
                assert forall|m: Seq<usize>| #[trigger] result.coeff(m) == curry_sum(
                    self.terms@.take(k + 1),
                    m,
                    key,
                    factor,
                ) % p by {
                    assert(self.terms@.take(k + 1).drop_last() =~= self.terms@.take(k as int));
                    assert(self.terms@.take(k + 1).last() == (monomial, coeff));
                    let c0 = curry_sum(self.terms@.take(k as int), m, key, factor);
                    if m == mono.spec_exps() {
                        let fval = factor(exps@);
                        lemma_reduced(coeff);
                        lemma_reduced(fixed);
                        lemma_mod_twice(c0, p);
                        lemma_mod_twice(fval, p);
                        lemma_mul_cong(fv(coeff), fv(fixed), fv(coeff), fval, p);
                        lemma_mod_twice(fv(coeff) * fval, p);
                        lemma_add_cong(before.coeff(m), fv(c), c0, fv(coeff) * fval, p);
                    }
                }
            }
            k = k + 1;
        }
        proof {
            assert(self.terms@.take(k as int) =~= self.terms@);
        }
        result
    }

    /// Fixes the trailing `K` variables to `values`, leaving a polynomial in
    /// the leading `M` variables: `Q(y) = P(y, values)`. Not defined
    /// unless `M + K == N`.
    pub fn curry_suffix<const K: usize, const M: usize>(&self, values: &[Fp<C, L>; K]) -> (r:
        MvPolynomial<C, L, M>)
        requires
            M + K == N,
            self.poly_wf(),
            forall|i: int| 0 <= i < K ==> (#[trigger] values@[i]).wf(),
        ensures
            r.poly_wf(),
            forall|m: Seq<usize>|
                #[trigger] r.coeff(m) == curry_sum(
                    self.spec_terms(),
                    m,
                    |e: Seq<usize>| e.subrange(0, M as int),
                    |e: Seq<usize>| mono_value(e.subrange(M as int, N as int), values_of(values@)),
                ) % pm::<C, L>(),
    {
        let ghost key = |e: Seq<usize>| e.subrange(0, M as int);
        let ghost factor = |e: Seq<usize>| mono_value(e.subrange(M as int, N as int), values_of(values@));
        let mut result = MvPolynomial::<C, L, M>::zero();
        let mut k: usize = 0;
        proof {
            lemma_pm_pos::<C, L>();
            assert forall|m: Seq<usize>| #[trigger] result.coeff(m) == curry_sum(
                self.terms@.take(0),
                m,
                key,
                factor,
            ) % pm::<C, L>() by {
                assert(self.terms@.take(0).len() == 0);
                lemma_small_mod(0, pm::<C, L>() as nat);
            }
        }
        while k < self.terms.len()
            invariant
                k <= self.terms.len(),
                M + K == N,
                pm::<C, L>() > 2,
                terms_canonical(self.terms@),
                forall|i: int| 0 <= i < K ==> (#[trigger] values@[i]).wf(),
                key == (|e: Seq<usize>| e.subrange(0, M as int)),
                factor == (|e: Seq<usize>| mono_value(e.subrange(M as int, N as int), values_of(values@))),
                result.poly_wf(),
                forall|m: Seq<usize>|
                    #[trigger] result.coeff(m) == curry_sum(self.terms@.take(k as int), m, key, factor)
                        % pm::<C, L>(),
            decreases self.terms.len() - k,
        {
            let (monomial, coeff) = self.terms[k];
            let exps = monomial.exponents();
            proof {
                monomial.lemma_len();
            }
            let fixed = fixed_factor(values, exps, M);
            let mut rest = [0usize; M];
            let mut j: usize = 0;
            while j < M
                invariant
                    j <= M,
                    M + K == N,
                    exps@.len() == N,
                    rest@.len() == M,
                    forall|q: int| 0 <= q < j ==> #[trigger] rest@[q] == exps@[q],
                decreases M - j,
            {
                rest[j] = exps[j];
                j = j + 1;
            }
            let mono = Monomial::<M>::new(rest);
            let c = coeff.mul(fixed);
            let ghost before = result;
            result.add_term(mono, c);
            proof {
                let p = pm::<C, L>();
                assert(mono.spec_exps() =~= key(exps@));
                assert(values_of(values@).len() == K);
                assert(exps@.subrange(M as int, N as int) == exps@.subrange(M as int, M + K));
                assert forall|m: Seq<usize>| #[trigger] result.coeff(m) == curry_sum(
                    self.terms@.take(k + 1),
                    m,
                    key,
                    factor,
                ) % p by {
                    assert(self.terms@.take(k + 1).drop_last() =~= self.terms@.take(k as int));
                    assert(self.terms@.take(k + 1).last() == (monomial, coeff));
                    let c0 = curry_sum(self.terms@.take(k as int), m, key, factor);
                    if m == mono.spec_exps() {
                        let fval = factor(exps@);
                        lemma_reduced(coeff);
                        lemma_reduced(fixed);
                        lemma_mod_twice(c0, p);
                        lemma_mod_twice(fval, p);
                        lemma_mul_cong(fv(coeff), fv(fixed), fv(coeff), fval, p);
                        lemma_mod_twice(fv(coeff) * fval, p);
                        lemma_add_cong(before.coeff(m), fv(c), c0, fv(coeff) * fval, p);
                    }
                }
            }
            k = k + 1;
        }
        proof {
            assert(self.terms@.take(k as int) =~= self.terms@);
        }
        result
    }

    /// Fixes `x_index` to `value` and removes it: `Q(x_0, .., x_{N-2})` is
    /// `P` with `value` inserted at position `index`. Not defined on
    /// an index out of range; the result has `M = N - 1` variables.
    pub fn curry_variable<const M: usize>(&self, index: usize, value: Fp<C, L>) -> (r:
        MvPolynomial<C, L, M>)
        requires
            M + 1 == N,
            index < N,
            self.poly_wf(),
            value.wf(),
        ensures
            r.poly_wf(),
            forall|m: Seq<usize>|
                #[trigger] r.coeff(m) == curry_sum(
                    self.spec_terms(),
                    m,
                    |e: Seq<usize>| e.remove(index as int),
                    |e: Seq<usize>| pow(fv(value), e[index as int] as nat),
                ) % pm::<C, L>(),
    {
        let ghost key = |e: Seq<usize>| e.remove(index as int);
        let ghost factor = |e: Seq<usize>| pow(fv(value), e[index as int] as nat);
        let mut result = MvPolynomial::<C, L, M>::zero();
        let mut k: usize = 0;
        proof {
            lemma_pm_pos::<C, L>();
            assert forall|m: Seq<usize>| #[trigger] result.coeff(m) == curry_sum(
                self.terms@.take(0),
                m,
                key,
                factor,
            ) % pm::<C, L>() by {
                assert(self.terms@.take(0).len() == 0);
                lemma_small_mod(0, pm::<C, L>() as nat);
            }
        }
        while k < self.terms.len()
            invariant
                k <= self.terms.len(),
                M + 1 == N,
                index < N,
                pm::<C, L>() > 2,
                value.wf(),
                terms_canonical(self.terms@),
                key == (|e: Seq<usize>| e.remove(index as int)),
                factor == (|e: Seq<usize>| pow(fv(value), e[index as int] as nat)),
                result.poly_wf(),
                forall|m: Seq<usize>|
                    #[trigger] result.coeff(m) == curry_sum(self.terms@.take(k as int), m, key, factor)
                        % pm::<C, L>(),
            decreases self.terms.len() - k,
        {
            let (monomial, coeff) = self.terms[k];
            let exps = monomial.exponents();
            proof {
                monomial.lemma_len();
            }
            let ex: [u64; 1] = [exps[index] as u64];
            proof {
                assert(ex@ =~= seq![exps@[index as int] as u64]);
                lemma_single_limb(exps@[index as int] as u64);
            }
            let fixed = value.pow(&ex);
            let mut rest = [0usize; M];
            let mut old_i: usize = 0;
            while old_i < N
                invariant
                    old_i <= N,
                    M + 1 == N,
                    index < N,
                    exps@.len() == N,
                    rest@.len() == M,
                    forall|q: int| 0 <= q < old_i && q < index ==> #[trigger] rest@[q] == exps@[q],
                    forall|q: int| index < q < old_i ==> #[trigger] rest@[q - 1] == exps@[q],
                decreases N - old_i,
            {
                if old_i != index {
                    let new_i = if old_i < index {
                        old_i
                    } else {
                        old_i - 1
                    };
                    rest[new_i] = exps[old_i];
                }
                old_i = old_i + 1;
            }
            let mono = Monomial::<M>::new(rest);
            let c = coeff.mul(fixed);
            let ghost before = result;
            result.add_term(mono, c);
            proof {
                let p = pm::<C, L>();
                assert forall|q: int| 0 <= q < M implies #[trigger] mono.spec_exps()[q] == key(
                    exps@,
                )[q] by {
                    if q < index {
                    } else {
                        assert(rest@[(q + 1) - 1] == exps@[q + 1]);
                    }
                }
                assert(mono.spec_exps() =~= key(exps@));
                assert forall|m: Seq<usize>| #[trigger] result.coeff(m) == curry_sum(
                    self.terms@.take(k + 1),
                    m,
                    key,
                    factor,
                ) % p by {
                    assert(self.terms@.take(k + 1).drop_last() =~= self.terms@.take(k as int));
                    assert(self.terms@.take(k + 1).last() == (monomial, coeff));
                    let c0 = curry_sum(self.terms@.take(k as int), m, key, factor);
                    if m == mono.spec_exps() {
                        let fval = factor(exps@);
                        lemma_reduced(coeff);
                        lemma_reduced(fixed);
                        lemma_mod_twice(c0, p);
                        lemma_mod_twice(fval, p);
                        lemma_mul_cong(fv(coeff), fv(fixed), fv(coeff), fval, p);
                        lemma_mod_twice(fv(coeff) * fval, p);
                        lemma_add_cong(before.coeff(m), fv(c), c0, fv(coeff) * fval, p);
                    }
                }
            }
            k = k + 1;
        }
        proof {
            assert(self.terms@.take(k as int) =~= self.terms@);
        }
        result
    }

    /// `scalar * self`, leaving `self` as it is.
    pub fn scale_ref(&self, scalar: Fp<C, L>) -> (r: Self)
        requires
            self.poly_wf(),
            scalar.wf(),
        ensures
            r.poly_wf(),
            forall|m: Seq<usize>|
                #[trigger] r.coeff(m) == (self.coeff(m) * fv(scalar)) % pm::<C, L>(),
    {
        let copy = Self { terms: self.copy_terms() };
        copy.scale(scalar)
    }

    /// `scalar * self`.
    pub fn scale(self, scalar: Fp<C, L>) -> (r: Self)
        requires
            self.poly_wf(),
            scalar.wf(),
        ensures
            r.poly_wf(),
            forall|m: Seq<usize>|
                #[trigger] r.coeff(m) == (self.coeff(m) * fv(scalar)) % pm::<C, L>(),
    {
        let ghost p = pm::<C, L>();
        proof {
            lemma_pm_pos::<C, L>();
        }
        if scalar.is_zero() {
            let r = Self::zero();
            proof {
                assert forall|m: Seq<usize>| #[trigger] r.coeff(m) == (self.coeff(m) * fv(scalar)) % p by {
                    lemma_small_mod(0, p as nat);
                    assert(self.coeff(m) * 0 == 0);
                }
            }
            return r;
        }
        if scalar.is_one() {
            proof {
                assert forall|m: Seq<usize>| #[trigger] self.coeff(m) == (self.coeff(m) * fv(scalar)) % p by {
                    lemma_coeff_reduced(self.terms@, m);
                    lemma_small_mod(self.coeff(m) as nat, p as nat);
                    assert(fv(scalar) == 1);
                    assert(self.coeff(m) * 1 == self.coeff(m));
                }
            }
            return self;
        }
        let mut acc = Self::zero();
        let mut k: usize = 0;
        proof {
            assert forall|m: Seq<usize>| #[trigger] acc.coeff(m) == (coeff_of(self.terms@.take(0), m)
                * fv(scalar)) % p by {
                assert(self.terms@.take(0).len() == 0);
                lemma_small_mod(0, p as nat);
                assert(0 * fv(scalar) == 0);
            }
        }
        while k < self.terms.len()
            invariant
                k <= self.terms.len(),
                p == pm::<C, L>(),
                p > 2,
                scalar.wf(),
                terms_canonical(self.terms@),
                acc.poly_wf(),
                forall|m: Seq<usize>|
                    #[trigger] acc.coeff(m) == (coeff_of(self.terms@.take(k as int), m) * fv(scalar))
                        % p,
            decreases self.terms.len() - k,
        {
            let (mono, c) = self.terms[k];
            let cs = c.mul(scalar);
            let ghost before = acc;
            acc.add_term(mono, cs);
            proof {
                assert forall|m: Seq<usize>| #[trigger] acc.coeff(m) == (coeff_of(
                    self.terms@.take(k + 1),
                    m,
                ) * fv(scalar)) % p by {
                    lemma_coeff_take_succ(self.terms@, k as int, m);
                    let c0 = coeff_of(self.terms@.take(k as int), m);
                    if m == mono.spec_exps() {
                        lemma_reduced(c);
                        lemma_reduced(cs);
                        lemma_mod_twice(c0 * fv(scalar), p);
                        lemma_mod_twice(fv(c) * fv(scalar), p);
                        lemma_add_cong(
                            before.coeff(m),
                            fv(cs),
                            c0 * fv(scalar),
                            fv(c) * fv(scalar),
                            p,
                        );
                        assert(c0 * fv(scalar) + fv(c) * fv(scalar) == (c0 + fv(c)) * fv(scalar))
                            by (nonlinear_arith);
                    }
                }
            }
            k = k + 1;
        }
        proof {
            assert(self.terms@.take(k as int) =~= self.terms@);
        }
        acc
    }

    /// Whether this is the constant polynomial `1`.
    pub fn is_one_polynomial(&self) -> (r: bool)
        requires
            self.poly_wf(),
        ensures
            r == (self.spec_terms().len() == 1 && (forall|i: int|
                0 <= i < N ==> #[trigger] self.spec_terms()[0].0.spec_exps()[i] == 0) && fv(
                self.spec_terms()[0].1,
            ) == 1),
    {
        if self.terms.len() != 1 {
            return false;
        }
        let t = self.terms[0];
        if !t.0.is_one() {
            return false;
        }
        t.1.is_one()
    }
}

impl<C: FpConfig<L>, const L: usize, const N: usize> Default for MvPolynomial<C, L, N> {
    fn default() -> (r: Self)
        ensures
            r.poly_wf(),
            r.spec_terms().len() == 0,
    {
        Self::zero()
    }
}

} // verus!
