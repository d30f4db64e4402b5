//! Univariate polynomials over the field, by coefficients or by values.

use crate::ff::{Fp, FpConfig};
use crate::helpers::{
    all_wf, fv, lemma_add_cong, lemma_mul_cong, lemma_reduced, lemma_sub_cong, pm,
};
use vstd::arithmetic::div_mod::*;
use vstd::arithmetic::mul::*;
use vstd::prelude::*;

verus! {

/// `sum_i cs[i] * x^i` over the integers.
pub open spec fn poly_value(cs: Seq<int>, x: int) -> int
    decreases cs.len(),
{
    if cs.len() == 0 {
        0
    } else {
        cs[0] + x * poly_value(cs.drop_first(), x)
    }
}

/// The values of a sequence of field elements, as integers.
pub open spec fn values_of<C: FpConfig<N>, const N: usize>(s: Seq<Fp<C, N>>) -> Seq<int> {
    s.map_values(|e: Fp<C, N>| fv(e))
}

/// A univariate polynomial over `Fp<C, N>`.
pub trait UniPoly<C: FpConfig<N>, const N: usize>: Sized {
    /// The representation is valid: nonempty, with reduced entries.
    spec fn poly_wf(&self) -> bool;

    /// The degree bound: one less than the number of stored entries.
    spec fn spec_degree(&self) -> nat;

    /// The value of the polynomial at the integer `x`, reduced modulo `p`.
    spec fn value_at(&self, x: int) -> int;

    fn degree(&self) -> (r: usize)
        requires
            self.poly_wf(),
        ensures
            r == self.spec_degree(),
    ;

    fn eval(&self, point: Fp<C, N>) -> (r: Fp<C, N>)
        requires
            self.poly_wf(),
            point.wf(),
        ensures
            r.wf(),
            fv(r) == self.value_at(fv(point)),
    ;
}

/// The polynomial `sum_i coeffs[i] * x^i`.
#[derive(Clone, Debug)]
pub struct CoeffsUniPoly<C: FpConfig<N>, const N: usize> {
    coeffs: Vec<Fp<C, N>>,
}

impl<C: FpConfig<N>, const N: usize> CoeffsUniPoly<C, N> {
    /// The coefficients, lowest degree first.
    pub closed spec fn spec_coeffs(&self) -> Seq<Fp<C, N>> {
        self.coeffs@
    }

    /// Panics on an empty coefficient list; here that input is excluded.
    pub fn new(coeffs: Vec<Fp<C, N>>) -> (r: Self)
        requires
            coeffs.len() > 0,
        ensures
            r.spec_coeffs() == coeffs@,
    {
        Self { coeffs }
    }

    pub fn coeffs(&self) -> (r: &[Fp<C, N>])
        ensures
            r@ == self.spec_coeffs(),
    {
        self.coeffs.as_slice()
    }
}

impl<C: FpConfig<N>, const N: usize> UniPoly<C, N> for CoeffsUniPoly<C, N> {
    open spec fn poly_wf(&self) -> bool {
        self.spec_coeffs().len() > 0 && all_wf(self.spec_coeffs())
    }

    open spec fn spec_degree(&self) -> nat {
        (self.spec_coeffs().len() - 1) as nat
    }

    open spec fn value_at(&self, x: int) -> int {
        poly_value(values_of(self.spec_coeffs()), x) % pm::<C, N>()
    }

    fn degree(&self) -> (r: usize) {
        self.coeffs.len() - 1
    }

    /// Horner's rule, from the highest coefficient down.
    fn eval(&self, point: Fp<C, N>) -> (r: Fp<C, N>) {
        let ghost cs = values_of(self.coeffs@);
        let ghost x = fv(point);
        let ghost p = pm::<C, N>();
        let n = self.coeffs.len();
        let mut value = Fp::<C, N>::zero();
        let mut i: usize = n;
        proof {
            value.lemma_value_bound();
            assert(cs.subrange(n as int, n as int).len() == 0);
            lemma_small_mod(0, p as nat);
        }
        while i > 0
            invariant
                0 <= i <= n,
                n == self.coeffs.len(),
                cs == values_of(self.coeffs@),
                all_wf(self.coeffs@),
                point.wf(),
                x == fv(point),
                p == pm::<C, N>(),
                p > 1,
                value.wf(),
                fv(value) == poly_value(cs.subrange(i as int, n as int), x) % p,
            decreases i,
        {
            let ghost before = fv(value);
            let prod = value.mul(point);
            let c = self.coeffs[i - 1];
            value = prod.add(c);
            proof {
                let tail = cs.subrange(i as int, n as int);
                let longer = cs.subrange(i - 1, n as int);
                assert(longer.drop_first() =~= tail);
                assert(longer[0] == fv(c));
                c.lemma_value_bound();
                lemma_horner_step(poly_value(tail, x), x, fv(c), p);
            }
            i = i - 1;
        }
        proof {
            assert(cs.subrange(0, n as int) =~= cs);
        }
        value
    }
}

/// One Horner step commutes with reduction: `((t mod p) * x mod p + c) mod p`
/// equals `(c + x * t) mod p`.
proof fn lemma_horner_step(t: int, x: int, c: int, p: int)
    requires
        p > 0,
        0 <= c < p,
    ensures
        (((t % p) * x) % p + c) % p == (c + x * t) % p,
{
    lemma_mul_mod_noop_left(t, x, p);
    lemma_small_mod(c as nat, p as nat);
    lemma_add_mod_noop(t * x, c, p);
    lemma_mul_is_commutative(t, x);
}


/// `c * (x - a)`, coefficient by coefficient: entry `d` is `c[d - 1] - a c[d]`,
/// with the missing entries read as zero.
pub open spec fn mul_linear(c: Seq<int>, a: int) -> Seq<int> {
    Seq::new(
        c.len() + 1,
        |d: int|
            (if d >= 1 {
                c[d - 1]
            } else {
                0
            }) - a * (if d < c.len() {
                c[d]
            } else {
                0
            }),
    )
}

/// `s` with `v` added to its constant coefficient.
pub open spec fn add_first(s: Seq<int>, v: int) -> Seq<int> {
    s.update(0, s[0] + v)
}

proof fn lemma_poly_value_add_first(s: Seq<int>, v: int, t: int)
    requires
        s.len() > 0,
    ensures
        poly_value(add_first(s, v), t) == poly_value(s, t) + v,
{
    assert(add_first(s, v).drop_first() =~= s.drop_first());
}

/// Multiplying the coefficients by a linear factor multiplies the values.
pub proof fn lemma_mul_linear(c: Seq<int>, a: int, t: int)
    ensures
        poly_value(mul_linear(c, a), t) == poly_value(c, t) * (t - a),
    decreases c.len(),
{
    let m = mul_linear(c, a);
    if c.len() == 0 {
        assert(m.drop_first() =~= Seq::<int>::empty());
        assert(poly_value(m.drop_first(), t) == 0);
        assert(m[0] == 0 - a * 0);
        assert(t * 0 == 0);
    } else {
        let r = c.drop_first();
        lemma_mul_linear(r, a, t);
        let mr = mul_linear(r, a);
        assert(m.drop_first() =~= add_first(mr, c[0]));
        lemma_poly_value_add_first(mr, c[0], t);
        let pr = poly_value(r, t);
        assert(m[0] == 0 - a * c[0]);
        assert(poly_value(m.drop_first(), t) == pr * (t - a) + c[0]);
        assert(poly_value(m, t) == m[0] + t * poly_value(m.drop_first(), t));
        assert(poly_value(m, t) == (0 - a * c[0]) + t * (pr * (t - a) + c[0]));
        assert((0 - a * c[0]) + t * (pr * (t - a) + c[0]) == (c[0] + t * pr) * (t - a))
            by (nonlinear_arith);
    }
}

/// Coefficientwise congruent polynomials have congruent values.
pub proof fn lemma_poly_value_cong(c: Seq<int>, d: Seq<int>, t: int, p: int)
    requires
        p > 0,
        c.len() == d.len(),
        forall|i: int| 0 <= i < c.len() ==> #[trigger] c[i] % p == d[i] % p,
    ensures
        poly_value(c, t) % p == poly_value(d, t) % p,
    decreases c.len(),
{
    if c.len() > 0 {
        assert forall|i: int| 0 <= i < c.len() - 1 implies #[trigger] c.drop_first()[i] % p
            == d.drop_first()[i] % p by {
            assert(c[i + 1] % p == d[i + 1] % p);
        }
        lemma_poly_value_cong(c.drop_first(), d.drop_first(), t, p);
        assert(c[0] % p == d[0] % p);
        crate::helpers::lemma_mul_cong(
            t,
            poly_value(c.drop_first(), t),
            t,
            poly_value(d.drop_first(), t),
            p,
        );
        crate::helpers::lemma_add_cong(
            c[0],
            t * poly_value(c.drop_first(), t),
            d[0],
            t * poly_value(d.drop_first(), t),
            p,
        );
    }
}

/// `a + s * b`, coefficient by coefficient, for equally long `a` and `b`.
pub open spec fn add_scaled(a: Seq<int>, b: Seq<int>, s: int) -> Seq<int> {
    Seq::new(a.len(), |i: int| a[i] + s * b[i])
}

/// Values are linear in the coefficients.
pub proof fn lemma_poly_value_add_scaled(a: Seq<int>, b: Seq<int>, s: int, t: int)
    requires
        a.len() == b.len(),
    ensures
        poly_value(add_scaled(a, b, s), t) == poly_value(a, t) + s * poly_value(b, t),
    decreases a.len(),
{
    if a.len() > 0 {
        let sa = add_scaled(a, b, s);
        assert(sa.drop_first() =~= add_scaled(a.drop_first(), b.drop_first(), s));
        lemma_poly_value_add_scaled(a.drop_first(), b.drop_first(), s, t);
        let pa = poly_value(a.drop_first(), t);
        let pb = poly_value(b.drop_first(), t);
        assert(a[0] + s * b[0] + t * (pa + s * pb) == a[0] + t * pa + s * (b[0] + t * pb))
            by (nonlinear_arith);
    }
}

/// `prod_{j < m, j != i} (t - j)`.
pub open spec fn node_product(i: int, m: nat, t: int) -> int
    decreases m,
{
    if m == 0 {
        1
    } else if m - 1 == i {
        node_product(i, (m - 1) as nat, t)
    } else {
        node_product(i, (m - 1) as nat, t) * (t - (m - 1))
    }
}

/// The Lagrange denominator of node `i` among the nodes `0..n`.
pub open spec fn node_denominator(i: int, n: nat) -> int {
    node_product(i, n, i)
}

/// What `inverse` computes for `d`: `(d mod p)^(p - 2) mod p`.
pub open spec fn inv_value(d: int, p: int) -> int {
    vstd::arithmetic::power::pow(d % p, (p - 2) as nat) % p
}

/// `sum_{k < m} e[k] * inv(d_k) * prod_{j != k} (t - j)` over the nodes `0..n`.
pub open spec fn lagrange_sum(e: Seq<int>, n: nat, m: nat, t: int, p: int) -> int
    decreases m,
{
    if m == 0 {
        0
    } else {
        lagrange_sum(e, n, (m - 1) as nat, t, p) + e[m - 1] * inv_value(
            node_denominator(m - 1, n),
            p,
        ) * node_product(m - 1, n, t)
    }
}

/// The value at `t` of the polynomial through `(k, e[k])` for the nodes
/// `k = 0..e.len()`, with each denominator inverted as `inverse` does.
pub open spec fn lagrange_value(e: Seq<int>, t: int, p: int) -> int {
    lagrange_sum(e, e.len(), e.len(), t, p)
}

/// Every node other than `i` is a root of its basis polynomial.
pub proof fn lemma_node_product_root(i: int, m: nat, k: int)
    requires
        0 <= k < m,
        k != i,
    ensures
        node_product(i, m, k) == 0,
    decreases m,
{
    if k < m - 1 {
        lemma_node_product_root(i, (m - 1) as nat, k);
        if m - 1 != i {
            assert(node_product(i, m, k) == 0 * (k - (m - 1)));
        }
    } else {
        assert(node_product(i, m, k) == node_product(i, (m - 1) as nat, k) * 0);
    }
}

proof fn lemma_lagrange_sum_at_node(e: Seq<int>, n: nat, m: nat, k: int, p: int)
    requires
        0 <= k < n,
        m <= n,
        m <= e.len(),
    ensures
        lagrange_sum(e, n, m, k, p) == if k < m {
            e[k] * inv_value(node_denominator(k, n), p) * node_denominator(k, n)
        } else {
            0
        },
    decreases m,
{
    if m > 0 {
        lemma_lagrange_sum_at_node(e, n, (m - 1) as nat, k, p);
        if m - 1 != k {
            lemma_node_product_root(m - 1, n, k);
            assert(e[m - 1] * inv_value(node_denominator(m - 1, n), p) * 0 == 0)
                by (nonlinear_arith);
        }
    }
}

/// At a node, the interpolated value is `e[k] * inv(d_k) * d_k`: `e[k]` when
/// `d_k` is invertible modulo `p`.
pub proof fn lemma_lagrange_at_node(e: Seq<int>, k: int, p: int)
    requires
        0 <= k < e.len(),
    ensures
        lagrange_value(e, k, p) == e[k] * inv_value(node_denominator(k, e.len()), p)
            * node_denominator(k, e.len()),
{
    lemma_lagrange_sum_at_node(e, e.len(), e.len(), k, p);
}


/// `basis <- basis * (x - a)` in place.
fn mul_by_linear<C: FpConfig<N>, const N: usize>(basis: &mut Vec<Fp<C, N>>, a: Fp<C, N>)
    requires
        all_wf(old(basis)@),
        a.wf(),
    ensures
        final(basis).len() == old(basis).len() + 1,
        all_wf(final(basis)@),
        forall|d: int|
            0 <= d < final(basis).len() ==> fv(#[trigger] final(basis)@[d]) == mul_linear(
                values_of(old(basis)@),
                fv(a),
            )[d] % pm::<C, N>(),
{
    let ghost old_vals = values_of(basis@);
    let ghost ml = mul_linear(old_vals, fv(a));
    let ghost p = pm::<C, N>();
    basis.push(Fp::<C, N>::zero());
    let ghost ext = basis@;
    let len = basis.len();
    let mut degree = len - 1;
    proof {
        crate::helpers::lemma_pm_pos::<C, N>();
    }
    while degree > 0
        invariant
            len == basis.len(),
            len == old_vals.len() + 1,
            degree < len,
            ext.len() == len,
            ext == old(basis)@.push(ext[len - 1]),
            fv(ext[len - 1]) == 0,
            all_wf(ext),
            old_vals == values_of(old(basis)@),
            ml == mul_linear(old_vals, fv(a)),
            p == pm::<C, N>(),
            p > 2,
            a.wf(),
            forall|d: int| 0 <= d <= degree ==> #[trigger] basis@[d] == ext[d],
            forall|d: int| degree < d < len ==> (#[trigger] basis@[d]).wf(),
            forall|d: int| degree < d < len ==> fv(#[trigger] basis@[d]) == ml[d] % p,
        decreases degree,
    {
        let prev = basis[degree - 1];
        let cur = basis[degree];
        let ac = a.mul(cur);
        let v = prev.sub(ac);
        proof {
            let d = degree as int;
            lemma_reduced(prev);
            lemma_reduced(cur);
            lemma_reduced(ac);
            let cv = if d < old_vals.len() {
                old_vals[d]
            } else {
                0
            };
            assert(fv(cur) == cv);
            assert(fv(prev) == old_vals[d - 1]);
            lemma_mod_twice(fv(a) * fv(cur), p);
            lemma_sub_cong(fv(prev), (fv(a) * fv(cur)) % p, old_vals[d - 1], fv(a) * cv, p);
        }
        basis.set(degree, v);
        degree = degree - 1;
    }
    let first = basis[0];
    let neg_a = a.neg();
    let v0 = first.mul(neg_a);
    proof {
        lemma_reduced(first);
        lemma_reduced(neg_a);
        let c0 = if 0 < old_vals.len() {
            old_vals[0]
        } else {
            0
        };
        assert(fv(first) == c0);
        lemma_mod_twice(0 - fv(a), p);
        lemma_mul_cong(fv(first), fv(neg_a), c0, 0 - fv(a), p);
        assert(c0 * (0 - fv(a)) == 0 - fv(a) * c0) by (nonlinear_arith);
        assert(ml[0] == 0 - fv(a) * c0);
    }
    basis.set(0, v0);
}

/// `coeffs[k] <- coeffs[k] + basis[k] * scale` for every `k`.
fn add_scaled_into<C: FpConfig<N>, const N: usize>(
    coeffs: &mut Vec<Fp<C, N>>,
    basis: &Vec<Fp<C, N>>,
    scale: Fp<C, N>,
)
    requires
        old(coeffs).len() == basis.len(),
        all_wf(old(coeffs)@),
        all_wf(basis@),
        scale.wf(),
    ensures
        final(coeffs).len() == old(coeffs).len(),
        all_wf(final(coeffs)@),
        forall|k: int|
            0 <= k < final(coeffs).len() ==> fv(#[trigger] final(coeffs)@[k]) == add_scaled(
                values_of(old(coeffs)@),
                values_of(basis@),
                fv(scale),
            )[k] % pm::<C, N>(),
{
    let n = coeffs.len();
    let mut k: usize = 0;
    while k < n
        invariant
            n == coeffs.len(),
            n == basis.len(),
            n == old(coeffs).len(),
            k <= n,
            all_wf(basis@),
            scale.wf(),
            forall|m: int| k <= m < n ==> #[trigger] coeffs@[m] == old(coeffs)@[m],
            forall|m: int| 0 <= m < n ==> (#[trigger] coeffs@[m]).wf(),
            forall|m: int|
                0 <= m < k ==> fv(#[trigger] coeffs@[m]) == add_scaled(
                    values_of(old(coeffs)@),
                    values_of(basis@),
                    fv(scale),
                )[m] % pm::<C, N>(),
        decreases n - k,
    {
        let c = coeffs[k];
        let b = basis[k];
        let bs = b.mul(scale);
        let v = c.add(bs);
        proof {
            let p = pm::<C, N>();
            lemma_reduced(c);
            lemma_reduced(bs);
            lemma_mod_twice(fv(b) * fv(scale), p);
            lemma_add_cong(fv(c), (fv(b) * fv(scale)) % p, fv(c), fv(b) * fv(scale), p);
            vstd::arithmetic::mul::lemma_mul_is_commutative(fv(b), fv(scale));
        }
        coeffs.set(k, v);
        k = k + 1;
    }
}

/// The coefficients of `prod_{j < m, j != i} (x - j)`, lowest degree first.
pub open spec fn node_coeffs(i: int, m: nat) -> Seq<int>
    decreases m,
{
    if m == 0 {
        seq![1int]
    } else if m - 1 == i {
        node_coeffs(i, (m - 1) as nat)
    } else {
        mul_linear(node_coeffs(i, (m - 1) as nat), m - 1)
    }
}

/// The coefficients of `sum_{k < m} e[k] * inv(d_k) * prod_{j != k} (x - j)`
/// over the nodes `0..n`, as `n` integers (not reduced).
pub open spec fn lagrange_coeffs_upto(e: Seq<int>, n: nat, m: nat, p: int) -> Seq<int>
    decreases m,
{
    if m == 0 {
        Seq::new(n, |k: int| 0int)
    } else {
        add_scaled(
            lagrange_coeffs_upto(e, n, (m - 1) as nat, p),
            node_coeffs(m - 1, n),
            e[m - 1] * inv_value(node_denominator(m - 1, n), p),
        )
    }
}

/// The reduced coefficients of the interpolating polynomial through
/// `(k, e[k])`, `k = 0..e.len()`.
pub open spec fn lagrange_coeffs(e: Seq<int>, p: int) -> Seq<int> {
    lagrange_coeffs_upto(e, e.len(), e.len(), p).map_values(|c: int| c % p)
}

proof fn lemma_node_coeffs_len(i: int, m: nat)
    requires
        0 <= i,
    ensures
        node_coeffs(i, m).len() == 1 + others_below(i, m as int),
    decreases m,
{
    if m > 0 {
        lemma_node_coeffs_len(i, (m - 1) as nat);
    }
}

proof fn lemma_lagrange_coeffs_len(e: Seq<int>, n: nat, m: nat, p: int)
    ensures
        lagrange_coeffs_upto(e, n, m, p).len() == n,
    decreases m,
{
    if m > 0 {
        lemma_lagrange_coeffs_len(e, n, (m - 1) as nat, p);
    }
}

/// `mul_linear` respects congruence of its inputs.
proof fn lemma_mul_linear_cong(c: Seq<int>, c2: Seq<int>, a: int, a2: int, p: int, d: int)
    requires
        p > 0,
        c.len() == c2.len(),
        0 <= d <= c.len(),
        a % p == a2 % p,
        forall|k: int| 0 <= k < c.len() ==> #[trigger] c[k] % p == c2[k] % p,
    ensures
        mul_linear(c, a)[d] % p == mul_linear(c2, a2)[d] % p,
{
    let x = if d >= 1 {
        c[d - 1]
    } else {
        0
    };
    let x2 = if d >= 1 {
        c2[d - 1]
    } else {
        0
    };
    let y = if d < c.len() {
        c[d]
    } else {
        0
    };
    let y2 = if d < c2.len() {
        c2[d]
    } else {
        0
    };
    if d >= 1 {
        assert(c[d - 1] % p == c2[d - 1] % p);
    }
    if d < c.len() {
        assert(c[d] % p == c2[d] % p);
    }
    lemma_mul_cong(a, y, a2, y2, p);
    lemma_sub_cong(x, a * y, x2, a2 * y2, p);
}

/// The number of nodes `j < m` other than `i`.
pub open spec fn others_below(i: int, m: int) -> int {
    if m > i {
        m - 1
    } else {
        m
    }
}

/// The coefficients (lowest degree first) of the polynomial of degree below
/// `n = evals.len()` with value `evals[i]` at `i`, for `i < n`, by Lagrange
/// interpolation. Each Lagrange denominator `prod_{j != i} (i - j)` is
/// inverted with `inverse`; not defined when one of them is zero
/// in the field.
pub fn lagrange_interpolation<C: FpConfig<N>, const N: usize>(evals: &[Fp<C, N>]) -> (coeffs: Vec<
    Fp<C, N>,
>)
    requires
        evals.len() > 0,
        all_wf(evals@),
        forall|k: int|
            0 <= k < evals.len() ==> #[trigger] node_denominator(k, evals.len() as nat) % pm::<
                C,
                N,
            >() != 0,
    ensures
        coeffs.len() == evals.len(),
        all_wf(coeffs@),
        values_of(coeffs@) == lagrange_coeffs(values_of(evals@), pm::<C, N>()),
        forall|t: int|
            #[trigger] poly_value(values_of(coeffs@), t) % pm::<C, N>() == lagrange_value(
                values_of(evals@),
                t,
                pm::<C, N>(),
            ) % pm::<C, N>(),
{
    let ghost e = values_of(evals@);
    let ghost p = pm::<C, N>();
    let n = evals.len();
    proof {
        crate::helpers::lemma_pm_pos::<C, N>();
    }
    let mut coeffs: Vec<Fp<C, N>> = Vec::new();
    let mut k: usize = 0;
    while k < n
        invariant
            k <= n,
            coeffs.len() == k,
            all_wf(coeffs@),
            forall|m: int| 0 <= m < k ==> fv(#[trigger] coeffs@[m]) == 0,
        decreases n - k,
    {
        coeffs.push(Fp::<C, N>::zero());
        k = k + 1;
    }
    proof {
        assert forall|t: int| #[trigger] poly_value(values_of(coeffs@), t) % p == lagrange_sum(
            e,
            n as nat,
            0,
            t,
            p,
        ) % p by {
            lemma_poly_value_zero(values_of(coeffs@), t);
        }
        lemma_small_mod(0, p as nat);
        assert forall|k: int| 0 <= k < n implies fv(#[trigger] coeffs@[k])
            == lagrange_coeffs_upto(e, n as nat, 0, p)[k] % p by {}
    }
    let mut i: usize = 0;
    while i < n
        invariant
            n == evals.len(),
            e == values_of(evals@),
            p == pm::<C, N>(),
            p > 2,
            all_wf(evals@),
            forall|k: int| 0 <= k < n ==> #[trigger] node_denominator(k, n as nat) % p != 0,
            i <= n,
            coeffs.len() == n,
            all_wf(coeffs@),
            forall|k: int|
                0 <= k < n ==> fv(#[trigger] coeffs@[k]) == lagrange_coeffs_upto(
                    e,
                    n as nat,
                    i as nat,
                    p,
                )[k] % p,
            forall|t: int|
                #[trigger] poly_value(values_of(coeffs@), t) % p == lagrange_sum(
                    e,
                    n as nat,
                    i as nat,
                    t,
                    p,
                ) % p,
        decreases n - i,
    {
        let x_i = Fp::<C, N>::from_u64(i as u64);
        let one = Fp::<C, N>::one();
        let mut basis: Vec<Fp<C, N>> = Vec::new();
        basis.push(one);
        let mut denominator = one;
        let mut j: usize = 0;
        proof {
            lemma_reduced(one);
            assert forall|t: int| #[trigger] poly_value(values_of(basis@), t) % p == node_product(
                i as int,
                0,
                t,
            ) % p by {
                assert(values_of(basis@).drop_first() =~= Seq::<int>::empty());
                assert(poly_value(values_of(basis@).drop_first(), t) == 0);
                assert(values_of(basis@)[0] == 1);
                assert(t * 0 == 0);
            }
            lemma_small_mod(1, p as nat);
            assert(node_coeffs(i as int, 0) == seq![1int]);
        }
        while j < n
            invariant
                n == evals.len(),
                p == pm::<C, N>(),
                p > 2,
                i < n,
                j <= n,
                x_i.wf(),
                fv(x_i) == (i as nat) % (p as nat),
                basis.len() == 1 + others_below(i as int, j as int),
                all_wf(basis@),
                node_coeffs(i as int, j as nat).len() == basis.len(),
                forall|d: int|
                    0 <= d < basis.len() ==> fv(#[trigger] basis@[d]) == node_coeffs(
                        i as int,
                        j as nat,
                    )[d] % p,
                forall|t: int|
                    #[trigger] poly_value(values_of(basis@), t) % p == node_product(
                        i as int,
                        j as nat,
                        t,
                    ) % p,
                denominator.wf(),
                fv(denominator) == node_product(i as int, j as nat, i as int) % p,
            decreases n - j,
        {
            if j != i {
                let x_j = Fp::<C, N>::from_u64(j as u64);
                let diff = x_i.sub(x_j);
                let ghost before_den = fv(denominator);
                denominator = denominator.mul(diff);
                let ghost old_basis = values_of(basis@);
                mul_by_linear(&mut basis, x_j);
                proof {
                    let a = fv(x_j);
                    let nc = node_coeffs(i as int, j as nat);
                    assert(node_coeffs(i as int, (j + 1) as nat) == mul_linear(nc, j as int));
                    assert forall|k: int| 0 <= k < old_basis.len() implies #[trigger] old_basis[k]
                        % p == nc[k] % p by {
                        lemma_mod_twice(nc[k], p);
                    }
                    lemma_mod_twice(j as int, p);
                    assert forall|d: int| 0 <= d < basis.len() implies fv(#[trigger] basis@[d])
                        == node_coeffs(i as int, (j + 1) as nat)[d] % p by {
                        lemma_mul_linear_cong(old_basis, nc, a, j as int, p, d);
                        lemma_mod_twice(mul_linear(old_basis, a)[d], p);
                    }
                    lemma_reduced(x_j);
                    lemma_reduced(x_i);
                    lemma_reduced(diff);
                    lemma_mod_twice(i as int, p);
                    lemma_mod_twice(j as int, p);
                    lemma_sub_cong(fv(x_i), fv(x_j), i as int, j as int, p);
                    lemma_mod_twice(fv(x_i) - fv(x_j), p);
                    lemma_mod_twice(node_product(i as int, j as nat, i as int), p);
                    lemma_mul_cong(
                        before_den,
                        fv(diff),
                        node_product(i as int, j as nat, i as int),
                        i - j,
                        p,
                    );
                    assert forall|t: int| #[trigger] poly_value(values_of(basis@), t) % p
                        == node_product(i as int, (j + 1) as nat, t) % p by {
                        let ml = mul_linear(old_basis, a);
                        assert forall|d: int| 0 <= d < ml.len() implies #[trigger] values_of(
                            basis@,
                        )[d] % p == ml[d] % p by {
                            lemma_mod_twice(ml[d], p);
                        }
                        lemma_poly_value_cong(values_of(basis@), ml, t, p);
                        lemma_mul_linear(old_basis, a, t);
                        lemma_sub_cong(t, a, t, j as int, p);
                        lemma_mul_cong(
                            poly_value(old_basis, t),
                            t - a,
                            node_product(i as int, j as nat, t),
                            t - j,
                            p,
                        );
                    }
                }
            }
            proof {
                if j == i {
                    assert(node_coeffs(i as int, (j + 1) as nat) == node_coeffs(i as int, j as nat));
                }
            }
            j = j + 1;
        }
        let inv = denominator.inverse();
        let scale = match inv {
            Some(d) => evals[i].mul(d),
            None => {
                proof {
                    assert(node_denominator(i as int, n as nat) % p != 0);
                    assert(false);
                }
                one
            },
        };
        let ghost old_coeffs = values_of(coeffs@);
        add_scaled_into(&mut coeffs, &basis, scale);
        proof {
            let sv = fv(scale);
            let ev = e[i as int];
            let dn = node_denominator(i as int, n as nat);
            let iv = inv_value(dn, p);
            lemma_reduced(scale);
            lemma_reduced(evals@[i as int]);
            lemma_mod_twice(dn, p);
            assert(sv == (ev * iv) % p);
            lemma_mod_twice(ev * iv, p);
            lemma_node_coeffs_len(i as int, n as nat);
            lemma_lagrange_coeffs_len(e, n as nat, i as nat, p);
            assert forall|k: int| 0 <= k < n implies fv(#[trigger] coeffs@[k])
                == lagrange_coeffs_upto(e, n as nat, (i + 1) as nat, p)[k] % p by {
                let up = lagrange_coeffs_upto(e, n as nat, i as nat, p);
                let nc = node_coeffs(i as int, n as nat);
                lemma_mod_twice(up[k], p);
                lemma_mod_twice(nc[k], p);
                lemma_mul_cong(sv, values_of(basis@)[k], ev * iv, nc[k], p);
                lemma_add_cong(old_coeffs[k], sv * values_of(basis@)[k], up[k], ev * iv * nc[k], p);
                lemma_mod_twice(add_scaled(old_coeffs, values_of(basis@), sv)[k], p);
            }
            assert forall|t: int| #[trigger] poly_value(values_of(coeffs@), t) % p == lagrange_sum(
                e,
                n as nat,
                (i + 1) as nat,
                t,
                p,
            ) % p by {
                let bv = values_of(basis@);
                let sc = add_scaled(old_coeffs, bv, sv);
                assert forall|d: int| 0 <= d < sc.len() implies #[trigger] values_of(coeffs@)[d]
                    % p == sc[d] % p by {
                    lemma_mod_twice(sc[d], p);
                }
                lemma_poly_value_cong(values_of(coeffs@), sc, t, p);
                lemma_poly_value_add_scaled(old_coeffs, bv, sv, t);
                lemma_mul_cong(sv, poly_value(bv, t), ev * iv, node_product(i as int, n as nat, t), p);
                lemma_add_cong(
                    poly_value(old_coeffs, t),
                    sv * poly_value(bv, t),
                    lagrange_sum(e, n as nat, i as nat, t, p),
                    ev * iv * node_product(i as int, n as nat, t),
                    p,
                );
            }
        }
        i = i + 1;
    }
    proof {
        let lc = lagrange_coeffs(e, p);
        lemma_lagrange_coeffs_len(e, n as nat, n as nat, p);
        assert(values_of(coeffs@) =~= lc);
    }
    coeffs
}

/// All-zero coefficients give zero.
proof fn lemma_poly_value_zero(c: Seq<int>, t: int)
    requires
        forall|i: int| 0 <= i < c.len() ==> #[trigger] c[i] == 0,
    ensures
        poly_value(c, t) == 0,
    decreases c.len(),
{
    if c.len() > 0 {
        lemma_poly_value_zero(c.drop_first(), t);
        assert(c[0] == 0);
        assert(t * 0 == 0);
    }
}


/// Every Lagrange denominator over the nodes `0..n` is nonzero modulo `p`.
pub open spec fn nodes_invertible(n: nat, p: int) -> bool {
    forall|k: int| 0 <= k < n ==> #[trigger] node_denominator(k, n) % p != 0
}

/// The polynomial of degree below `n` with value `evals[i]` at `i`, for `i < n`.
#[derive(Clone, Debug)]
pub struct EvalsUniPoly<C: FpConfig<N>, const N: usize> {
    evals: Vec<Fp<C, N>>,
}

impl<C: FpConfig<N>, const N: usize> EvalsUniPoly<C, N> {
    pub closed spec fn spec_evals(&self) -> Seq<Fp<C, N>> {
        self.evals@
    }

    /// Panics on an empty list of values; here that input is excluded.
    pub fn new(evals: Vec<Fp<C, N>>) -> (r: Self)
        requires
            evals.len() > 0,
        ensures
            r.spec_evals() == evals@,
    {
        Self { evals }
    }

    pub fn evals(&self) -> (r: &[Fp<C, N>])
        ensures
            r@ == self.spec_evals(),
    {
        self.evals.as_slice()
    }

    /// The same polynomial by its coefficients.
    pub fn to_coeffs(&self) -> (r: CoeffsUniPoly<C, N>)
        requires
            self.poly_wf(),
        ensures
            r.poly_wf(),
            r.spec_coeffs().len() == self.spec_evals().len(),
            values_of(r.spec_coeffs()) == lagrange_coeffs(values_of(self.spec_evals()), pm::<C, N>()),
            forall|t: int|
                #[trigger] poly_value(values_of(r.spec_coeffs()), t) % pm::<C, N>()
                    == lagrange_value(values_of(self.spec_evals()), t, pm::<C, N>()) % pm::<C, N>(),
    {
        CoeffsUniPoly::new(lagrange_interpolation(self.evals.as_slice()))
    }
}

impl<C: FpConfig<N>, const N: usize> UniPoly<C, N> for EvalsUniPoly<C, N> {
    open spec fn poly_wf(&self) -> bool {
        &&& self.spec_evals().len() > 0
        &&& all_wf(self.spec_evals())
        &&& nodes_invertible(self.spec_evals().len(), pm::<C, N>())
    }

    open spec fn spec_degree(&self) -> nat {
        (self.spec_evals().len() - 1) as nat
    }

    open spec fn value_at(&self, x: int) -> int {
        lagrange_value(values_of(self.spec_evals()), x, pm::<C, N>()) % pm::<C, N>()
    }

    fn degree(&self) -> (r: usize) {
        self.evals.len() - 1
    }

    /// Interpolates, then evaluates by Horner's rule.
    fn eval(&self, point: Fp<C, N>) -> (r: Fp<C, N>) {
        let coeffs = self.to_coeffs();
        coeffs.eval(point)
    }
}


/// The coefficients of the basis polynomial give its values.
proof fn lemma_node_coeffs_value(i: int, m: nat, t: int)
    ensures
        poly_value(node_coeffs(i, m), t) == node_product(i, m, t),
    decreases m,
{
    if m == 0 {
        assert(seq![1int].drop_first() =~= Seq::<int>::empty());
        assert(poly_value(Seq::<int>::empty(), t) == 0);
        assert(t * 0 == 0);
    } else {
        lemma_node_coeffs_value(i, (m - 1) as nat, t);
        if m - 1 != i {
            lemma_mul_linear(node_coeffs(i, (m - 1) as nat), m - 1, t);
        }
    }
}

proof fn lemma_lagrange_coeffs_upto_value(e: Seq<int>, n: nat, m: nat, p: int, t: int)
    requires
        m <= n,
        m <= e.len(),
    ensures
        poly_value(lagrange_coeffs_upto(e, n, m, p), t) == lagrange_sum(e, n, m, t, p),
    decreases m,
{
    if m == 0 {
        lemma_poly_value_zero(Seq::new(n, |k: int| 0int), t);
    } else {
        let k = m - 1;
        lemma_lagrange_coeffs_upto_value(e, n, (m - 1) as nat, p, t);
        lemma_node_coeffs_len(k, n);
        lemma_lagrange_coeffs_len(e, n, (m - 1) as nat, p);
        lemma_node_coeffs_value(k, n, t);
        let s = e[k] * inv_value(node_denominator(k, n), p);
        lemma_poly_value_add_scaled(
            lagrange_coeffs_upto(e, n, (m - 1) as nat, p),
            node_coeffs(k, n),
            s,
            t,
        );
        vstd::arithmetic::mul::lemma_mul_is_associative(
            e[k],
            inv_value(node_denominator(k, n), p),
            node_product(k, n, t),
        );
    }
}

/// The interpolated coefficients evaluate to the Lagrange formula.
pub proof fn lemma_lagrange_coeffs_value(e: Seq<int>, p: int, t: int)
    requires
        p > 0,
    ensures
        lagrange_coeffs(e, p).len() == e.len(),
        poly_value(lagrange_coeffs(e, p), t) % p == lagrange_value(e, t, p) % p,
{
    let up = lagrange_coeffs_upto(e, e.len(), e.len(), p);
    lemma_lagrange_coeffs_len(e, e.len(), e.len(), p);
    lemma_lagrange_coeffs_upto_value(e, e.len(), e.len(), p, t);
    let lc = lagrange_coeffs(e, p);
    assert forall|k: int| 0 <= k < lc.len() implies #[trigger] lc[k] % p == up[k] % p by {
        lemma_mod_twice(up[k], p);
    }
    lemma_poly_value_cong(lc, up, t, p);
}

} // verus!
