//! Multilinear polynomials given by their values on the Boolean hypercube,
//! and the equality polynomial `eq(r, x)`.
//!
//! Point `index` of the hypercube `{0, 1}^n` has coordinate `j` equal to bit
//! `j` of `index` (least significant bit first).

use crate::ff::{Fp, FpConfig};
use crate::helpers::{
    all_wf, dot_value, fv, hypercube_size, inner_product, lemma_add_cong, lemma_mul_cong,
    lemma_pm_pos, lemma_reduced, pm,
};
use crate::uni_poly::values_of;
use std::collections::BTreeMap;
use vstd::arithmetic::div_mod::*;
use vstd::arithmetic::power2::*;
use vstd::prelude::*;

verus! {

/// Bit `j` of `index`.
pub open spec fn hbit(index: nat, j: nat) -> int {
    ((index / pow2(j)) % 2) as int
}

/// The hypercube point with the given index, in `n` coordinates.
pub open spec fn bit_point(index: nat, n: nat) -> Seq<int> {
    Seq::new(n, |j: int| hbit(index, j as nat))
}

/// One factor of the equality polynomial: `r x + (1 - r)(1 - x)`.
pub open spec fn eq_term(r: int, x: int) -> int {
    r * x + (1 - r) * (1 - x)
}

/// `eq(r, x) = prod_j (r_j x_j + (1 - r_j)(1 - x_j))` over the integers.
pub open spec fn eq_value(r: Seq<int>, x: Seq<int>) -> int
    decreases r.len(),
{
    if r.len() == 0 {
        1
    } else {
        eq_value(r.drop_last(), x.drop_last()) * eq_term(r.last(), x[r.len() - 1])
    }
}

/// `sum_{i < k} e[i] * eq(pt, point i)` over the integers.
pub open spec fn mle_sum(e: Seq<int>, pt: Seq<int>, k: nat) -> int
    decreases k,
{
    if k == 0 {
        0
    } else {
        mle_sum(e, pt, (k - 1) as nat) + e[k - 1] * eq_value(pt, bit_point((k - 1) as nat, pt.len()))
    }
}

/// The multilinear extension of the table `e` evaluated at `pt`, over the integers.
pub open spec fn mle_value(e: Seq<int>, pt: Seq<int>) -> int {
    mle_sum(e, pt, e.len())
}

/// The table after fixing the first variable to `r`:
/// entry `k` is `(1 - r) e[2k] + r e[2k + 1]`, reduced modulo `p`.
pub open spec fn fold_values(e: Seq<int>, r: int, p: int) -> Seq<int> {
    Seq::new(e.len() / 2, |k: int| ((1 - r) * e[2 * k] + r * e[2 * k + 1]) % p)
}

/// `r x + (1 - r)(1 - x)` in the field.
fn eq_term_fp<C: FpConfig<N>, const N: usize>(r: Fp<C, N>, x: Fp<C, N>) -> (t: Fp<C, N>)
    requires
        r.wf(),
        x.wf(),
    ensures
        t.wf(),
        fv(t) == eq_term(fv(r), fv(x)) % pm::<C, N>(),
{
    let one = Fp::<C, N>::one();
    let rx = r.mul(x);
    let one_r = one.sub(r);
    let one_x = one.sub(x);
    let rest = one_r.mul(one_x);
    let t = rx.add(rest);
    proof {
        let p = pm::<C, N>();
        let rv = fv(r);
        let xv = fv(x);
        lemma_reduced(one_r);
        lemma_reduced(one_x);
        lemma_reduced(rx);
        lemma_reduced(rest);
        lemma_mod_twice(1 - rv, p);
        lemma_mod_twice(1 - xv, p);
        lemma_mul_cong(fv(one_r), fv(one_x), 1 - rv, 1 - xv, p);
        lemma_mod_twice(rv * xv, p);
        lemma_mod_twice((1 - rv) * (1 - xv), p);
        lemma_add_cong(fv(rx), fv(rest), rv * xv, (1 - rv) * (1 - xv), p);
    }
    t
}

/// The equality polynomial `eq(r, x)` for a fixed `r`.
#[derive(Clone, Debug)]
pub struct EqPoly<C: FpConfig<N>, const N: usize> {
    r: Vec<Fp<C, N>>,
}

impl<C: FpConfig<N>, const N: usize> EqPoly<C, N> {
    /// The fixed point `r`.
    pub closed spec fn spec_point(&self) -> Seq<Fp<C, N>> {
        self.r@
    }

    pub fn new(r: Vec<Fp<C, N>>) -> (e: Self)
        ensures
            e.spec_point() == r@,
    {
        Self { r }
    }

    pub fn vars(&self) -> (n: usize)
        ensures
            n == self.spec_point().len(),
    {
        self.r.len()
    }

    pub fn point(&self) -> (s: &[Fp<C, N>])
        ensures
            s@ == self.spec_point(),
    {
        self.r.as_slice()
    }

    /// `eq(r, point)`. Not defined when the dimensions differ.
    pub fn eval(&self, point: &[Fp<C, N>]) -> (v: Fp<C, N>)
        requires
            point.len() == self.spec_point().len(),
            all_wf(self.spec_point()),
            all_wf(point@),
        ensures
            v.wf(),
            fv(v) == eq_value(values_of(self.spec_point()), values_of(point@)) % pm::<C, N>(),
    {
        let ghost vr = values_of(self.r@);
        let ghost vx = values_of(point@);
        let ghost p = pm::<C, N>();
        let n = self.r.len();
        let mut acc = Fp::<C, N>::one();
        let mut j: usize = 0;
        proof {
            lemma_reduced(acc);
            assert(vr.take(0).len() == 0);
        }
        while j < n
            invariant
                n == self.r.len(),
                n == point.len(),
                j <= n,
                vr == values_of(self.r@),
                vx == values_of(point@),
                all_wf(self.r@),
                all_wf(point@),
                p == pm::<C, N>(),
                acc.wf(),
                fv(acc) == eq_value(vr.take(j as int), vx.take(j as int)) % p,
            decreases n - j,
        {
            let t = eq_term_fp(self.r[j], point[j]);
            let ghost before = fv(acc);
            acc = acc.mul(t);
            proof {
                let a = eq_value(vr.take(j as int), vx.take(j as int));
                let tt = eq_term(vr[j as int], vx[j as int]);
                lemma_reduced(t);
                lemma_reduced(acc);
                lemma_mod_twice(a, p);
                lemma_mod_twice(tt, p);
                lemma_mul_cong(before, fv(t), a, tt, p);
                assert(vr.take(j + 1).drop_last() =~= vr.take(j as int));
                assert(vx.take(j + 1).drop_last() =~= vx.take(j as int));
            }
            j = j + 1;
        }
        proof {
            assert(vr.take(n as int) =~= vr);
            assert(vx.take(n as int) =~= vx);
        }
        acc
    }

    /// `eq(r, x)` at every point `x` of the hypercube, by index.
    pub fn table(&self) -> (t: Vec<Fp<C, N>>)
        requires
            self.spec_point().len() < usize::BITS,
            all_wf(self.spec_point()),
        ensures
            t.len() == pow2(self.spec_point().len()),
            all_wf(t@),
            forall|i: int|
                0 <= i < t.len() ==> fv(#[trigger] t[i]) == eq_value(
                    values_of(self.spec_point()),
                    bit_point(i as nat, self.spec_point().len()),
                ) % pm::<C, N>(),
    {
        let n = self.r.len();
        let size = hypercube_size(n);
        let mut point: Vec<Fp<C, N>> = Vec::new();
        let mut k: usize = 0;
        while k < n
            invariant
                k <= n,
                point.len() == k,
                all_wf(point@),
            decreases n - k,
        {
            point.push(Fp::<C, N>::zero());
            k = k + 1;
        }
        let mut out: Vec<Fp<C, N>> = Vec::new();
        let mut index: usize = 0;
        while index < size
            invariant
                n == self.r.len(),
                n < usize::BITS,
                size == pow2(n as nat),
                index <= size,
                point.len() == n,
                all_wf(point@),
                all_wf(self.r@),
                out.len() == index,
                all_wf(out@),
                forall|i: int|
                    0 <= i < index ==> fv(#[trigger] out[i]) == eq_value(
                        values_of(self.r@),
                        bit_point(i as nat, n as nat),
                    ) % pm::<C, N>(),
            decreases size - index,
        {
            set_index_to_point(index, &mut point);
            proof {
                assert(values_of(point@) =~= bit_point(index as nat, n as nat));
            }
            let v = self.eval(point.as_slice());
            out.push(v);
            index = index + 1;
        }
        out
    }
}

/// Writes the hypercube point with the given index into `point`.
fn set_index_to_point<C: FpConfig<N>, const N: usize>(index: usize, point: &mut Vec<Fp<C, N>>)
    requires
        old(point).len() < usize::BITS,
    ensures
        final(point).len() == old(point).len(),
        all_wf(final(point)@),
        forall|j: int|
            0 <= j < final(point).len() ==> fv(#[trigger] final(point)@[j]) == hbit(
                index as nat,
                j as nat,
            ),
{
    let n = point.len();
    let mut i: usize = 0;
    while i < n
        invariant
            n == point.len(),
            n < usize::BITS,
            i <= n,
            forall|j: int| 0 <= j < i ==> (#[trigger] point@[j]).wf(),
            forall|j: int|
                0 <= j < i ==> fv(#[trigger] point@[j]) == hbit(index as nat, j as nat),
        decreases n - i,
    {
        let bit = (index >> i) & 1;
        proof {
            vstd::bits::lemma_usize_shr_is_div(index, i);
            let y = index >> i;
            assert((y & 1) == y % 2) by (bit_vector);
        }
        let x = if bit == 0 {
            Fp::<C, N>::zero()
        } else {
            Fp::<C, N>::one()
        };
        point.set(i, x);
        i = i + 1;
    }
}


/// A multilinear polynomial over `Fp<C, N>`, seen through its table of values
/// on the Boolean hypercube.
pub trait MultilinearPoly<C: FpConfig<N>, const N: usize>: Sized {
    /// The representation is valid.
    spec fn mle_wf(&self) -> bool;

    /// The number of variables.
    spec fn spec_vars(&self) -> nat;

    /// The values on the hypercube, by index.
    spec fn spec_table(&self) -> Seq<int>;

    fn vars(&self) -> (r: usize)
        ensures
            r == self.spec_vars(),
    ;

    /// The value of the multilinear extension at `point`.
    fn eval(&self, point: &[Fp<C, N>]) -> (r: Fp<C, N>)
        requires
            self.mle_wf(),
            point.len() == self.spec_vars(),
            all_wf(point@),
        ensures
            r.wf(),
            fv(r) == mle_value(self.spec_table(), values_of(point@)) % pm::<C, N>(),
    ;

    /// Fixes the first variable to `r`.
    fn fold(&mut self, r: Fp<C, N>)
        requires
            old(self).mle_wf(),
            old(self).spec_vars() > 0,
            r.wf(),
        ensures
            final(self).mle_wf(),
            final(self).spec_vars() == old(self).spec_vars() - 1,
            final(self).spec_table() == fold_values(old(self).spec_table(), fv(r), pm::<C, N>()),
    ;

    /// The value of a polynomial with no variables left.
    fn final_constant(&self) -> (r: Fp<C, N>)
        requires
            self.mle_wf(),
            self.spec_vars() == 0,
        ensures
            r.wf(),
            fv(r) == self.spec_table()[0],
    ;
}

/// A multilinear polynomial stored as its full table of `2^vars` values.
#[derive(Clone, Debug)]
pub struct DenseMultilinearPoly<C: FpConfig<N>, const N: usize> {
    evals: Vec<Fp<C, N>>,
    vars: usize,
}

impl<C: FpConfig<N>, const N: usize> DenseMultilinearPoly<C, N> {
    pub closed spec fn spec_evals(&self) -> Seq<Fp<C, N>> {
        self.evals@
    }

    /// Defined only when there are exactly `2^vars` values.
    pub fn new(evals: Vec<Fp<C, N>>, vars: usize) -> (r: Self)
        requires
            vars < usize::BITS,
            evals.len() == pow2(vars as nat),
        ensures
            r.spec_evals() == evals@,
            r.spec_vars() == vars,
    {
        Self { evals, vars }
    }

    /// The polynomial whose table is `evals`; the number of variables is
    /// `log2 |evals|`. Defined only when the length is a power of two.
    pub fn from_evals(evals: Vec<Fp<C, N>>) -> (r: Self)
        requires
            exists|k: nat| k < usize::BITS && pow2(k) == evals.len(),
        ensures
            r.spec_evals() == evals@,
            pow2(r.spec_vars()) == evals.len(),
            r.spec_vars() < usize::BITS,
    {
        let n = evals.len();
        let mut vars: usize = 0;
        let mut size: usize = 1;
        let ghost k = choose|k: nat| k < usize::BITS && pow2(k) == evals.len();
        proof {
            lemma2_to64();
        }
        while size < n
            invariant
                n == evals.len(),
                k < usize::BITS,
                pow2(k) == n,
                size == pow2(vars as nat),
                vars <= k,
            decreases k - vars,
        {
            proof {
                if vars == k {
                    assert(size == n);
                }
                if vars < k {
                    lemma_pow2_unfold((vars + 1) as nat);
                    if vars + 1 < k {
                        lemma_pow2_strictly_increases((vars + 1) as nat, k);
                    }
                }
            }
            size = size * 2;
            vars = vars + 1;
        }
        proof {
            if vars < k {
                lemma_pow2_strictly_increases(vars as nat, k);
            }
        }
        Self { evals, vars }
    }

    pub fn evals(&self) -> (r: &[Fp<C, N>])
        ensures
            r@ == self.spec_evals(),
    {
        self.evals.as_slice()
    }
}

impl<C: FpConfig<N>, const N: usize> MultilinearPoly<C, N> for DenseMultilinearPoly<C, N> {
    open spec fn mle_wf(&self) -> bool {
        &&& self.spec_vars() < usize::BITS
        &&& self.spec_evals().len() == pow2(self.spec_vars())
        &&& all_wf(self.spec_evals())
    }

    closed spec fn spec_vars(&self) -> nat {
        self.vars as nat
    }

    open spec fn spec_table(&self) -> Seq<int> {
        values_of(self.spec_evals())
    }

    fn vars(&self) -> (r: usize) {
        self.vars
    }

    /// `sum_i evals[i] * eq(point, i)`.
    fn eval(&self, point: &[Fp<C, N>]) -> (r: Fp<C, N>) {
        let eq = EqPoly::new(vstd::slice::slice_to_vec(point));
        let weights = eq.table();
        let r = inner_product(self.evals.as_slice(), weights.as_slice());
        proof {
            lemma_dot_is_mle(self.evals@, weights@, values_of(point@), self.evals@.len());
            assert(self.evals@.take(self.evals@.len() as int) =~= self.evals@);
            lemma_reduced(r);
        }
        r
    }

    fn fold(&mut self, r: Fp<C, N>) {
        let ghost old_evals = self.evals@;
        let one = Fp::<C, N>::one();
        let one_minus_r = one.sub(r);
        let half = self.evals.len() / 2;
        let mut i: usize = 0;
        proof {
            lemma_pow2_unfold(self.vars as nat);
        }
        while i < half
            invariant
                half == old_evals.len() / 2,
                self.vars == old(self).vars,
                self.vars > 0,
                old_evals == old(self).evals@,
                self.evals.len() == old_evals.len(),
                old_evals.len() % 2 == 0,
                all_wf(old_evals),
                r.wf(),
                one_minus_r.wf(),
                fv(one_minus_r) == (1 - fv(r)) % pm::<C, N>(),
                i <= half,
                forall|k: int| i <= k < self.evals.len() ==> #[trigger] self.evals@[k] == old_evals[k],
                forall|k: int| 0 <= k < i ==> (#[trigger] self.evals@[k]).wf(),
                forall|k: int|
                    0 <= k < i ==> fv(#[trigger] self.evals@[k]) == fold_values(
                        values_of(old_evals),
                        fv(r),
                        pm::<C, N>(),
                    )[k],
            decreases half - i,
        {
            let lo = self.evals[2 * i];
            let hi = self.evals[2 * i + 1];
            let v = one_minus_r.mul(lo).add(r.mul(hi));
            proof {
                let p = pm::<C, N>();
                lemma_reduced(one_minus_r);
                lemma_mod_twice(1 - fv(r), p);
                lemma_mul_cong(fv(one_minus_r), fv(lo), 1 - fv(r), fv(lo), p);
                lemma_mod_twice((fv(one_minus_r) * fv(lo)), p);
                lemma_mod_twice((1 - fv(r)) * fv(lo), p);
                lemma_mod_twice(fv(r) * fv(hi), p);
                lemma_add_cong(
                    (fv(one_minus_r) * fv(lo)) % p,
                    (fv(r) * fv(hi)) % p,
                    (1 - fv(r)) * fv(lo),
                    fv(r) * fv(hi),
                    p,
                );
                lemma_mod_twice((fv(one_minus_r) * fv(lo)), p);
                lemma_mod_twice((1 - fv(r)) * fv(lo), p);
                lemma_mod_twice(fv(r) * fv(hi), p);
            }
            self.evals.set(i, v);
            i = i + 1;
        }
        self.evals.truncate(half);
        self.vars = self.vars - 1;
        proof {
            lemma_pow2_unfold(old(self).vars as nat);
            assert(self.evals@.len() == pow2(self.vars as nat));
            assert forall|k: int| 0 <= k < self.evals@.len() implies (#[trigger] self.evals@[k]).wf() by {
                assert(self.evals@[k] == self.evals@[k]);
            }
            assert(values_of(self.evals@) =~= fold_values(values_of(old_evals), fv(r), pm::<C, N>()));
        }
    }

    fn final_constant(&self) -> (r: Fp<C, N>) {
        proof {
            lemma2_to64();
        }
        let r = self.evals[0];
        proof {
            lemma_reduced(r);
        }
        r
    }
}

/// The weighted sum with the `eq` table as weights is the multilinear extension.
proof fn lemma_dot_is_mle<C: FpConfig<N>, const N: usize>(
    evals: Seq<Fp<C, N>>,
    weights: Seq<Fp<C, N>>,
    pt: Seq<int>,
    k: nat,
)
    requires
        k <= evals.len(),
        k <= weights.len(),
        forall|i: int|
            0 <= i < weights.len() ==> fv(#[trigger] weights[i]) == eq_value(
                pt,
                bit_point(i as nat, pt.len()),
            ) % pm::<C, N>(),
    ensures
        dot_value(evals.take(k as int), weights) % pm::<C, N>() == mle_sum(
            values_of(evals),
            pt,
            k,
        ) % pm::<C, N>(),
    decreases k,
{
    let p = pm::<C, N>();
    lemma_pm_pos::<C, N>();
    if k == 0 {
        assert(dot_value(evals.take(0), weights) == 0);
    } else {
        let j = (k - 1) as int;
        lemma_dot_is_mle(evals, weights, pt, (k - 1) as nat);
        assert(evals.take(k as int).drop_last() =~= evals.take(j));
        let w = eq_value(pt, bit_point(j as nat, pt.len()));
        lemma_mod_twice(w, p);
        lemma_mul_cong(fv(evals[j]), fv(weights[j]), fv(evals[j]), w, p);
        lemma_add_cong(
            dot_value(evals.take(j), weights),
            fv(evals[j]) * fv(weights[j]),
            mle_sum(values_of(evals), pt, (k - 1) as nat),
            fv(evals[j]) * w,
            p,
        );
    }
}


/// `eq` splits over concatenation: `eq(a ++ b, x ++ y) = eq(a, x) * eq(b, y)`.
pub proof fn lemma_eq_concat(a: Seq<int>, x: Seq<int>, b: Seq<int>, y: Seq<int>)
    requires
        a.len() == x.len(),
        b.len() == y.len(),
    ensures
        eq_value(a + b, x + y) == eq_value(a, x) * eq_value(b, y),
    decreases b.len(),
{
    if b.len() == 0 {
        assert(a + b =~= a);
        assert(x + y =~= x);
    } else {
        lemma_eq_concat(a, x, b.drop_last(), y.drop_last());
        assert((a + b).drop_last() =~= a + b.drop_last());
        assert((x + y).drop_last() =~= x + y.drop_last());
        let e1 = eq_value(a, x);
        let e2 = eq_value(b.drop_last(), y.drop_last());
        let t = eq_term(b.last(), y[b.len() - 1]);
        vstd::arithmetic::mul::lemma_mul_is_associative(e1, e2, t);
    }
}

/// Point `2k + c` is `c` followed by point `k`.
proof fn lemma_bit_point_split(k: nat, c: nat, n: nat)
    requires
        c < 2,
    ensures
        bit_point(2 * k + c, n + 1) =~= seq![c as int] + bit_point(k, n),
{
    let i = 2 * k + c;
    lemma2_to64();
    assert(hbit(i, 0) == c) by {
        lemma_fundamental_div_mod(i as int, 2);
    }
    assert forall|j: int| 0 <= j < n implies #[trigger] hbit(i, (j + 1) as nat) == hbit(k, j as nat) by {
        lemma_pow2_unfold((j + 1) as nat);
        lemma_pow2_pos(j as nat);
        lemma_div_denominator(i as int, 2, pow2(j as nat) as int);
        vstd::arithmetic::mul::lemma_mul_is_commutative(2, pow2(j as nat) as int);
        assert(i as int / 2 == k) by {
            lemma_fundamental_div_mod(i as int, 2);
        }
    }
    let lhs = bit_point(i, n + 1);
    let rhs = seq![c as int] + bit_point(k, n);
    assert forall|j: int| 0 <= j < n + 1 implies lhs[j] == rhs[j] by {
        if j > 0 {
            assert(hbit(i, ((j - 1) + 1) as nat) == hbit(k, (j - 1) as nat));
        }
    }
}

/// The point of index `i + 2^a j` is the point of `i` in `a` coordinates
/// followed by the point of `j`.
pub proof fn lemma_bit_point_concat(i: nat, j: nat, a: nat, b: nat)
    requires
        i < pow2(a),
    ensures
        bit_point(i + pow2(a) * j, a + b) =~= bit_point(i, a) + bit_point(j, b),
    decreases a,
{
    if a == 0 {
        assert(pow2(0) == 1) by {
            lemma2_to64();
        }
        assert(i == 0);
        assert(bit_point(i, a) =~= Seq::<int>::empty());
        vstd::arithmetic::mul::lemma_mul_basics(j as int);
        assert(i + pow2(a) * j == j);
    } else {
        lemma_pow2_unfold(a);
        let c = i % 2;
        let h = i / 2;
        lemma_fundamental_div_mod(i as int, 2);
        assert(h < pow2((a - 1) as nat));
        let k = h + pow2((a - 1) as nat) * j;
        assert(i + pow2(a) * j == 2 * k + c) by {
            vstd::arithmetic::mul::lemma_mul_is_associative(2, pow2((a - 1) as nat) as int, j as int);
            vstd::arithmetic::mul::lemma_mul_is_distributive_add(2, h as int, (pow2((a - 1) as nat) * j) as int);
        }
        lemma_bit_point_split(k, c, (a - 1 + b) as nat);
        assert((a - 1 + b) as nat + 1 == a + b);
        lemma_bit_point_concat(h, j, (a - 1) as nat, b);
        lemma_bit_point_split(h, c, (a - 1) as nat);
        assert(2 * h + c == i);
        assert(bit_point(i, a) =~= seq![c as int] + bit_point(h, (a - 1) as nat));
    }
}

/// `sum_{i < k} e[i + rows j] eq(rl, point i)`: block `j` of the table
/// weighted by the first variables.
pub open spec fn block_sum(e: Seq<int>, rl: Seq<int>, rows: nat, j: int, k: nat) -> int
    decreases k,
{
    if k == 0 {
        0
    } else {
        block_sum(e, rl, rows, j, (k - 1) as nat) + e[(k - 1) + rows * j] * eq_value(
            rl,
            bit_point((k - 1) as nat, rl.len()),
        )
    }
}

/// `sum_{j < m} block_sum(j) eq(rr, point j)`.
pub open spec fn tensor_sum(e: Seq<int>, rl: Seq<int>, rr: Seq<int>, rows: nat, m: nat) -> int
    decreases m,
{
    if m == 0 {
        0
    } else {
        tensor_sum(e, rl, rr, rows, (m - 1) as nat) + block_sum(e, rl, rows, m - 1, rows) * eq_value(
            rr,
            bit_point((m - 1) as nat, rr.len()),
        )
    }
}

/// The first `rows j + i` terms of the extension at `rl ++ rr`, by blocks.
proof fn lemma_mle_blocks(e: Seq<int>, rl: Seq<int>, rr: Seq<int>, j: nat, i: nat)
    requires
        i <= pow2(rl.len()),
        pow2(rl.len()) * j + i <= e.len(),
    ensures
        mle_sum(e, rl + rr, pow2(rl.len()) * j + i) == tensor_sum(e, rl, rr, pow2(rl.len()), j) + block_sum(
            e,
            rl,
            pow2(rl.len()),
            j as int,
            i,
        ) * eq_value(rr, bit_point(j, rr.len())),
    decreases j, i,
{
    let rows = pow2(rl.len());
    let wr = eq_value(rr, bit_point(j, rr.len()));
    vstd::arithmetic::mul::lemma_mul_basics(wr);
    vstd::arithmetic::mul::lemma_mul_basics(rows as int);
    if i == 0 {
        assert(block_sum(e, rl, rows, j as int, 0) == 0);
        if j > 0 {
            assert(rows * j + 0 == rows * ((j - 1) as nat) + rows) by {
                vstd::arithmetic::mul::lemma_mul_is_distributive_sub(rows as int, j as int, 1);
            }
            lemma_mle_blocks(e, rl, rr, (j - 1) as nat, rows);
            assert(tensor_sum(e, rl, rr, rows, j) == tensor_sum(e, rl, rr, rows, (j - 1) as nat) + block_sum(
                e,
                rl,
                rows,
                j - 1,
                rows,
            ) * eq_value(rr, bit_point((j - 1) as nat, rr.len())));
        } else {
            assert(rows * j + i == 0);
            assert(mle_sum(e, rl + rr, 0) == 0);
            assert(tensor_sum(e, rl, rr, rows, 0) == 0);
        }
    } else {
        let x = (i - 1) as nat;
        lemma_mle_blocks(e, rl, rr, j, x);
        lemma_bit_point_concat(x, j, rl.len(), rr.len());
        assert(x + pow2(rl.len()) * j == rows * j + x) by {
            vstd::arithmetic::mul::lemma_mul_is_commutative(rows as int, j as int);
        }
        assert((rl + rr).len() == rl.len() + rr.len());
        lemma_eq_concat(rl, bit_point(x, rl.len()), rr, bit_point(j, rr.len()));
        let t = e[(x + rows * j) as int];
        let bl = block_sum(e, rl, rows, j as int, x);
        let wl = eq_value(rl, bit_point(x, rl.len()));
        assert((bl + t * wl) * wr == bl * wr + t * (wl * wr)) by (nonlinear_arith);
        assert(rows * j + x == x + rows * j);
        assert(rows * j + i == (rows * j + x) + 1);
        assert(mle_sum(e, rl + rr, rows * j + i) == mle_sum(e, rl + rr, rows * j + x) + e[(rows * j + x) as int]
            * eq_value(rl + rr, bit_point((rows * j + x) as nat, (rl + rr).len())));
        assert(block_sum(e, rl, rows, j as int, i) == bl + e[(x + rows * j) as int] * wl);
    }
}

/// The extension at `rl ++ rr` of a table of `2^|rl| 2^|rr|` entries, by
/// blocks: `sum_j (sum_i e[i + rows j] eq(rl, i)) eq(rr, j)`.
pub proof fn lemma_mle_tensor(e: Seq<int>, rl: Seq<int>, rr: Seq<int>)
    requires
        e.len() == pow2(rl.len()) * pow2(rr.len()),
    ensures
        mle_value(e, rl + rr) == tensor_sum(e, rl, rr, pow2(rl.len()), pow2(rr.len())),
{
    lemma_mle_blocks(e, rl, rr, pow2(rr.len()), 0);
}

/// The weights of points `2k` and `2k + 1` under `eq(r ++ rest, .)`.
proof fn lemma_eq_at_pair(r: int, rest: Seq<int>, k: nat)
    ensures
        eq_value(seq![r] + rest, bit_point(2 * k, rest.len() + 1)) == (1 - r) * eq_value(
            rest,
            bit_point(k, rest.len()),
        ),
        eq_value(seq![r] + rest, bit_point(2 * k + 1, rest.len() + 1)) == r * eq_value(
            rest,
            bit_point(k, rest.len()),
        ),
{
    let n = rest.len();
    lemma_bit_point_split(k, 0, n);
    lemma_bit_point_split(k, 1, n);
    assert(2 * k + 0 == 2 * k);
    lemma_eq_concat(seq![r], seq![0int], rest, bit_point(k, n));
    lemma_eq_concat(seq![r], seq![1int], rest, bit_point(k, n));
    assert(seq![r].drop_last() =~= Seq::<int>::empty());
    assert(seq![0int].drop_last() =~= Seq::<int>::empty());
    assert(seq![1int].drop_last() =~= Seq::<int>::empty());
    assert(eq_value(Seq::<int>::empty(), Seq::<int>::empty()) == 1);
    assert(seq![r].last() == r);
    assert(r * 0 + (1 - r) * (1 - 0) == 1 - r) by (nonlinear_arith);
    assert(r * 1 + (1 - r) * (1 - 1) == r) by (nonlinear_arith);
    assert(eq_term(r, 0) == 1 - r);
    assert(eq_term(r, 1) == r);
    assert(eq_value(seq![r], seq![0int]) == 1 - r);
    assert(seq![1int][0] == 1);
    assert(seq![1int].len() == 1);
    assert(eq_value(seq![r], seq![1int]) == eq_value(Seq::<int>::empty(), Seq::<int>::empty())
        * eq_term(r, 1));
    assert(eq_value(seq![r], seq![1int]) == r);
}

/// The first `2k` terms of the sum at `r ++ rest` regroup into the first `k`
/// terms of the sum of the folded table at `rest`, over the integers.
proof fn lemma_fold_sum(e: Seq<int>, r: int, rest: Seq<int>, k: nat)
    requires
        2 * k <= e.len(),
    ensures
        mle_sum(e, seq![r] + rest, 2 * k) == mle_sum(
            Seq::new(e.len() / 2, |m: int| (1 - r) * e[2 * m] + r * e[2 * m + 1]),
            rest,
            k,
        ),
    decreases k,
{
    let g = Seq::new(e.len() / 2, |m: int| (1 - r) * e[2 * m] + r * e[2 * m + 1]);
    let big = seq![r] + rest;
    assert(big.len() == rest.len() + 1);
    if k > 0 {
        let m = (k - 1) as nat;
        lemma_fold_sum(e, r, rest, m);
        lemma_eq_at_pair(r, rest, m);
        let w = eq_value(rest, bit_point(m, rest.len()));
        let e0 = e[2 * (m as int)];
        let e1 = e[2 * (m as int) + 1];
        assert(mle_sum(e, big, 2 * k) == mle_sum(e, big, (2 * m + 1) as nat) + e1 * (r * w));
        assert(mle_sum(e, big, (2 * m + 1) as nat) == mle_sum(e, big, 2 * m) + e0 * ((1 - r) * w));
        assert(g[m as int] == (1 - r) * e0 + r * e1);
        assert(e0 * ((1 - r) * w) + e1 * (r * w) == ((1 - r) * e0 + r * e1) * w)
            by (nonlinear_arith);
    }
}

/// Congruent tables give congruent sums.
proof fn lemma_mle_sum_cong(e: Seq<int>, g: Seq<int>, pt: Seq<int>, k: nat, p: int)
    requires
        p > 0,
        k <= e.len(),
        k <= g.len(),
        forall|i: int| 0 <= i < k ==> #[trigger] e[i] % p == g[i] % p,
    ensures
        mle_sum(e, pt, k) % p == mle_sum(g, pt, k) % p,
    decreases k,
{
    if k > 0 {
        let j = k - 1;
        lemma_mle_sum_cong(e, g, pt, (k - 1) as nat, p);
        let w = eq_value(pt, bit_point(j as nat, pt.len()));
        assert(e[j] % p == g[j] % p);
        lemma_mul_cong(e[j], w, g[j], w, p);
        lemma_add_cong(
            mle_sum(e, pt, (k - 1) as nat),
            e[j] * w,
            mle_sum(g, pt, (k - 1) as nat),
            g[j] * w,
            p,
        );
    }
}

/// Folding commutes with evaluation: fixing the first variable of a table of
/// `2^(n+1)` values to `r` and evaluating the result at `rest` gives, modulo
/// `p`, the value of the unfolded table at `r` followed by `rest`.
pub proof fn lemma_fold_then_eval(e: Seq<int>, r: int, rest: Seq<int>, p: int)
    requires
        p > 0,
        e.len() == 2 * pow2(rest.len()),
    ensures
        mle_value(fold_values(e, r, p), rest) % p == mle_value(e, seq![r] + rest) % p,
{
    let k = pow2(rest.len());
    let g = Seq::new(e.len() / 2, |m: int| (1 - r) * e[2 * m] + r * e[2 * m + 1]);
    let f = fold_values(e, r, p);
    lemma_fold_sum(e, r, rest, k);
    assert forall|i: int| 0 <= i < k implies #[trigger] f[i] % p == g[i] % p by {
        lemma_mod_twice(g[i], p);
    }
    lemma_mle_sum_cong(f, g, rest, k, p);
}


/// The table after fixing its leading variables to `rs`, one after another.
pub open spec fn fold_all(e: Seq<int>, rs: Seq<int>, p: int) -> Seq<int>
    decreases rs.len(),
{
    if rs.len() == 0 {
        e
    } else {
        fold_values(fold_all(e, rs.drop_last(), p), rs.last(), p)
    }
}

proof fn lemma_fold_all_len(e: Seq<int>, rs: Seq<int>, p: int, n: nat)
    requires
        e.len() == pow2(n),
        rs.len() <= n,
    ensures
        fold_all(e, rs, p).len() == pow2((n - rs.len()) as nat),
    decreases rs.len(),
{
    if rs.len() > 0 {
        lemma_fold_all_len(e, rs.drop_last(), p, n);
        lemma_pow2_unfold((n - rs.len() + 1) as nat);
    }
}

/// Folding the leading variables one at a time and then evaluating the rest
/// gives, modulo `p`, the value at the whole point.
pub proof fn lemma_fold_all_then_eval(e: Seq<int>, rs: Seq<int>, rest: Seq<int>, p: int)
    requires
        p > 0,
        e.len() == pow2(rs.len() + rest.len()),
    ensures
        mle_value(fold_all(e, rs, p), rest) % p == mle_value(e, rs + rest) % p,
    decreases rs.len(),
{
    if rs.len() == 0 {
        assert(rs + rest =~= rest);
    } else {
        let head = rs.drop_last();
        let r = rs.last();
        let rest2 = seq![r] + rest;
        lemma_fold_all_len(e, head, p, rs.len() + rest.len());
        assert(rs.len() + rest.len() - head.len() == rest.len() + 1);
        lemma_pow2_unfold((rest.len() + 1) as nat);
        lemma_fold_then_eval(fold_all(e, head, p), r, rest, p);
        lemma_fold_all_then_eval(e, head, rest2, p);
        assert(head + rest2 =~= rs + rest);
    }
}

/// After every variable is fixed, the single remaining value is, modulo `p`,
/// the multilinear extension at the point of fixed values.
pub proof fn lemma_fold_all_final(e: Seq<int>, rs: Seq<int>, p: int)
    requires
        p > 0,
        e.len() == pow2(rs.len()),
    ensures
        fold_all(e, rs, p)[0] % p == mle_value(e, rs) % p,
{
    lemma_fold_all_then_eval(e, rs, Seq::empty(), p);
    assert(rs + Seq::<int>::empty() =~= rs);
    lemma_fold_all_len(e, rs, p, rs.len());
    let f = fold_all(e, rs, p);
    assert(pow2(0) == 1) by {
        lemma2_to64();
    }
    assert(bit_point(0, 0) =~= Seq::<int>::empty());
    assert(eq_value(Seq::<int>::empty(), Seq::<int>::empty()) == 1);
    assert(mle_sum(f, Seq::empty(), 0) == 0);
    assert(mle_value(f, Seq::empty()) == f[0] * 1);
}


/// The table of length `len` that holds `m[i]` where `m` has an entry and
/// zero elsewhere.
pub open spec fn sparse_table<C: FpConfig<N>, const N: usize>(
    m: Map<usize, Fp<C, N>>,
    len: nat,
) -> Seq<int> {
    Seq::new(len, |i: int| if m.contains_key(i as usize) { fv(m[i as usize]) } else { 0 })
}

/// A multilinear polynomial held by the nonzero entries of its table,
/// keyed by index.
#[derive(Clone, Debug)]
pub struct SparseMultilinearPoly<C: FpConfig<N>, const N: usize> {
    evals: BTreeMap<usize, Fp<C, N>>,
    vars: usize,
}

impl<C: FpConfig<N>, const N: usize> SparseMultilinearPoly<C, N> {
    /// The nonzero entries of the table.
    pub closed spec fn spec_map(&self) -> Map<usize, Fp<C, N>> {
        self.evals@
    }

    /// The polynomial with the given entries in `vars` variables; zero
    /// values are dropped. Not defined on an index outside the
    /// hypercube.
    pub fn new(evals: BTreeMap<usize, Fp<C, N>>, vars: usize) -> (r: Self)
        requires
            vars < usize::BITS,
            forall|k: usize| #[trigger] evals@.contains_key(k) ==> k < pow2(vars as nat) && evals@[k].wf(),
        ensures
            r.mle_wf(),
            r.spec_vars() == vars,
            r.spec_table() == sparse_table(evals@, pow2(vars as nat)),
            forall|k: usize|
                #[trigger] r.spec_map().contains_key(k) <==> evals@.contains_key(k) && fv(evals@[k]) != 0,
            forall|k: usize| #[trigger] r.spec_map().contains_key(k) ==> r.spec_map()[k] == evals@[k],
    {
        broadcast use vstd::std_specs::btree::group_btree_axioms;

        let size = hypercube_size(vars);
        let list = crate::entries::index_entries(&evals);
        let mut kept: BTreeMap<usize, Fp<C, N>> = BTreeMap::new();
        let mut i: usize = 0;
        while i < list.len()
            invariant
                i <= list.len(),
                size == pow2(vars as nat),
                forall|a: int|
                    0 <= a < list.len() ==> evals@.contains_key(#[trigger] list@[a].0)
                        && evals@[list@[a].0] == list@[a].1,
                forall|k: usize|
                    #[trigger] evals@.contains_key(k) ==> k < pow2(vars as nat) && evals@[k].wf(),
                forall|k: usize|
                    #[trigger] kept@.contains_key(k) ==> evals@.contains_key(k) && kept@[k] == evals@[k]
                        && fv(evals@[k]) != 0,
                forall|a: int|
                    0 <= a < i && fv(list@[a].1) != 0 ==> #[trigger] kept@.contains_key(list@[a].0),
            decreases list.len() - i,
        {
            let (k, v) = list[i];
            proof {
                assert(evals@.contains_key(list@[i as int].0));
            }
            if !v.is_zero() {
                kept.insert(k, v);
            }
            i = i + 1;
        }
        proof {
            assert forall|k: usize| #[trigger] evals@.contains_key(k) && fv(evals@[k]) != 0 implies kept@.contains_key(
                k,
            ) by {
                let a = choose|a: int| 0 <= a < list.len() && list@[a].0 == k;
                assert(evals@.contains_key(list@[a].0));
            }
            assert(sparse_table(kept@, pow2(vars as nat)) =~= sparse_table(evals@, pow2(vars as nat)));
        }
        SparseMultilinearPoly { evals: kept, vars }
    }

    pub fn evals(&self) -> (r: &BTreeMap<usize, Fp<C, N>>)
        ensures
            r@ == self.spec_map(),
    {
        &self.evals
    }

    /// The same polynomial with its full table.
    pub fn to_dense(&self) -> (r: DenseMultilinearPoly<C, N>)
        requires
            self.mle_wf(),
        ensures
            r.mle_wf(),
            r.spec_vars() == self.spec_vars(),
            r.spec_table() == self.spec_table(),
    {
        broadcast use vstd::std_specs::btree::group_btree_axioms;

        let size = hypercube_size(self.vars);
        let zero = Fp::<C, N>::zero();
        let mut table: Vec<Fp<C, N>> = Vec::new();
        let mut j: usize = 0;
        while j < size
            invariant
                j <= size,
                table.len() == j,
                zero.wf(),
                fv(zero) == 0,
                forall|a: int| 0 <= a < j ==> #[trigger] table@[a] == zero,
            decreases size - j,
        {
            table.push(zero);
            j = j + 1;
        }
        let list = crate::entries::index_entries(&self.evals);
        let ghost m = self.evals@;
        proof {
            assert forall|k: usize| #[trigger] m.contains_key(k) implies k < pow2(self.vars as nat)
                && m[k].wf() by {
                assert(self.spec_map().contains_key(k));
            }
        }
        let mut i: usize = 0;
        while i < list.len()
            invariant
                i <= list.len(),
                size == pow2(self.vars as nat),
                m == self.evals@,
                table.len() == size,
                zero.wf(),
                fv(zero) == 0,
                forall|a: int| 0 <= a < list.len() ==> m.contains_key(#[trigger] list@[a].0) && m[list@[a].0] == list@[a].1,
                forall|k: usize| #[trigger] m.contains_key(k) ==> k < pow2(self.vars as nat) && m[k].wf(),
                forall|a: int, b: int| 0 <= a < b < list.len() ==> list@[a].0 < list@[b].0,
                forall|a: int| 0 <= a < i ==> #[trigger] table@[list@[a].0 as int] == list@[a].1,
                forall|x: int|
                    0 <= x < size && (forall|a: int| 0 <= a < i ==> list@[a].0 != x) ==> #[trigger] table@[x]
                        == zero,
            decreases list.len() - i,
        {
            let (k, v) = list[i];
            proof {
                assert(m.contains_key(list@[i as int].0));
            }
            table.set(k, v);
            proof {
                assert forall|a: int| 0 <= a < i + 1 implies #[trigger] table@[list@[a].0 as int] == list@[a].1 by {
                    if a < i {
                        assert(list@[a].0 < list@[i as int].0);
                    }
                }
            }
            i = i + 1;
        }
        proof {
            assert forall|x: int| 0 <= x < size implies (#[trigger] table@[x]).wf() && fv(table@[x])
                == sparse_table(m, size as nat)[x] by {
                if m.contains_key(x as usize) {
                    let a = choose|a: int| 0 <= a < list.len() && list@[a].0 == x as usize;
                    assert(table@[list@[a].0 as int] == list@[a].1);
                } else {
                    assert forall|a: int| 0 <= a < list.len() implies list@[a].0 != x by {
                        assert(m.contains_key(list@[a].0));
                    }
                }
            }
            assert(values_of(table@) =~= sparse_table(m, size as nat));
        }
        DenseMultilinearPoly::new(table, self.vars)
    }
}

impl<C: FpConfig<N>, const N: usize> DenseMultilinearPoly<C, N> {
    /// The same polynomial by the nonzero entries of its table.
    pub fn to_sparse(&self) -> (r: SparseMultilinearPoly<C, N>)
        requires
            self.mle_wf(),
        ensures
            r.mle_wf(),
            r.spec_vars() == self.spec_vars(),
            r.spec_table() == self.spec_table(),
    {
        broadcast use vstd::std_specs::btree::group_btree_axioms;

        let mut kept: BTreeMap<usize, Fp<C, N>> = BTreeMap::new();
        let n = self.evals.len();
        let mut i: usize = 0;
        while i < n
            invariant
                i <= n,
                n == self.evals@.len(),
                n == pow2(self.vars as nat),
                all_wf(self.evals@),
                forall|k: usize|
                    #[trigger] kept@.contains_key(k) <==> k < i && fv(self.evals@[k as int]) != 0,
                forall|k: usize| #[trigger] kept@.contains_key(k) ==> kept@[k] == self.evals@[k as int],
            decreases n - i,
        {
            let v = self.evals[i];
            if !v.is_zero() {
                kept.insert(i, v);
            }
            i = i + 1;
        }
        proof {
            assert(sparse_table(kept@, n as nat) =~= values_of(self.evals@));
        }
        SparseMultilinearPoly { evals: kept, vars: self.vars }
    }
}

impl<C: FpConfig<N>, const N: usize> MultilinearPoly<C, N> for SparseMultilinearPoly<C, N> {
    open spec fn mle_wf(&self) -> bool {
        &&& self.spec_vars() < usize::BITS
        &&& forall|k: usize|
            #[trigger] self.spec_map().contains_key(k) ==> k < pow2(self.spec_vars()) && self.spec_map()[k].wf()
                && fv(self.spec_map()[k]) != 0
    }

    closed spec fn spec_vars(&self) -> nat {
        self.vars as nat
    }

    open spec fn spec_table(&self) -> Seq<int> {
        sparse_table(self.spec_map(), pow2(self.spec_vars()))
    }

    fn vars(&self) -> (r: usize) {
        self.vars
    }

    /// Evaluates the full table.
    fn eval(&self, point: &[Fp<C, N>]) -> (r: Fp<C, N>) {
        let dense = self.to_dense();
        dense.eval(point)
    }

    /// Folds the full table and keeps its nonzero entries.
    fn fold(&mut self, r: Fp<C, N>) {
        let mut dense = self.to_dense();
        dense.fold(r);
        *self = dense.to_sparse();
    }

    fn final_constant(&self) -> (r: Fp<C, N>) {
        broadcast use vstd::std_specs::btree::group_btree_axioms;

        proof {
            lemma2_to64();
        }
        let zero: usize = 0;
        match self.evals.get(&zero) {
            Some(v) => {
                proof {
                    assert(self.spec_map().contains_key(zero));
                    assert(self.spec_table()[0] == fv(self.spec_map()[zero]));
                }
                *v
            },
            None => {
                let r = Fp::<C, N>::zero();
                proof {
                    assert(!self.spec_map().contains_key(zero));
                    assert(self.spec_table()[0] == 0);
                }
                r
            },
        }
    }
}

} // verus!
