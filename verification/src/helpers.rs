//! Small helpers shared by the polynomial and proof-system code: ambient
//! constructors, exponent arithmetic, column-major indexing and vector
//! operations over the field.

use crate::ff::{Fp, FpConfig};
use crate::poly::Monomial;
use vstd::arithmetic::div_mod::*;
use vstd::arithmetic::power2::*;
use vstd::prelude::*;

verus! {

/// Create the additive identity with the same type as `self`.
pub trait ZeroLike: Sized {
    fn zero_like(&self) -> Self;
}

/// Create the multiplicative identity with the same type as `self`.
pub trait OneLike: Sized {
    fn one_like(&self) -> Self;
}

/// Create a constant value with the same ambient type as `self`.
pub trait ConstantLike<Coeff>: Sized {
    fn constant_like(&self, coeff: Coeff) -> Self;
}

/// Create a variable with the same ambient type as `self`.
pub trait VariableLike: Sized {
    /// The number of variables of the ambient type.
    spec fn ambient_vars(&self) -> nat;

    fn variable_like(&self, index: usize) -> Self
        requires
            index < self.ambient_vars(),
    ;
}

impl<const N: usize> OneLike for Monomial<N> {
    fn one_like(&self) -> (r: Self)
        ensures
            r.spec_exps().len() == N,
            forall|i: int| 0 <= i < N ==> #[trigger] r.spec_exps()[i] == 0,
    {
        Self::one()
    }
}

impl<const N: usize> VariableLike for Monomial<N> {
    open spec fn ambient_vars(&self) -> nat {
        N as nat
    }

    fn variable_like(&self, index: usize) -> (r: Self)
        ensures
            r.spec_exps().len() == N,
            forall|i: int| 0 <= i < N ==> #[trigger] r.spec_exps()[i] == (if i == index {
                1usize
            } else {
                0usize
            }),
    {
        Self::variable(index)
    }
}

/// The number of points of the Boolean hypercube `{0, 1}^vars`.
pub fn hypercube_size(vars: usize) -> (r: usize)
    requires
        vars < usize::BITS,
    ensures
        r as nat == pow2(vars as nat),
{
    let mut size: usize = 1;
    let mut i: usize = 0;
    proof {
        lemma2_to64();
    }
    while i < vars
        invariant
            i <= vars,
            vars < usize::BITS,
            size as nat == pow2(i as nat),
        decreases vars - i,
    {
        proof {
            lemma_pow2_unfold((i + 1) as nat);
            lemma_pow2_strictly_increases((i + 1) as nat, usize::BITS as nat);
            lemma_usize_max_pow2();
        }
        size = size * 2;
        i = i + 1;
    }
    size
}

pub proof fn lemma_usize_max_pow2()
    ensures
        usize::MAX as nat == pow2(usize::BITS as nat) - 1,
{
    lemma2_to64();
    lemma2_to64_rest();
    assert(usize::BITS == 32 || usize::BITS == 64);
}

/// The least `n` with `value_count <= 2^n`.
pub fn log2_ceil(value_count: usize) -> (r: usize)
    ensures
        value_count <= pow2(r as nat),
        r == 0 || pow2((r - 1) as nat) < value_count,
{
    proof {
        lemma2_to64();
        lemma_usize_max_pow2();
    }
    let mut n: usize = 0;
    let mut size: usize = 1;
    while size < value_count
        invariant
            size as nat == pow2(n as nat),
            n < usize::BITS,
            n == 0 || pow2((n - 1) as nat) < value_count,
            usize::MAX as nat == pow2(usize::BITS as nat) - 1,
        decreases usize::BITS - n,
    {
        proof {
            lemma_pow2_unfold((n + 1) as nat);
        }
        if size > usize::MAX / 2 {
            proof {
                assert(n + 1 == usize::BITS) by {
                    if n + 1 < usize::BITS {
                        lemma_pow2_strictly_increases(n as nat, (usize::BITS - 1) as nat);
                        lemma_pow2_unfold(usize::BITS as nat);
                    }
                }
            }
            return n + 1;
        }
        size = size * 2;
        n = n + 1;
        proof {
            if n == usize::BITS {
                assert(false);
            }
        }
    }
    n
}

/// Row `row` of a matrix with `rows` rows stored column by column, read in
/// column order.
pub fn column_major_row<T: Copy>(entries: &[T], rows: usize, row: usize) -> (r: Vec<T>)
    requires
        rows > 0,
        row < rows,
        entries.len() % rows == 0,
    ensures
        r.len() == entries.len() / rows,
        forall|j: int| 0 <= j < r.len() ==> #[trigger] r[j] == entries[row + j * rows],
{
    let cols = entries.len() / rows;
    let mut out: Vec<T> = Vec::new();
    let mut j: usize = 0;
    proof {
        lemma_fundamental_div_mod(entries.len() as int, rows as int);
    }
    while j < cols
        invariant
            cols == entries.len() / rows,
            entries.len() == cols * rows,
            rows > 0,
            row < rows,
            j <= cols,
            out.len() == j,
            forall|k: int| 0 <= k < j ==> #[trigger] out[k] == entries[row + k * rows],
        decreases cols - j,
    {
        proof {
            vstd::arithmetic::mul::lemma_mul_inequality(j as int + 1, cols as int, rows as int);
            vstd::arithmetic::mul::lemma_mul_is_distributive_add_other_way(
                rows as int,
                j as int,
                1,
            );
        }
        let at = row + j * rows;
        out.push(entries[at]);
        j = j + 1;
    }
    out
}

/// Every element of the sequence is reduced.
pub open spec fn all_wf<C: FpConfig<N>, const N: usize>(s: Seq<Fp<C, N>>) -> bool {
    forall|i: int| 0 <= i < s.len() ==> (#[trigger] s[i]).wf()
}

/// `sum_i a[i] * b[i]` over the integers, on the values of the elements.
pub open spec fn dot_value<C: FpConfig<N>, const N: usize>(
    a: Seq<Fp<C, N>>,
    b: Seq<Fp<C, N>>,
) -> int
    decreases a.len(),
{
    if a.len() == 0 {
        0
    } else {
        dot_value(a.drop_last(), b) + a.last().value() * b[a.len() - 1].value()
    }
}

/// The value of `x` as an integer.
pub open spec fn fv<C: FpConfig<N>, const N: usize>(x: Fp<C, N>) -> int {
    x.value() as int
}

/// The modulus as an integer.
pub open spec fn pm<C: FpConfig<N>, const N: usize>() -> int {
    Fp::<C, N>::modulus_value() as int
}

/// `(a + b * c) mod p` does not depend on reducing `b * c` first.
pub proof fn lemma_add_mul_mod(a: int, b: int, c: int, p: int)
    requires
        p > 0,
    ensures
        (a % p + (b * c) % p) % p == (a + b * c) % p,
{
    lemma_add_mod_noop(a, b * c, p);
}

/// Products of congruent factors are congruent.
pub proof fn lemma_mul_cong(a: int, b: int, a2: int, b2: int, p: int)
    requires
        p > 0,
        a % p == a2 % p,
        b % p == b2 % p,
    ensures
        (a * b) % p == (a2 * b2) % p,
{
    lemma_mul_mod_noop(a, b, p);
    lemma_mul_mod_noop(a2, b2, p);
}

/// Sums of congruent terms are congruent.
pub proof fn lemma_add_cong(a: int, b: int, a2: int, b2: int, p: int)
    requires
        p > 0,
        a % p == a2 % p,
        b % p == b2 % p,
    ensures
        (a + b) % p == (a2 + b2) % p,
{
    lemma_add_mod_noop(a, b, p);
    lemma_add_mod_noop(a2, b2, p);
}

/// Differences of congruent terms are congruent.
pub proof fn lemma_sub_cong(a: int, b: int, a2: int, b2: int, p: int)
    requires
        p > 0,
        a % p == a2 % p,
        b % p == b2 % p,
    ensures
        (a - b) % p == (a2 - b2) % p,
{
    lemma_sub_mod_noop(a, b, p);
    lemma_sub_mod_noop(a2, b2, p);
}

/// The modulus exceeds one.
pub proof fn lemma_pm_pos<C: FpConfig<N>, const N: usize>()
    ensures
        pm::<C, N>() > 2,
{
    C::lemma_config_ok();
}

/// A reduced value is its own residue.
pub proof fn lemma_reduced<C: FpConfig<N>, const N: usize>(x: Fp<C, N>)
    ensures
        fv(x) % pm::<C, N>() == fv(x),
        0 <= fv(x) < pm::<C, N>(),
        pm::<C, N>() > 1,
{
    x.lemma_value_bound();
    lemma_small_mod(x.value(), Fp::<C, N>::modulus_value());
}

/// The inner product `sum_i lhs[i] * rhs[i]`.
pub fn inner_product<C: FpConfig<N>, const N: usize>(
    lhs: &[Fp<C, N>],
    rhs: &[Fp<C, N>],
) -> (r: Fp<C, N>)
    requires
        lhs.len() == rhs.len(),
        all_wf(lhs@),
        all_wf(rhs@),
    ensures
        r.wf(),
        fv(r) == dot_value(lhs@, rhs@) % pm::<C, N>(),
{
    let mut acc = Fp::<C, N>::zero();
    let mut i: usize = 0;
    proof {
        acc.lemma_value_bound();
        assert(dot_value(lhs@.take(0), rhs@) == 0);
        lemma_small_mod(0, Fp::<C, N>::modulus_value());
    }
    while i < lhs.len()
        invariant
            i <= lhs.len(),
            lhs.len() == rhs.len(),
            all_wf(lhs@),
            all_wf(rhs@),
            acc.wf(),
            fv(acc) == dot_value(lhs@.take(i as int), rhs@) % pm::<C, N>(),
        decreases lhs.len() - i,
    {
        let prod = lhs[i].mul(rhs[i]);
        let ghost before = fv(acc);
        acc = acc.add(prod);
        proof {
            acc.lemma_value_bound();
            let t = lhs@.take(i as int + 1);
            assert(t.drop_last() =~= lhs@.take(i as int));
            assert(t.last() == lhs@[i as int]);
            lemma_add_mul_mod(
                dot_value(lhs@.take(i as int), rhs@),
                fv(lhs@[i as int]),
                fv(rhs@[i as int]),
                pm::<C, N>(),
            );
            lemma_mod_twice(dot_value(lhs@.take(i as int), rhs@), pm::<C, N>());
        }
        i = i + 1;
    }
    proof {
        assert(lhs@.take(lhs.len() as int) =~= lhs@);
    }
    acc
}

/// One split-and-fold step: `v -> left * v_lo + right * v_hi`, where `v_lo`
/// and `v_hi` are the two halves of `v`.
pub fn fold_halves<C: FpConfig<N>, const N: usize>(
    values: &[Fp<C, N>],
    left: Fp<C, N>,
    right: Fp<C, N>,
) -> (r: Vec<Fp<C, N>>)
    requires
        values.len() % 2 == 0,
        all_wf(values@),
        left.wf(),
        right.wf(),
    ensures
        r.len() == values.len() / 2,
        all_wf(r@),
        forall|i: int|
            0 <= i < r.len() ==> fv(#[trigger] r[i]) == (fv(values[i]) * fv(left) + fv(
                values[i + values.len() / 2],
            ) * fv(right)) % pm::<C, N>(),
{
    let half = values.len() / 2;
    let mut out: Vec<Fp<C, N>> = Vec::new();
    let mut i: usize = 0;
    while i < half
        invariant
            half == values.len() / 2,
            values.len() % 2 == 0,
            all_wf(values@),
            left.wf(),
            right.wf(),
            i <= half,
            out.len() == i,
            all_wf(out@),
            forall|k: int|
                0 <= k < i ==> fv(#[trigger] out[k]) == (fv(values[k]) * fv(left) + fv(
                    values[k + half],
                ) * fv(right)) % pm::<C, N>(),
        decreases half - i,
    {
        let lo = values[i].mul(left);
        let hi = values[i + half].mul(right);
        let v = lo.add(hi);
        proof {
            let p = pm::<C, N>();
            left.lemma_value_bound();
            lemma_add_mod_noop(fv(values[i as int]) * fv(left), fv(values[i + half]) * fv(right), p);
        }
        out.push(v);
        i = i + 1;
    }
    out
}

} // verus!
