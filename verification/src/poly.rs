//! Monomials in `N` variables, written as exponent vectors.

use vstd::prelude::*;

verus! {

/// The sum of a sequence of exponents.
pub open spec fn exps_sum(s: Seq<usize>) -> int
    decreases s.len(),
{
    if s.len() == 0 {
        0
    } else {
        exps_sum(s.drop_last()) + s.last() as int
    }
}

/// The exponents of the product of two monomials.
pub open spec fn exps_add(a: Seq<usize>, b: Seq<usize>) -> Seq<usize> {
    Seq::new(a.len(), |i: int| (a[i] + b[i]) as usize)
}

/// The monomial `x_0^e_0 * x_1^e_1 * ... * x_{N-1}^e_{N-1}`, kept as its
/// exponent vector `[e_0, ..., e_{N-1}]`.
#[derive(Clone, Copy, Debug, PartialEq, Eq, PartialOrd, Ord)]
pub struct Monomial<const N: usize> {
    exps: [usize; N],
}

impl<const N: usize> Monomial<N> {
    /// The exponent vector.
    pub closed spec fn spec_exps(&self) -> Seq<usize> {
        self.exps@
    }

    pub proof fn lemma_len(&self)
        ensures
            self.spec_exps().len() == N,
    {
    }

    /// The monomial with the given exponents.
    pub fn new(exps: [usize; N]) -> (r: Self)
        ensures
            r.spec_exps() == exps@,
    {
        Self { exps }
    }

    /// The variable `x_index`.
    pub fn variable(index: usize) -> (r: Self)
        requires
            index < N,
        ensures
            r.spec_exps().len() == N,
            forall|i: int| 0 <= i < N ==> #[trigger] r.spec_exps()[i] == (if i == index {
                1usize
            } else {
                0usize
            }),
    {
        let mut exps = [0usize; N];
        exps[index] = 1;
        Self { exps }
    }

    /// The monomial `1`, every exponent zero.
    pub fn one() -> (r: Self)
        ensures
            r.spec_exps().len() == N,
            forall|i: int| 0 <= i < N ==> #[trigger] r.spec_exps()[i] == 0,
    {
        Self { exps: [0usize; N] }
    }

    /// All the exponents.
    pub fn exponents(&self) -> (r: &[usize; N])
        ensures
            r@ == self.spec_exps(),
    {
        &self.exps
    }

    /// The exponent of `x_index`.
    pub fn exponent(&self, index: usize) -> (r: usize)
        requires
            index < N,
        ensures
            r == self.spec_exps()[index as int],
    {
        self.exps[index]
    }

    /// The total degree, the sum of the exponents.
    pub fn degree(&self) -> (r: usize)
        requires
            exps_sum(self.spec_exps()) <= usize::MAX,
        ensures
            r as int == exps_sum(self.spec_exps()),
    {
        let mut sum: usize = 0;
        let mut i: usize = 0;
        while i < N
            invariant
                i <= N,
                self.exps@.len() == N,
                exps_sum(self.exps@) <= usize::MAX,
                sum as int == exps_sum(self.exps@.take(i as int)),
            decreases N - i,
        {
            proof {
                assert(self.exps@.take(i as int + 1).drop_last() =~= self.exps@.take(i as int));
                lemma_exps_sum_prefix(self.exps@, i as int + 1);
            }
            sum = sum + self.exps[i];
            i = i + 1;
        }
        proof {
            assert(self.exps@.take(N as int) =~= self.exps@);
        }
        sum
    }

    /// Whether this is the monomial `1`.
    pub fn is_one(&self) -> (r: bool)
        ensures
            r == (forall|i: int| 0 <= i < N ==> #[trigger] self.spec_exps()[i] == 0),
    {
        let mut i: usize = 0;
        while i < N
            invariant
                i <= N,
                self.exps@.len() == N,
                forall|k: int| 0 <= k < i ==> #[trigger] self.exps@[k] == 0,
            decreases N - i,
        {
            if self.exps[i] != 0 {
                assert(self.spec_exps()[i as int] != 0);
                return false;
            }
            i = i + 1;
        }
        true
    }

    /// The product of two monomials: the exponents add up.
    pub fn mul(&self, rhs: &Self) -> (r: Self)
        requires
            forall|i: int|
                0 <= i < N ==> #[trigger] self.spec_exps()[i] + rhs.spec_exps()[i] <= usize::MAX,
        ensures
            r.spec_exps().len() == N,
            forall|i: int|
                0 <= i < N ==> #[trigger] r.spec_exps()[i] == self.spec_exps()[i]
                    + rhs.spec_exps()[i],
            r.spec_exps() == exps_add(self.spec_exps(), rhs.spec_exps()),
    {
        let mut exps = [0usize; N];
        let mut i: usize = 0;
        while i < N
            invariant
                i <= N,
                exps@.len() == N,
                self.exps@.len() == N,
                rhs.exps@.len() == N,
                forall|k: int|
                    0 <= k < N ==> #[trigger] self.spec_exps()[k] + rhs.spec_exps()[k] <= usize::MAX,
                forall|k: int| 0 <= k < i ==> #[trigger] exps@[k] == self.exps@[k] + rhs.exps@[k],
            decreases N - i,
        {
            assert(self.spec_exps()[i as int] + rhs.spec_exps()[i as int] <= usize::MAX);
            exps[i] = self.exps[i] + rhs.exps[i];
            i = i + 1;
        }
        let r = Monomial { exps };
        proof {
            assert(r.spec_exps() =~= exps_add(self.spec_exps(), rhs.spec_exps()));
        }
        r
    }

    /// A monomial is its exponent vector.
    pub proof fn lemma_exps_determine(a: Self, b: Self)
        requires
            a.spec_exps() == b.spec_exps(),
        ensures
            a == b,
    {
        assert(a.exps =~= b.exps);
    }
}

/// The product of monomials does not depend on the order of the factors.
pub proof fn lemma_mul_commutative<const N: usize>(a: Monomial<N>, b: Monomial<N>, ab: Monomial<N>, ba: Monomial<N>)
    requires
        ab.spec_exps() == exps_add(a.spec_exps(), b.spec_exps()),
        ba.spec_exps() == exps_add(b.spec_exps(), a.spec_exps()),
    ensures
        ab == ba,
{
    a.lemma_len();
    b.lemma_len();
    assert(ab.spec_exps() =~= ba.spec_exps());
    Monomial::<N>::lemma_exps_determine(ab, ba);
}

/// The monomial `1` is the unit of the product.
pub proof fn lemma_mul_one<const N: usize>(a: Monomial<N>, one: Monomial<N>, r: Monomial<N>)
    requires
        one.spec_exps().len() == N,
        forall|i: int| 0 <= i < N ==> #[trigger] one.spec_exps()[i] == 0,
        r.spec_exps() == exps_add(a.spec_exps(), one.spec_exps()),
    ensures
        r == a,
{
    a.lemma_len();
    assert(r.spec_exps() =~= a.spec_exps());
    Monomial::<N>::lemma_exps_determine(r, a);
}

/// The degree of a product is the sum of the degrees, where no exponent
/// overflows.
pub proof fn lemma_mul_degree(a: Seq<usize>, b: Seq<usize>)
    requires
        a.len() == b.len(),
        forall|i: int| 0 <= i < a.len() ==> #[trigger] a[i] + b[i] <= usize::MAX,
    ensures
        exps_sum(exps_add(a, b)) == exps_sum(a) + exps_sum(b),
    decreases a.len(),
{
    if a.len() > 0 {
        let n = a.len() - 1;
        assert(exps_add(a, b).drop_last() =~= exps_add(a.drop_last(), b.drop_last()));
        assert(a[n] + b[n] <= usize::MAX);
        lemma_mul_degree(a.drop_last(), b.drop_last());
    }
}

/// Each prefix of the exponents sums to at most the whole.
proof fn lemma_exps_sum_prefix(s: Seq<usize>, k: int)
    requires
        0 <= k <= s.len(),
    ensures
        exps_sum(s.take(k)) <= exps_sum(s),
    decreases s.len(),
{
    if k < s.len() {
        assert(s.drop_last().take(k) =~= s.take(k));
        lemma_exps_sum_prefix(s.drop_last(), k);
    } else {
        assert(s.take(k) =~= s);
    }
}

} // verus!
