//! Operators and ambient constructors for multivariate polynomials.

use crate::ff::{Fp, FpConfig};
use crate::helpers::{fv, pm, ConstantLike, OneLike, VariableLike, ZeroLike};
use crate::mv_poly::{product_fits, prod_sum, unit_exps, zero_exps, MvPolynomial};
use vstd::prelude::*;

verus! {

impl<C: FpConfig<L>, const L: usize, const N: usize> vstd::std_specs::ops::AddSpecImpl<MvPolynomial<C, L, N>> for MvPolynomial<C, L, N> {
    open spec fn obeys_add_spec() -> bool {
        false
    }

    open spec fn add_req(self, rhs: MvPolynomial<C, L, N>) -> bool {
        self.poly_wf() && rhs.poly_wf()
    }

    open spec fn add_spec(self, rhs: MvPolynomial<C, L, N>) -> MvPolynomial<C, L, N> {
        MvPolynomial::<C, L, N>::spec_zero()
    }
}

impl<C: FpConfig<L>, const L: usize, const N: usize> core::ops::Add<MvPolynomial<C, L, N>> for MvPolynomial<C, L, N> {
    type Output = MvPolynomial<C, L, N>;

    fn add(self, rhs: MvPolynomial<C, L, N>) -> (r: MvPolynomial<C, L, N>)
        ensures
            r.poly_wf(),
            forall|m: Seq<usize>| #[trigger] r.coeff(m) == (self.coeff(m) + rhs.coeff(m)) % pm::<C, L>(),
    {
        MvPolynomial::add_poly(&self, &rhs)
    }
}

impl<'a, C: FpConfig<L>, const L: usize, const N: usize> vstd::std_specs::ops::AddSpecImpl<&'a MvPolynomial<C, L, N>> for MvPolynomial<C, L, N> {
    open spec fn obeys_add_spec() -> bool {
        false
    }

    open spec fn add_req(self, rhs: &'a MvPolynomial<C, L, N>) -> bool {
        self.poly_wf() && rhs.poly_wf()
    }

    open spec fn add_spec(self, rhs: &'a MvPolynomial<C, L, N>) -> MvPolynomial<C, L, N> {
        MvPolynomial::<C, L, N>::spec_zero()
    }
}

impl<'a, C: FpConfig<L>, const L: usize, const N: usize> core::ops::Add<&'a MvPolynomial<C, L, N>> for MvPolynomial<C, L, N> {
    type Output = MvPolynomial<C, L, N>;

    fn add(self, rhs: &'a MvPolynomial<C, L, N>) -> (r: MvPolynomial<C, L, N>)
        ensures
            r.poly_wf(),
            forall|m: Seq<usize>| #[trigger] r.coeff(m) == (self.coeff(m) + rhs.coeff(m)) % pm::<C, L>(),
    {
        MvPolynomial::add_poly(&self, rhs)
    }
}

impl<'a, C: FpConfig<L>, const L: usize, const N: usize> vstd::std_specs::ops::AddSpecImpl<&'a MvPolynomial<C, L, N>> for &'a MvPolynomial<C, L, N> {
    open spec fn obeys_add_spec() -> bool {
        false
    }

    open spec fn add_req(self, rhs: &'a MvPolynomial<C, L, N>) -> bool {
        self.poly_wf() && rhs.poly_wf()
    }

    open spec fn add_spec(self, rhs: &'a MvPolynomial<C, L, N>) -> MvPolynomial<C, L, N> {
        MvPolynomial::<C, L, N>::spec_zero()
    }
}

impl<'a, C: FpConfig<L>, const L: usize, const N: usize> core::ops::Add<&'a MvPolynomial<C, L, N>> for &'a MvPolynomial<C, L, N> {
    type Output = MvPolynomial<C, L, N>;

    fn add(self, rhs: &'a MvPolynomial<C, L, N>) -> (r: MvPolynomial<C, L, N>)
        ensures
            r.poly_wf(),
            forall|m: Seq<usize>| #[trigger] r.coeff(m) == (self.coeff(m) + rhs.coeff(m)) % pm::<C, L>(),
    {
        MvPolynomial::add_poly(self, rhs)
    }
}

impl<C: FpConfig<L>, const L: usize, const N: usize> vstd::std_specs::ops::SubSpecImpl<MvPolynomial<C, L, N>> for MvPolynomial<C, L, N> {
    open spec fn obeys_sub_spec() -> bool {
        false
    }

    open spec fn sub_req(self, rhs: MvPolynomial<C, L, N>) -> bool {
        self.poly_wf() && rhs.poly_wf()
    }

    open spec fn sub_spec(self, rhs: MvPolynomial<C, L, N>) -> MvPolynomial<C, L, N> {
        MvPolynomial::<C, L, N>::spec_zero()
    }
}

impl<C: FpConfig<L>, const L: usize, const N: usize> core::ops::Sub<MvPolynomial<C, L, N>> for MvPolynomial<C, L, N> {
    type Output = MvPolynomial<C, L, N>;

    fn sub(self, rhs: MvPolynomial<C, L, N>) -> (r: MvPolynomial<C, L, N>)
        ensures
            r.poly_wf(),
            forall|m: Seq<usize>| #[trigger] r.coeff(m) == (self.coeff(m) - rhs.coeff(m)) % pm::<C, L>(),
    {
        MvPolynomial::sub_poly(&self, &rhs)
    }
}

impl<'a, C: FpConfig<L>, const L: usize, const N: usize> vstd::std_specs::ops::SubSpecImpl<&'a MvPolynomial<C, L, N>> for MvPolynomial<C, L, N> {
    open spec fn obeys_sub_spec() -> bool {
        false
    }

    open spec fn sub_req(self, rhs: &'a MvPolynomial<C, L, N>) -> bool {
        self.poly_wf() && rhs.poly_wf()
    }

    open spec fn sub_spec(self, rhs: &'a MvPolynomial<C, L, N>) -> MvPolynomial<C, L, N> {
        MvPolynomial::<C, L, N>::spec_zero()
    }
}

impl<'a, C: FpConfig<L>, const L: usize, const N: usize> core::ops::Sub<&'a MvPolynomial<C, L, N>> for MvPolynomial<C, L, N> {
    type Output = MvPolynomial<C, L, N>;

    fn sub(self, rhs: &'a MvPolynomial<C, L, N>) -> (r: MvPolynomial<C, L, N>)
        ensures
            r.poly_wf(),
            forall|m: Seq<usize>| #[trigger] r.coeff(m) == (self.coeff(m) - rhs.coeff(m)) % pm::<C, L>(),
    {
        MvPolynomial::sub_poly(&self, rhs)
    }
}

impl<'a, C: FpConfig<L>, const L: usize, const N: usize> vstd::std_specs::ops::SubSpecImpl<&'a MvPolynomial<C, L, N>> for &'a MvPolynomial<C, L, N> {
    open spec fn obeys_sub_spec() -> bool {
        false
    }

    open spec fn sub_req(self, rhs: &'a MvPolynomial<C, L, N>) -> bool {
        self.poly_wf() && rhs.poly_wf()
    }

    open spec fn sub_spec(self, rhs: &'a MvPolynomial<C, L, N>) -> MvPolynomial<C, L, N> {
        MvPolynomial::<C, L, N>::spec_zero()
    }
}

impl<'a, C: FpConfig<L>, const L: usize, const N: usize> core::ops::Sub<&'a MvPolynomial<C, L, N>> for &'a MvPolynomial<C, L, N> {
    type Output = MvPolynomial<C, L, N>;

    fn sub(self, rhs: &'a MvPolynomial<C, L, N>) -> (r: MvPolynomial<C, L, N>)
        ensures
            r.poly_wf(),
            forall|m: Seq<usize>| #[trigger] r.coeff(m) == (self.coeff(m) - rhs.coeff(m)) % pm::<C, L>(),
    {
        MvPolynomial::sub_poly(self, rhs)
    }
}

impl<C: FpConfig<L>, const L: usize, const N: usize> vstd::std_specs::ops::MulSpecImpl<MvPolynomial<C, L, N>> for MvPolynomial<C, L, N> {
    open spec fn obeys_mul_spec() -> bool {
        false
    }

    open spec fn mul_req(self, rhs: MvPolynomial<C, L, N>) -> bool {
        self.poly_wf() && rhs.poly_wf() && product_fits(self.spec_terms(), rhs.spec_terms())
    }

    open spec fn mul_spec(self, rhs: MvPolynomial<C, L, N>) -> MvPolynomial<C, L, N> {
        MvPolynomial::<C, L, N>::spec_zero()
    }
}

impl<C: FpConfig<L>, const L: usize, const N: usize> core::ops::Mul<MvPolynomial<C, L, N>> for MvPolynomial<C, L, N> {
    type Output = MvPolynomial<C, L, N>;

    fn mul(self, rhs: MvPolynomial<C, L, N>) -> (r: MvPolynomial<C, L, N>)
        ensures
            r.poly_wf(),
            forall|m: Seq<usize>|
                #[trigger] r.coeff(m) == prod_sum(self.spec_terms(), rhs.spec_terms(), m) % pm::<C, L>(),
    {
        MvPolynomial::mul_poly(&self, &rhs)
    }
}

impl<'a, C: FpConfig<L>, const L: usize, const N: usize> vstd::std_specs::ops::MulSpecImpl<&'a MvPolynomial<C, L, N>> for MvPolynomial<C, L, N> {
    open spec fn obeys_mul_spec() -> bool {
        false
    }

    open spec fn mul_req(self, rhs: &'a MvPolynomial<C, L, N>) -> bool {
        self.poly_wf() && rhs.poly_wf() && product_fits(self.spec_terms(), rhs.spec_terms())
    }

    open spec fn mul_spec(self, rhs: &'a MvPolynomial<C, L, N>) -> MvPolynomial<C, L, N> {
        MvPolynomial::<C, L, N>::spec_zero()
    }
}

impl<'a, C: FpConfig<L>, const L: usize, const N: usize> core::ops::Mul<&'a MvPolynomial<C, L, N>> for MvPolynomial<C, L, N> {
    type Output = MvPolynomial<C, L, N>;

    fn mul(self, rhs: &'a MvPolynomial<C, L, N>) -> (r: MvPolynomial<C, L, N>)
        ensures
            r.poly_wf(),
            forall|m: Seq<usize>|
                #[trigger] r.coeff(m) == prod_sum(self.spec_terms(), rhs.spec_terms(), m) % pm::<C, L>(),
    {
        MvPolynomial::mul_poly(&self, rhs)
    }
}

impl<'a, C: FpConfig<L>, const L: usize, const N: usize> vstd::std_specs::ops::MulSpecImpl<&'a MvPolynomial<C, L, N>> for &'a MvPolynomial<C, L, N> {
    open spec fn obeys_mul_spec() -> bool {
        false
    }

    open spec fn mul_req(self, rhs: &'a MvPolynomial<C, L, N>) -> bool {
        self.poly_wf() && rhs.poly_wf() && product_fits(self.spec_terms(), rhs.spec_terms())
    }

    open spec fn mul_spec(self, rhs: &'a MvPolynomial<C, L, N>) -> MvPolynomial<C, L, N> {
        MvPolynomial::<C, L, N>::spec_zero()
    }
}

impl<'a, C: FpConfig<L>, const L: usize, const N: usize> core::ops::Mul<&'a MvPolynomial<C, L, N>> for &'a MvPolynomial<C, L, N> {
    type Output = MvPolynomial<C, L, N>;

    fn mul(self, rhs: &'a MvPolynomial<C, L, N>) -> (r: MvPolynomial<C, L, N>)
        ensures
            r.poly_wf(),
            forall|m: Seq<usize>|
                #[trigger] r.coeff(m) == prod_sum(self.spec_terms(), rhs.spec_terms(), m) % pm::<C, L>(),
    {
        MvPolynomial::mul_poly(self, rhs)
    }
}

impl<C: FpConfig<L>, const L: usize, const N: usize> vstd::std_specs::ops::MulSpecImpl<Fp<C, L>> for MvPolynomial<C, L, N> {
    open spec fn obeys_mul_spec() -> bool {
        false
    }

    open spec fn mul_req(self, rhs: Fp<C, L>) -> bool {
        self.poly_wf() && rhs.wf()
    }

    open spec fn mul_spec(self, rhs: Fp<C, L>) -> MvPolynomial<C, L, N> {
        MvPolynomial::<C, L, N>::spec_zero()
    }
}

impl<C: FpConfig<L>, const L: usize, const N: usize> core::ops::Mul<Fp<C, L>> for MvPolynomial<C, L, N> {
    type Output = MvPolynomial<C, L, N>;

    fn mul(self, rhs: Fp<C, L>) -> (r: MvPolynomial<C, L, N>)
        ensures
            r.poly_wf(),
            forall|m: Seq<usize>| #[trigger] r.coeff(m) == (self.coeff(m) * fv(rhs)) % pm::<C, L>(),
    {
        self.scale(rhs)
    }
}

impl<'a, C: FpConfig<L>, const L: usize, const N: usize> vstd::std_specs::ops::MulSpecImpl<Fp<C, L>> for &'a MvPolynomial<C, L, N> {
    open spec fn obeys_mul_spec() -> bool {
        false
    }

    open spec fn mul_req(self, rhs: Fp<C, L>) -> bool {
        self.poly_wf() && rhs.wf()
    }

    open spec fn mul_spec(self, rhs: Fp<C, L>) -> MvPolynomial<C, L, N> {
        MvPolynomial::<C, L, N>::spec_zero()
    }
}

impl<'a, C: FpConfig<L>, const L: usize, const N: usize> core::ops::Mul<Fp<C, L>> for &'a MvPolynomial<C, L, N> {
    type Output = MvPolynomial<C, L, N>;

    fn mul(self, rhs: Fp<C, L>) -> (r: MvPolynomial<C, L, N>)
        ensures
            r.poly_wf(),
            forall|m: Seq<usize>| #[trigger] r.coeff(m) == (self.coeff(m) * fv(rhs)) % pm::<C, L>(),
    {
        MvPolynomial::scale_ref(self, rhs)
    }
}

impl<C: FpConfig<L>, const L: usize, const N: usize> vstd::std_specs::ops::NegSpecImpl for MvPolynomial<C, L, N> {
    open spec fn obeys_neg_spec() -> bool {
        false
    }

    open spec fn neg_req(self) -> bool {
        self.poly_wf()
    }

    open spec fn neg_spec(self) -> MvPolynomial<C, L, N> {
        MvPolynomial::<C, L, N>::spec_zero()
    }
}

impl<C: FpConfig<L>, const L: usize, const N: usize> core::ops::Neg for MvPolynomial<C, L, N> {
    type Output = MvPolynomial<C, L, N>;

    fn neg(self) -> (r: MvPolynomial<C, L, N>)
        ensures
            r.poly_wf(),
            forall|m: Seq<usize>| #[trigger] r.coeff(m) == (0 - self.coeff(m)) % pm::<C, L>(),
    {
        self.neg_poly()
    }
}

impl<'a, C: FpConfig<L>, const L: usize, const N: usize> vstd::std_specs::ops::NegSpecImpl for &'a MvPolynomial<C, L, N> {
    open spec fn obeys_neg_spec() -> bool {
        false
    }

    open spec fn neg_req(self) -> bool {
        self.poly_wf()
    }

    open spec fn neg_spec(self) -> MvPolynomial<C, L, N> {
        MvPolynomial::<C, L, N>::spec_zero()
    }
}

impl<'a, C: FpConfig<L>, const L: usize, const N: usize> core::ops::Neg for &'a MvPolynomial<C, L, N> {
    type Output = MvPolynomial<C, L, N>;

    fn neg(self) -> (r: MvPolynomial<C, L, N>)
        ensures
            r.poly_wf(),
            forall|m: Seq<usize>| #[trigger] r.coeff(m) == (0 - self.coeff(m)) % pm::<C, L>(),
    {
        MvPolynomial::neg_poly(self)
    }
}

impl<C: FpConfig<L>, const L: usize, const N: usize> core::ops::AddAssign<MvPolynomial<C, L, N>> for MvPolynomial<C, L, N> {
    fn add_assign(&mut self, rhs: MvPolynomial<C, L, N>)
        requires
            old(self).poly_wf(),
            rhs.poly_wf(),
        ensures
            final(self).poly_wf(),
            forall|m: Seq<usize>| #[trigger] final(self).coeff(m) == (old(self).coeff(m) + rhs.coeff(m)) % pm::<C, L>(),
    {
        let next = MvPolynomial::add_poly(&*self, &rhs);
        *self = next;
    }
}

impl<'a, C: FpConfig<L>, const L: usize, const N: usize> core::ops::AddAssign<&'a MvPolynomial<C, L, N>> for MvPolynomial<C, L, N> {
    fn add_assign(&mut self, rhs: &'a MvPolynomial<C, L, N>)
        requires
            old(self).poly_wf(),
            rhs.poly_wf(),
        ensures
            final(self).poly_wf(),
            forall|m: Seq<usize>| #[trigger] final(self).coeff(m) == (old(self).coeff(m) + rhs.coeff(m)) % pm::<C, L>(),
    {
        let next = MvPolynomial::add_poly(&*self, rhs);
        *self = next;
    }
}

impl<C: FpConfig<L>, const L: usize, const N: usize> core::ops::SubAssign<MvPolynomial<C, L, N>> for MvPolynomial<C, L, N> {
    fn sub_assign(&mut self, rhs: MvPolynomial<C, L, N>)
        requires
            old(self).poly_wf(),
            rhs.poly_wf(),
        ensures
            final(self).poly_wf(),
            forall|m: Seq<usize>| #[trigger] final(self).coeff(m) == (old(self).coeff(m) - rhs.coeff(m)) % pm::<C, L>(),
    {
        let next = MvPolynomial::sub_poly(&*self, &rhs);
        *self = next;
    }
}

impl<'a, C: FpConfig<L>, const L: usize, const N: usize> core::ops::SubAssign<&'a MvPolynomial<C, L, N>> for MvPolynomial<C, L, N> {
    fn sub_assign(&mut self, rhs: &'a MvPolynomial<C, L, N>)
        requires
            old(self).poly_wf(),
            rhs.poly_wf(),
        ensures
            final(self).poly_wf(),
            forall|m: Seq<usize>| #[trigger] final(self).coeff(m) == (old(self).coeff(m) - rhs.coeff(m)) % pm::<C, L>(),
    {
        let next = MvPolynomial::sub_poly(&*self, rhs);
        *self = next;
    }
}

impl<C: FpConfig<L>, const L: usize, const N: usize> core::ops::MulAssign<MvPolynomial<C, L, N>> for MvPolynomial<C, L, N> {
    fn mul_assign(&mut self, rhs: MvPolynomial<C, L, N>)
        requires
            old(self).poly_wf(),
            rhs.poly_wf(),
            product_fits(old(self).spec_terms(), rhs.spec_terms()),
        ensures
            final(self).poly_wf(),
            forall|m: Seq<usize>| #[trigger] final(self).coeff(m) == prod_sum(old(self).spec_terms(), rhs.spec_terms(), m) % pm::<C, L>(),
    {
        let next = MvPolynomial::mul_poly(&*self, &rhs);
        *self = next;
    }
}

impl<'a, C: FpConfig<L>, const L: usize, const N: usize> core::ops::MulAssign<&'a MvPolynomial<C, L, N>> for MvPolynomial<C, L, N> {
    fn mul_assign(&mut self, rhs: &'a MvPolynomial<C, L, N>)
        requires
            old(self).poly_wf(),
            rhs.poly_wf(),
            product_fits(old(self).spec_terms(), rhs.spec_terms()),
        ensures
            final(self).poly_wf(),
            forall|m: Seq<usize>| #[trigger] final(self).coeff(m) == prod_sum(old(self).spec_terms(), rhs.spec_terms(), m) % pm::<C, L>(),
    {
        let next = MvPolynomial::mul_poly(&*self, rhs);
        *self = next;
    }
}

impl<C: FpConfig<L>, const L: usize, const N: usize> ZeroLike for MvPolynomial<C, L, N> {
    fn zero_like(&self) -> (r: Self)
        ensures
            r.poly_wf(),
            forall|m: Seq<usize>| #[trigger] r.coeff(m) == 0,
    {
        Self::zero()
    }
}

impl<C: FpConfig<L>, const L: usize, const N: usize> OneLike for MvPolynomial<C, L, N> {
    fn one_like(&self) -> (r: Self)
        ensures
            r.poly_wf(),
            forall|m: Seq<usize>|
                #[trigger] r.coeff(m) == if m == zero_exps(N as nat) {
                    1int
                } else {
                    0
                },
    {
        Self::one()
    }
}

impl<C: FpConfig<L>, const L: usize, const N: usize> ConstantLike<Fp<C, L>> for MvPolynomial<
    C,
    L,
    N,
> {
    /// Zero when `coeff` is not a reduced element, which the field never hands out.
    fn constant_like(&self, coeff: Fp<C, L>) -> (r: Self)
        ensures
            coeff.wf() ==> r.poly_wf(),
            coeff.wf() ==> forall|m: Seq<usize>|
                #[trigger] r.coeff(m) == if m == zero_exps(N as nat) {
                    fv(coeff)
                } else {
                    0
                },
    {
        if coeff.is_reduced() {
            Self::constant(coeff)
        } else {
            Self::zero()
        }
    }
}

impl<C: FpConfig<L>, const L: usize, const N: usize> VariableLike for MvPolynomial<C, L, N> {
    open spec fn ambient_vars(&self) -> nat {
        N as nat
    }

    fn variable_like(&self, index: usize) -> (r: Self)
        ensures
            r.poly_wf(),
            forall|m: Seq<usize>|
                #[trigger] r.coeff(m) == if m == unit_exps(N as nat, index as int) {
                    1int
                } else {
                    0
                },
    {
        Self::variable(index)
    }
}

} // verus!
