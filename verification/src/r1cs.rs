//! Rank-one constraint systems `A z o B z = C z`.

use crate::ff::{Fp, FpConfig};
use crate::helpers::{all_wf, fv, lemma_pm_pos, pm};
use crate::matrix::{mul_vec, row_dot, Matrix};
use crate::uni_poly::values_of;
use vstd::arithmetic::div_mod::*;
use vstd::prelude::*;

verus! {

/// The sizes of an R1CS instance. The layout of the assignment `z` is fixed by
/// the constraint system that uses these sizes.
#[derive(Clone, Copy, Debug, PartialEq, Eq)]
pub struct R1CSStructure {
    pub num_constraints: usize,
    pub num_io: usize,
    pub num_witness: usize,
}

impl R1CSStructure {
    pub fn new(num_constraints: usize, num_io: usize, num_witness: usize) -> (r: Self)
        ensures
            r.num_constraints == num_constraints,
            r.num_io == num_io,
            r.num_witness == num_witness,
    {
        Self { num_constraints, num_io, num_witness }
    }

    /// The length of the dense assignment `z = [1, io..., witness...]`.
    pub fn dense_len(&self) -> (r: usize)
        requires
            1 + self.num_io + self.num_witness <= usize::MAX,
        ensures
            r == 1 + self.num_io + self.num_witness,
    {
        1 + self.num_io + self.num_witness
    }
}


/// Row `i` of `A z o B z = C z` holds modulo `p`.
pub open spec fn row_holds<C: FpConfig<L>, const L: usize, M: Matrix<C, L>>(
    a: &M,
    b: &M,
    c: &M,
    i: int,
    z: Seq<int>,
) -> bool {
    let n = a.spec_cols();
    (row_dot::<C, L, M>(a, i, z, n) % pm::<C, L>()) * (row_dot::<C, L, M>(b, i, z, n) % pm::<C, L>())
        % pm::<C, L>() == row_dot::<C, L, M>(c, i, z, n) % pm::<C, L>()
}

/// The constraint system `A z o B z = C z` with the dense layout
/// `z = [1, io..., witness...]`, without padding.
pub struct R1CS<C: FpConfig<L>, const L: usize, M: Matrix<C, L>> {
    pub a: M,
    pub b: M,
    pub c: M,
    pub structure: R1CSStructure,
    pub _field: core::marker::PhantomData<Fp<C, L>>,
}

impl<C: FpConfig<L>, const L: usize, M: Matrix<C, L>> R1CS<C, L, M> {
    /// The system is consistent: three matrices of one shape, one row per
    /// constraint and one column per assignment entry, all reduced.
    pub open spec fn r1cs_wf(&self) -> bool {
        &&& self.a.mat_wf()
        &&& self.b.mat_wf()
        &&& self.c.mat_wf()
        &&& self.a.spec_rows() == self.b.spec_rows() == self.c.spec_rows()
        &&& self.a.spec_cols() == self.b.spec_cols() == self.c.spec_cols()
        &&& self.a.spec_rows() == self.structure.num_constraints
        &&& self.a.spec_cols() == 1 + self.structure.num_io + self.structure.num_witness
        &&& forall|i: int, j: int|
            0 <= i < self.a.spec_rows() && 0 <= j < self.a.spec_cols() ==> 0 <= #[trigger] self.a.entry(
                i,
                j,
            ) < pm::<C, L>()
        &&& forall|i: int, j: int|
            0 <= i < self.a.spec_rows() && 0 <= j < self.a.spec_cols() ==> 0 <= #[trigger] self.b.entry(
                i,
                j,
            ) < pm::<C, L>()
        &&& forall|i: int, j: int|
            0 <= i < self.a.spec_rows() && 0 <= j < self.a.spec_cols() ==> 0 <= #[trigger] self.c.entry(
                i,
                j,
            ) < pm::<C, L>()
    }

    /// Not defined when the shapes disagree with each other or with
    /// the structure.
    pub fn new(a: M, b: M, c: M, structure: R1CSStructure) -> (r: Self)
        requires
            a.mat_wf(),
            b.mat_wf(),
            c.mat_wf(),
            a.spec_rows() == b.spec_rows() == c.spec_rows(),
            a.spec_cols() == b.spec_cols() == c.spec_cols(),
            a.spec_rows() == structure.num_constraints,
            a.spec_cols() == 1 + structure.num_io + structure.num_witness,
            forall|i: int, j: int|
                0 <= i < a.spec_rows() && 0 <= j < a.spec_cols() ==> 0 <= #[trigger] a.entry(i, j)
                    < pm::<C, L>(),
            forall|i: int, j: int|
                0 <= i < a.spec_rows() && 0 <= j < a.spec_cols() ==> 0 <= #[trigger] b.entry(i, j)
                    < pm::<C, L>(),
            forall|i: int, j: int|
                0 <= i < a.spec_rows() && 0 <= j < a.spec_cols() ==> 0 <= #[trigger] c.entry(i, j)
                    < pm::<C, L>(),
        ensures
            r.r1cs_wf(),
            r.a == a,
            r.b == b,
            r.c == c,
            r.structure == structure,
    {
        Self { a, b, c, structure, _field: core::marker::PhantomData }
    }

    /// `z = [1, io..., witness...]`. Not defined on lengths that
    /// differ from the structure.
    pub fn assignment(&self, io: &[Fp<C, L>], witness: &[Fp<C, L>]) -> (z: Vec<Fp<C, L>>)
        requires
            io.len() == self.structure.num_io,
            witness.len() == self.structure.num_witness,
            all_wf(io@),
            all_wf(witness@),
        ensures
            all_wf(z@),
            values_of(z@) == seq![1int] + values_of(io@) + values_of(witness@),
    {
        let mut z: Vec<Fp<C, L>> = Vec::new();
        z.push(Fp::<C, L>::one());
        let mut i: usize = 0;
        while i < io.len()
            invariant
                i <= io.len(),
                all_wf(io@),
                all_wf(z@),
                values_of(z@) == seq![1int] + values_of(io@.take(i as int)),
            decreases io.len() - i,
        {
            let ghost zo = z@;
            z.push(io[i]);
            proof {
                assert(z@ == zo.push(io@[i as int]));
                assert(values_of(z@) =~= values_of(zo).push(fv(io@[i as int])));
                assert(values_of(io@.take(i + 1)) =~= values_of(io@.take(i as int)).push(
                    fv(io@[i as int]),
                ));
            }
            i = i + 1;
            proof {
                assert(values_of(z@) =~= seq![1int] + values_of(io@.take(i as int)));
            }
        }
        let mut j: usize = 0;
        proof {
            assert(io@.take(io.len() as int) =~= io@);
        }
        while j < witness.len()
            invariant
                j <= witness.len(),
                all_wf(witness@),
                all_wf(z@),
                values_of(z@) == seq![1int] + values_of(io@) + values_of(witness@.take(j as int)),
            decreases witness.len() - j,
        {
            let ghost zo = z@;
            z.push(witness[j]);
            proof {
                assert(z@ == zo.push(witness@[j as int]));
                assert(values_of(z@) =~= values_of(zo).push(fv(witness@[j as int])));
                assert(values_of(witness@.take(j + 1)) =~= values_of(witness@.take(j as int)).push(
                    fv(witness@[j as int]),
                ));
            }
            j = j + 1;
            proof {
                assert(values_of(z@) =~= seq![1int] + values_of(io@) + values_of(
                    witness@.take(j as int),
                ));
            }
        }
        proof {
            assert(witness@.take(witness.len() as int) =~= witness@);
        }
        z
    }

    /// Whether `A z o B z = C z` holds in every row. Not defined on
    /// an assignment of the wrong length.
    pub fn is_sat(&self, z: &[Fp<C, L>]) -> (r: bool)
        requires
            self.r1cs_wf(),
            z.len() == self.a.spec_cols(),
            all_wf(z@),
        ensures
            r == forall|i: int|
                0 <= i < self.a.spec_rows() ==> #[trigger] row_holds::<C, L, M>(
                    &self.a,
                    &self.b,
                    &self.c,
                    i,
                    values_of(z@),
                ),
    {
        let az = mul_vec(&self.a, z);
        let bz = mul_vec(&self.b, z);
        let cz = mul_vec(&self.c, z);
        let rows = self.a.rows();
        let mut i: usize = 0;
        proof {
            lemma_pm_pos::<C, L>();
        }
        while i < rows
            invariant
                rows == self.a.spec_rows(),
                self.r1cs_wf(),
                z.len() == self.a.spec_cols(),
                az.len() == rows,
                bz.len() == rows,
                cz.len() == rows,
                all_wf(az@),
                all_wf(bz@),
                all_wf(cz@),
                forall|k: int|
                    0 <= k < rows ==> fv(#[trigger] az@[k]) == row_dot::<C, L, M>(
                        &self.a,
                        k,
                        values_of(z@),
                        self.a.spec_cols(),
                    ) % pm::<C, L>(),
                forall|k: int|
                    0 <= k < rows ==> fv(#[trigger] bz@[k]) == row_dot::<C, L, M>(
                        &self.b,
                        k,
                        values_of(z@),
                        self.a.spec_cols(),
                    ) % pm::<C, L>(),
                forall|k: int|
                    0 <= k < rows ==> fv(#[trigger] cz@[k]) == row_dot::<C, L, M>(
                        &self.c,
                        k,
                        values_of(z@),
                        self.a.spec_cols(),
                    ) % pm::<C, L>(),
                i <= rows,
                forall|k: int|
                    0 <= k < i ==> #[trigger] row_holds::<C, L, M>(
                        &self.a,
                        &self.b,
                        &self.c,
                        k,
                        values_of(z@),
                    ),
            decreases rows - i,
        {
            let prod = az[i].mul(bz[i]);
            let same = crate::sumcheck::fp_eq(prod, cz[i]);
            if !same {
                proof {
                    assert(!row_holds::<C, L, M>(&self.a, &self.b, &self.c, i as int, values_of(z@)));
                }
                return false;
            }
            i = i + 1;
        }
        true
    }
}

} // verus!
