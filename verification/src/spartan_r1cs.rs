//! The constraint system in Spartan's layout: `z = [witness..., 0..., 1,
//! io..., 0...]`, where the witness half and the `(1, io)` half are each
//! padded to `2^s` entries. The top variable of `Z~` selects the half:
//! `Z~(x, x_s) = (1 - x_s) W~(x) + x_s (1, io)~(x)`.

use crate::ff::{Fp, FpConfig};
use crate::helpers::{all_wf, fv, hypercube_size, lemma_add_cong, lemma_mul_cong, lemma_pm_pos, log2_ceil, pm};
use crate::matrix::{mul_vec, row_dot, ColumnMajorMatrix, Matrix};
use crate::mle::{mle_value, DenseMultilinearPoly, MultilinearPoly};
use crate::r1cs::{row_holds, R1CSStructure, R1CS};
use crate::uni_poly::values_of;
use vstd::arithmetic::div_mod::*;
use vstd::arithmetic::power2::*;
use vstd::prelude::*;

verus! {

/// `r` is `ceil(log2 n)`: the least `r` with `n <= 2^r`.
pub open spec fn is_clog2(n: nat, r: nat) -> bool {
    &&& n <= pow2(r)
    &&& (r == 0 || pow2((r - 1) as nat) < n)
}

/// `ceil(log2 n)`, with `0` for `n <= 1`.
pub open spec fn clog2(n: nat) -> nat {
    choose|r: nat| is_clog2(n, r)
}

/// At most one `r` is `ceil(log2 n)`.
pub proof fn lemma_clog2_unique(n: nat, r: nat)
    requires
        is_clog2(n, r),
    ensures
        clog2(n) == r,
{
    let c = clog2(n);
    assert(is_clog2(n, c));
    if c < r {
        if c < r - 1 {
            lemma_pow2_strictly_increases(c, (r - 1) as nat);
        }
    }
    if r < c {
        if r < c - 1 {
            lemma_pow2_strictly_increases(r, (c - 1) as nat);
        }
    }
}

/// `ceil(log2 n)` by halving with rounding up.
pub open spec fn clog2_rec(n: nat) -> nat
    decreases n,
{
    if n <= 1 {
        0
    } else {
        1 + clog2_rec(((n + 1) / 2) as nat)
    }
}

/// Every `n` has a `ceil(log2 n)`.
pub proof fn lemma_clog2_exists(n: nat)
    ensures
        is_clog2(n, clog2_rec(n)),
        is_clog2(n, clog2(n)),
        clog2(n) == clog2_rec(n),
    decreases n,
{
    lemma2_to64();
    if n > 1 {
        let m = ((n + 1) / 2) as nat;
        lemma_clog2_exists(m);
        let k = clog2_rec(m);
        lemma_pow2_unfold(k + 1);
        if k > 0 {
            lemma_pow2_unfold(k);
            lemma_pow2_pos((k - 1) as nat);
            assert(2 * pow2((k - 1) as nat) < 2 * m);
            assert(pow2(k) < n);
        }
        assert(is_clog2(n, k + 1));
    }
    lemma_clog2_unique(n, clog2_rec(n));
}

/// `ceil(log2 n)`.
pub fn ceil_log2(n: usize) -> (r: usize)
    ensures
        r == clog2(n as nat),
        n <= pow2(r as nat),
{
    let r = log2_ceil(n);
    proof {
        lemma_clog2_unique(n as nat, r as nat);
    }
    r
}

/// The number of variables `s` of each half: `ceil(log2 max(|witness|, |io| + 1))`.
pub open spec fn half_vars_of(s: R1CSStructure) -> nat {
    clog2(if s.num_witness >= s.num_io + 1 { s.num_witness as nat } else { (s.num_io + 1) as nat })
}

/// The number of constraint variables: `ceil(log2 num_constraints)`.
pub open spec fn constraint_vars_of(s: R1CSStructure) -> nat {
    clog2(s.num_constraints as nat)
}

/// `s` padded with zeros to length `n`.
pub open spec fn pad(s: Seq<int>, n: nat) -> Seq<int> {
    s + Seq::new((n - s.len()) as nat, |i: int| 0int)
}

/// Spartan's assignment: the padded witness, then the padded `(1, io)`.
pub open spec fn spartan_z(io: Seq<int>, witness: Seq<int>, half_len: nat) -> Seq<int> {
    pad(witness, half_len) + pad(seq![1int] + io, half_len)
}

/// The constraint system `A z o B z = C z` over Spartan's assignment.
pub struct SpartanR1CS<C: FpConfig<L>, const L: usize, M: Matrix<C, L>> {
    pub a: M,
    pub b: M,
    pub c: M,
    pub structure: R1CSStructure,
    pub _field: core::marker::PhantomData<Fp<C, L>>,
}

impl<C: FpConfig<L>, const L: usize, M: Matrix<C, L>> SpartanR1CS<C, L, M> {
    /// Three reduced matrices of one shape: `2^constraint_vars` rows and
    /// `2^(s + 1)` columns, with the column count a `usize`.
    pub open spec fn spartan_wf(&self) -> bool {
        &&& self.a.mat_wf()
        &&& self.b.mat_wf()
        &&& self.c.mat_wf()
        &&& self.a.spec_rows() == self.b.spec_rows() == self.c.spec_rows()
        &&& self.a.spec_cols() == self.b.spec_cols() == self.c.spec_cols()
        &&& self.a.spec_rows() == pow2(constraint_vars_of(self.structure))
        &&& self.a.spec_cols() == pow2(half_vars_of(self.structure) + 1)
        &&& half_vars_of(self.structure) + 1 < usize::BITS
        &&& constraint_vars_of(self.structure) < usize::BITS
        &&& forall|i: int, j: int|
            0 <= i < self.a.spec_rows() && 0 <= j < self.a.spec_cols() ==> 0 <= #[trigger] self.a.entry(
                i,
                j,
            ) < pm::<C, L>()
        &&& forall|i: int, j: int|
            0 <= i < self.a.spec_rows() && 0 <= j < self.a.spec_cols() ==> 0 <= #[trigger] self.b.entry(
                i,
                j,
            ) < pm::<C, L>()
        &&& forall|i: int, j: int|
            0 <= i < self.a.spec_rows() && 0 <= j < self.a.spec_cols() ==> 0 <= #[trigger] self.c.entry(
                i,
                j,
            ) < pm::<C, L>()
    }

    /// Not defined when the shapes disagree with each other or with
    /// the padded sizes of the structure.
    pub fn new(a: M, b: M, c: M, structure: R1CSStructure) -> (r: Self)
        requires
            ({
                let r = SpartanR1CS::<C, L, M> { a, b, c, structure, _field: core::marker::PhantomData };
                r.spartan_wf()
            }),
        ensures
            r.spartan_wf(),
            r.a == a,
            r.b == b,
            r.c == c,
            r.structure == structure,
    {
        SpartanR1CS { a, b, c, structure, _field: core::marker::PhantomData }
    }

    /// The number of variables `s` of each half.
    pub fn half_vars(&self) -> (r: usize)
        requires
            self.spartan_wf(),
        ensures
            r == half_vars_of(self.structure),
            pow2(r as nat) <= usize::MAX / 2,
            self.structure.num_witness <= pow2(r as nat),
            self.structure.num_io + 1 <= pow2(r as nat),
    {
        let s = self.structure;
        let ghost mx: nat = if s.num_witness >= s.num_io + 1 { s.num_witness as nat } else { (s.num_io + 1) as nat };
        proof {
            lemma_clog2_exists(mx);
            lemma2_to64();
            lemma_pow2_unfold(half_vars_of(s) + 1);
            if half_vars_of(s) + 1 < usize::BITS - 1 {
                lemma_pow2_strictly_increases(half_vars_of(s) + 1, (usize::BITS - 1) as nat);
            }
            lemma_pow2_unfold(usize::BITS as nat);
            assert(usize::MAX == pow2(usize::BITS as nat) - 1) by {
                crate::helpers::lemma_usize_max_pow2();
            }
        }
        let m = if s.num_witness > s.num_io {
            s.num_witness
        } else {
            s.num_io + 1
        };
        ceil_log2(m)
    }
}


/// Appends zeros to `v` until it has `n` entries.
fn pad_zeros<C: FpConfig<L>, const L: usize>(v: &mut Vec<Fp<C, L>>, n: usize)
    requires
        old(v).len() <= n,
        all_wf(old(v)@),
    ensures
        final(v).len() == n,
        all_wf(final(v)@),
        values_of(final(v)@) == pad(values_of(old(v)@), n as nat),
{
    let ghost start = values_of(v@);
    let zero = Fp::<C, L>::zero();
    proof {
        zero.lemma_value_bound();
        assert(values_of(v@) =~= start + Seq::new((v.len() - start.len()) as nat, |i: int| 0int));
    }
    while v.len() < n
        invariant
            v.len() <= n,
            start.len() <= v.len(),
            zero.wf(),
            fv(zero) == 0,
            all_wf(v@),
            values_of(v@) == start + Seq::new((v.len() - start.len()) as nat, |i: int| 0int),
        decreases n - v.len(),
    {
        let ghost before = v@;
        v.push(zero);
        proof {
            assert(v@ == before.push(zero));
            assert(values_of(v@) =~= values_of(before).push(fv(zero)));
            assert(values_of(v@) =~= start + Seq::new((v.len() - start.len()) as nat, |i: int| 0int));
        }
    }
}

impl<C: FpConfig<L>, const L: usize, M: Matrix<C, L>> SpartanR1CS<C, L, M> {
    /// The number of variables of `Z~`: `s + 1`.
    pub fn vars(&self) -> (r: usize)
        requires
            self.spartan_wf(),
        ensures
            r == half_vars_of(self.structure) + 1,
    {
        self.half_vars() + 1
    }

    /// The number of constraint variables.
    pub fn constraint_vars(&self) -> (r: usize)
        ensures
            r == constraint_vars_of(self.structure),
    {
        ceil_log2(self.structure.num_constraints)
    }

    /// The length `2^s` of each half.
    pub fn half_len(&self) -> (r: usize)
        requires
            self.spartan_wf(),
        ensures
            r == pow2(half_vars_of(self.structure)),
    {
        hypercube_size(self.half_vars())
    }

    /// The witness half `[witness..., 0...]` as the `s`-variable MLE `W~`.
    /// Not defined on a witness of another length.
    pub fn witness_mle(&self, witness: &[Fp<C, L>]) -> (r: DenseMultilinearPoly<C, L>)
        requires
            self.spartan_wf(),
            witness.len() == self.structure.num_witness,
            all_wf(witness@),
        ensures
            r.mle_wf(),
            r.spec_vars() == half_vars_of(self.structure),
            r.spec_table() == pad(values_of(witness@), pow2(half_vars_of(self.structure))),
    {
        let vars = self.half_vars();
        let len = hypercube_size(vars);
        let mut evals = vstd::slice::slice_to_vec(witness);
        pad_zeros(&mut evals, len);
        DenseMultilinearPoly::new(evals, vars)
    }

    /// The public half `[1, io..., 0...]` as an `s`-variable MLE. Not
    /// defined on `io` of another length.
    pub fn public_mle(&self, io: &[Fp<C, L>]) -> (r: DenseMultilinearPoly<C, L>)
        requires
            self.spartan_wf(),
            io.len() == self.structure.num_io,
            all_wf(io@),
        ensures
            r.mle_wf(),
            r.spec_vars() == half_vars_of(self.structure),
            r.spec_table() == pad(seq![1int] + values_of(io@), pow2(half_vars_of(self.structure))),
    {
        let vars = self.half_vars();
        let len = hypercube_size(vars);
        let mut evals: Vec<Fp<C, L>> = Vec::new();
        let one = Fp::<C, L>::one();
        evals.push(one);
        let mut i: usize = 0;
        proof {
            lemma_pm_pos::<C, L>();
            lemma_small_mod(1, pm::<C, L>() as nat);
        }
        while i < io.len()
            invariant
                i <= io.len(),
                all_wf(io@),
                all_wf(evals@),
                values_of(evals@) == seq![1int] + values_of(io@.take(i as int)),
            decreases io.len() - i,
        {
            let ghost before = evals@;
            evals.push(io[i]);
            proof {
                assert(evals@ == before.push(io@[i as int]));
                assert(values_of(evals@) =~= values_of(before).push(fv(io@[i as int])));
                assert(values_of(io@.take(i + 1)) =~= values_of(io@.take(i as int)).push(fv(io@[i as int])));
                assert(values_of(evals@) =~= seq![1int] + values_of(io@.take(i + 1)));
            }
            i = i + 1;
        }
        proof {
            assert(io@.take(io.len() as int) =~= io@);
        }
        pad_zeros(&mut evals, len);
        DenseMultilinearPoly::new(evals, vars)
    }

    /// `z = [witness..., 0..., 1, io..., 0...]`, of length `2^(s + 1)`.
    pub fn assignment(&self, io: &[Fp<C, L>], witness: &[Fp<C, L>]) -> (z: Vec<Fp<C, L>>)
        requires
            self.spartan_wf(),
            io.len() == self.structure.num_io,
            witness.len() == self.structure.num_witness,
            all_wf(io@),
            all_wf(witness@),
        ensures
            all_wf(z@),
            z.len() == pow2(half_vars_of(self.structure) + 1),
            values_of(z@) == spartan_z(
                values_of(io@),
                values_of(witness@),
                pow2(half_vars_of(self.structure)),
            ),
    {
        let w = self.witness_mle(witness);
        let p = self.public_mle(io);
        let mut z = vstd::slice::slice_to_vec(w.evals());
        let mut rest = vstd::slice::slice_to_vec(p.evals());
        z.append(&mut rest);
        proof {
            lemma_pow2_unfold(half_vars_of(self.structure) + 1);
            assert(values_of(z@) =~= values_of(w.spec_evals()) + values_of(p.spec_evals()));
        }
        z
    }

    /// `Z~(r, r_s) = (1 - r_s) W~(r) + r_s (1, io)~(r)`, from the claimed
    /// `W~(r)` and the public half evaluated here. Not defined on a
    /// point of another dimension.
    pub fn assignment_eval(&self, io: &[Fp<C, L>], point: &[Fp<C, L>], witness_eval: Fp<C, L>) -> (r: Fp<C, L>)
        requires
            self.spartan_wf(),
            io.len() == self.structure.num_io,
            point.len() == half_vars_of(self.structure) + 1,
            all_wf(io@),
            all_wf(point@),
            witness_eval.wf(),
        ensures
            r.wf(),
            ({
                let s = half_vars_of(self.structure);
                let sel = fv(point@[s as int]);
                let pe = mle_value(
                    pad(seq![1int] + values_of(io@), pow2(s)),
                    values_of(point@.take(s as int)),
                );
                fv(r) == ((1 - sel) * fv(witness_eval) + sel * pe) % pm::<C, L>()
            }),
    {
        let s = self.half_vars();
        let inner = vstd::slice::slice_subrange(point, 0, s);
        let selector = point[s];
        let public = self.public_mle(io);
        proof {
            assert forall|i: int| 0 <= i < inner.len() implies (#[trigger] inner@[i]).wf() by {
                assert(inner@[i] == point@[i]);
            }
        }
        let public_eval = public.eval(inner);
        let one = Fp::<C, L>::one();
        let d = one.sub(selector);
        let t1 = d.mul(witness_eval);
        let t2 = selector.mul(public_eval);
        let r = t1.add(t2);
        proof {
            let p = pm::<C, L>();
            lemma_pm_pos::<C, L>();
            lemma_small_mod(1, p as nat);
            let sel = fv(selector);
            let pe = mle_value(public.spec_table(), values_of(inner@));
            assert(values_of(inner@) =~= values_of(point@.take(s as int)));
            lemma_mod_twice(1 - sel, p);
            lemma_mul_cong(fv(d), fv(witness_eval), 1 - sel, fv(witness_eval), p);
            lemma_mod_twice(pe, p);
            lemma_mul_cong(sel, fv(public_eval), sel, pe, p);
            lemma_mod_twice((1 - sel) * fv(witness_eval), p);
            lemma_mod_twice(sel * pe, p);
            lemma_add_cong(fv(t1), fv(t2), (1 - sel) * fv(witness_eval), sel * pe, p);
        }
        r
    }

    /// Whether `A z o B z = C z` holds in the first `num_constraints` rows;
    /// the padding rows are zero. Not defined on an assignment of
    /// another length.
    pub fn is_sat(&self, z: &[Fp<C, L>]) -> (r: bool)
        requires
            self.spartan_wf(),
            self.structure.num_constraints <= self.a.spec_rows(),
            z.len() == self.a.spec_cols(),
            all_wf(z@),
        ensures
            r == forall|i: int|
                0 <= i < self.structure.num_constraints ==> #[trigger] row_holds::<C, L, M>(
                    &self.a,
                    &self.b,
                    &self.c,
                    i,
                    values_of(z@),
                ),
    {
        let az = mul_vec(&self.a, z);
        let bz = mul_vec(&self.b, z);
        let cz = mul_vec(&self.c, z);
        let rows = self.structure.num_constraints;
        let mut i: usize = 0;
        proof {
            lemma_pm_pos::<C, L>();
        }
        while i < rows
            invariant
                rows == self.structure.num_constraints,
                rows <= self.a.spec_rows(),
                self.spartan_wf(),
                z.len() == self.a.spec_cols(),
                az.len() == self.a.spec_rows(),
                bz.len() == self.a.spec_rows(),
                cz.len() == self.a.spec_rows(),
                all_wf(az@),
                all_wf(bz@),
                all_wf(cz@),
                forall|k: int|
                    0 <= k < az.len() ==> fv(#[trigger] az@[k]) == row_dot::<C, L, M>(
                        &self.a,
                        k,
                        values_of(z@),
                        self.a.spec_cols(),
                    ) % pm::<C, L>(),
                forall|k: int|
                    0 <= k < bz.len() ==> fv(#[trigger] bz@[k]) == row_dot::<C, L, M>(
                        &self.b,
                        k,
                        values_of(z@),
                        self.a.spec_cols(),
                    ) % pm::<C, L>(),
                forall|k: int|
                    0 <= k < cz.len() ==> fv(#[trigger] cz@[k]) == row_dot::<C, L, M>(
                        &self.c,
                        k,
                        values_of(z@),
                        self.a.spec_cols(),
                    ) % pm::<C, L>(),
                i <= rows,
                forall|k: int|
                    0 <= k < i ==> #[trigger] row_holds::<C, L, M>(
                        &self.a,
                        &self.b,
                        &self.c,
                        k,
                        values_of(z@),
                    ),
            decreases rows - i,
        {
            let prod = az[i].mul(bz[i]);
            let same = crate::sumcheck::fp_eq(prod, cz[i]);
            if !same {
                proof {
                    assert(!row_holds::<C, L, M>(&self.a, &self.b, &self.c, i as int, values_of(z@)));
                }
                return false;
            }
            i = i + 1;
        }
        true
    }
}


/// The dense column, in `[1, io..., witness...]`, that Spartan's column `jj`
/// holds, or `None` for a padding column.
pub open spec fn dense_col(s: R1CSStructure, half_len: nat, jj: nat) -> Option<nat> {
    if jj < s.num_witness {
        Some((jj + 1 + s.num_io) as nat)
    } else if jj < half_len {
        None
    } else if jj - half_len <= s.num_io {
        Some((jj - half_len) as nat)
    } else {
        None
    }
}

/// The entry of the relaid matrix: the dense entry moved to Spartan's
/// column, and zero in padding rows and columns.
pub open spec fn spartan_entry<C: FpConfig<L>, const L: usize, M: Matrix<C, L>>(
    m: &M,
    s: R1CSStructure,
    half_len: nat,
    i: int,
    jj: int,
) -> int {
    if 0 <= i < s.num_constraints && 0 <= jj {
        match dense_col(s, half_len, jj as nat) {
            Some(c) => m.entry(i, c as int),
            None => 0,
        }
    } else {
        0
    }
}

/// The matrix `m` of a dense R1CS relaid in Spartan's layout, stored
/// column-major.
fn relay_matrix<C: FpConfig<L>, const L: usize, M: Matrix<C, L>>(
    m: &M,
    s: R1CSStructure,
    half_len: usize,
    rows: usize,
    cols: usize,
) -> (t: ColumnMajorMatrix<C, L>)
    requires
        m.mat_wf(),
        m.spec_rows() == s.num_constraints,
        m.spec_cols() == 1 + s.num_io + s.num_witness,
        forall|i: int, j: int|
            0 <= i < m.spec_rows() && 0 <= j < m.spec_cols() ==> 0 <= #[trigger] m.entry(i, j)
                < pm::<C, L>(),
        s.num_constraints <= rows,
        rows > 0,
        s.num_witness <= half_len,
        s.num_io + 1 <= half_len,
        cols == 2 * half_len,
        rows * cols <= usize::MAX,
        cols <= usize::MAX,
    ensures
        t.mat_wf(),
        t.spec_rows() == rows,
        t.spec_cols() == cols,
        forall|i: int, jj: int|
            0 <= i < rows && 0 <= jj < cols ==> #[trigger] t.entry(i, jj) == spartan_entry::<C, L, M>(
                m,
                s,
                half_len as nat,
                i,
                jj,
            ),
{
    let total = rows * cols;
    let mut entries: Vec<Fp<C, L>> = Vec::new();
    let zero = Fp::<C, L>::zero();
    let mut k: usize = 0;
    proof {
        zero.lemma_value_bound();
    }
    while k < total
        invariant
            total == rows * cols,
            rows > 0,
            k <= total,
            entries.len() == k,
            m.mat_wf(),
            m.spec_rows() == s.num_constraints,
            m.spec_cols() == 1 + s.num_io + s.num_witness,
            s.num_constraints <= rows,
            s.num_witness <= half_len,
            s.num_io + 1 <= half_len,
            cols == 2 * half_len,
            cols <= usize::MAX,
            zero.wf(),
            fv(zero) == 0,
            all_wf(entries@),
            forall|k2: int|
                0 <= k2 < k ==> fv(#[trigger] entries@[k2]) == spartan_entry::<C, L, M>(
                    m,
                    s,
                    half_len as nat,
                    k2 % (rows as int),
                    k2 / (rows as int),
                ),
        decreases total - k,
    {
        let i = k % rows;
        let jj = k / rows;
        let value = if i < s.num_constraints {
            if jj < s.num_witness {
                m.get(i, jj + 1 + s.num_io)
            } else if jj < half_len {
                zero
            } else if jj - half_len <= s.num_io {
                m.get(i, jj - half_len)
            } else {
                zero
            }
        } else {
            zero
        };
        entries.push(value);
        k = k + 1;
    }
    proof {
        assert forall|i: int, jj: int| 0 <= i < rows && 0 <= jj < cols implies fv(
            #[trigger] entries@[i + rows * jj],
        ) == spartan_entry::<C, L, M>(m, s, half_len as nat, i, jj) by {
            assert(0 <= i + rows * jj < rows * cols) by (nonlinear_arith)
                requires
                    0 <= i < rows,
                    0 <= jj < cols,
            ;
            lemma_fundamental_div_mod_converse(i + rows * jj, rows as int, jj, i);
        }
        vstd::arithmetic::div_mod::lemma_mod_multiples_basic(cols as int, rows as int);
        vstd::arithmetic::div_mod::lemma_div_multiples_vanish(cols as int, rows as int);
        vstd::arithmetic::mul::lemma_mul_is_commutative(rows as int, cols as int);
    }
    ColumnMajorMatrix::new(entries, rows)
}

/// A relaid entry is a dense entry or zero, so it is reduced.
proof fn lemma_spartan_entry_bound<C: FpConfig<L>, const L: usize, M: Matrix<C, L>>(
    m: &M,
    s: R1CSStructure,
    half_len: nat,
    i: int,
    jj: int,
)
    requires
        m.spec_rows() == s.num_constraints,
        m.spec_cols() == 1 + s.num_io + s.num_witness,
        forall|i: int, j: int|
            0 <= i < m.spec_rows() && 0 <= j < m.spec_cols() ==> 0 <= #[trigger] m.entry(i, j)
                < pm::<C, L>(),
    ensures
        0 <= spartan_entry::<C, L, M>(m, s, half_len, i, jj) < pm::<C, L>(),
{
    lemma_pm_pos::<C, L>();
    if 0 <= i < s.num_constraints && 0 <= jj {
        match dense_col(s, half_len, jj as nat) {
            Some(c) => {
                assert(0 <= m.entry(i, c as int) < pm::<C, L>());
            },
            None => {},
        }
    }
}

impl<C: FpConfig<L>, const L: usize> SpartanR1CS<C, L, ColumnMajorMatrix<C, L>> {
    /// A dense R1CS relaid in Spartan's layout: the columns of
    /// `[1, io..., witness...]` moved to `[witness..., 0..., 1, io..., 0...]`
    /// and the rows padded to a power of two. The matrices are stored
    /// column-major, so their entry count must fit in a `usize`.
    pub fn from_r1cs<M: Matrix<C, L>>(r1cs: &R1CS<C, L, M>) -> (r: Self)
        requires
            r1cs.r1cs_wf(),
            half_vars_of(r1cs.structure) + 1 < usize::BITS,
            constraint_vars_of(r1cs.structure) < usize::BITS,
            pow2(constraint_vars_of(r1cs.structure)) * pow2(half_vars_of(r1cs.structure) + 1)
                <= usize::MAX,
        ensures
            r.spartan_wf(),
            r.structure == r1cs.structure,
            forall|i: int, jj: int|
                0 <= i < r.a.spec_rows() && 0 <= jj < r.a.spec_cols() ==> {
                    &&& #[trigger] r.a.entry(i, jj) == spartan_entry::<C, L, M>(
                        &r1cs.a,
                        r1cs.structure,
                        pow2(half_vars_of(r1cs.structure)),
                        i,
                        jj,
                    )
                    &&& r.b.entry(i, jj) == spartan_entry::<C, L, M>(
                        &r1cs.b,
                        r1cs.structure,
                        pow2(half_vars_of(r1cs.structure)),
                        i,
                        jj,
                    )
                    &&& r.c.entry(i, jj) == spartan_entry::<C, L, M>(
                        &r1cs.c,
                        r1cs.structure,
                        pow2(half_vars_of(r1cs.structure)),
                        i,
                        jj,
                    )
                },
    {
        let s = r1cs.structure;
        let ghost hv = half_vars_of(s);
        let ghost mx: nat = if s.num_witness >= s.num_io + 1 { s.num_witness as nat } else { (s.num_io + 1) as nat };
        proof {
            lemma_clog2_exists(mx);
            lemma_clog2_exists(s.num_constraints as nat);
            lemma2_to64();
            lemma_pow2_unfold(hv + 1);
            lemma_pow2_pos(constraint_vars_of(s));
            crate::helpers::lemma_usize_max_pow2();
            if hv + 1 < usize::BITS - 1 {
                lemma_pow2_strictly_increases(hv + 1, (usize::BITS - 1) as nat);
            }
            lemma_pow2_unfold(usize::BITS as nat);
        }
        let m = if s.num_witness > s.num_io {
            s.num_witness
        } else {
            s.num_io + 1
        };
        let half_vars = ceil_log2(m);
        let half_len = hypercube_size(half_vars);
        let rows = hypercube_size(ceil_log2(s.num_constraints));
        let cols = 2 * half_len;
        proof {
            lemma_pm_pos::<C, L>();
        }
        let a = relay_matrix(&r1cs.a, s, half_len, rows, cols);
        let b = relay_matrix(&r1cs.b, s, half_len, rows, cols);
        let c = relay_matrix(&r1cs.c, s, half_len, rows, cols);
        let r = SpartanR1CS { a, b, c, structure: s, _field: core::marker::PhantomData };
        proof {
            assert forall|i: int, j: int| 0 <= i < rows && 0 <= j < cols implies {
                &&& 0 <= #[trigger] r.a.entry(i, j) < pm::<C, L>()
                &&& 0 <= r.b.entry(i, j) < pm::<C, L>()
                &&& 0 <= r.c.entry(i, j) < pm::<C, L>()
            } by {
                lemma_spartan_entry_bound::<C, L, M>(&r1cs.a, s, half_len as nat, i, j);
                lemma_spartan_entry_bound::<C, L, M>(&r1cs.b, s, half_len as nat, i, j);
                lemma_spartan_entry_bound::<C, L, M>(&r1cs.c, s, half_len as nat, i, j);
            }
        }
        r
    }
}

} // verus!
