//! Matrices over the field: dense ones with a fixed shape, and a
//! column-major view of a flat table.

use crate::ff::{Fp, FpConfig};
use crate::helpers::{
    all_wf, dot_value, fv, inner_product, lemma_add_cong, lemma_pm_pos,
    lemma_reduced, pm,
};
use crate::mle::{bit_point, eq_value, EqPoly};
use crate::uni_poly::values_of;
use std::collections::BTreeMap;
use vstd::arithmetic::div_mod::*;
use vstd::arithmetic::mul::*;
use vstd::arithmetic::power2::*;
use vstd::prelude::*;

verus! {

/// `sum_{j < k} m(i, j) * v[j]` over the integers.
pub open spec fn row_dot<C: FpConfig<L>, const L: usize, M: Matrix<C, L>>(
    m: &M,
    i: int,
    v: Seq<int>,
    k: nat,
) -> int
    decreases k,
{
    if k == 0 {
        0
    } else {
        row_dot::<C, L, M>(m, i, v, (k - 1) as nat) + m.entry(i, k - 1) * v[k - 1]
    }
}

/// `sum_{i < k} v[i] * m(i, j)` over the integers.
pub open spec fn col_dot<C: FpConfig<L>, const L: usize, M: Matrix<C, L>>(
    m: &M,
    j: int,
    v: Seq<int>,
    k: nat,
) -> int
    decreases k,
{
    if k == 0 {
        0
    } else {
        col_dot::<C, L, M>(m, j, v, (k - 1) as nat) + v[k - 1] * m.entry(k - 1, j)
    }
}

/// A matrix over `Fp<C, L>`.
pub trait Matrix<C: FpConfig<L>, const L: usize>: Sized {
    /// The shape is consistent and every entry is reduced.
    spec fn mat_wf(&self) -> bool;

    spec fn spec_rows(&self) -> nat;

    spec fn spec_cols(&self) -> nat;

    /// The value of the entry in row `i`, column `j`.
    spec fn entry(&self, i: int, j: int) -> int;

    fn rows(&self) -> (r: usize)
        requires
            self.mat_wf(),
        ensures
            r == self.spec_rows(),
    ;

    fn cols(&self) -> (r: usize)
        requires
            self.mat_wf(),
        ensures
            r == self.spec_cols(),
    ;

    fn get(&self, row: usize, col: usize) -> (r: Fp<C, L>)
        requires
            self.mat_wf(),
            row < self.spec_rows(),
            col < self.spec_cols(),
        ensures
            r.wf(),
            fv(r) == self.entry(row as int, col as int),
    ;

    /// `(rows, cols)`.
    fn shape(&self) -> (r: (usize, usize))
        requires
            self.mat_wf(),
        ensures
            r.0 == self.spec_rows(),
            r.1 == self.spec_cols(),
    {
        (self.rows(), self.cols())
    }

}

/// `M v`. Not defined when the length differs from the columns.
pub fn mul_vec<C: FpConfig<L>, const L: usize, M: Matrix<C, L>>(
m: &M,
vec: &[Fp<C, L>],
) -> (r: Vec<Fp<C, L>>)
    requires
        m.mat_wf(),
        vec.len() == m.spec_cols(),
        all_wf(vec@),
        forall|i: int, j: int|
            0 <= i < m.spec_rows() && 0 <= j < m.spec_cols() ==> 0 <= #[trigger] m.entry(
                i,
                j,
            ) < pm::<C, L>(),
    ensures
        r.len() == m.spec_rows(),
        all_wf(r@),
        forall|i: int|
            0 <= i < r.len() ==> fv(#[trigger] r@[i]) == row_dot::<C, L, M>(
                m,
                i,
                values_of(vec@),
                m.spec_cols(),
            ) % pm::<C, L>(),
{
    let rows = m.rows();
    let cols = m.cols();
    let ghost p = pm::<C, L>();
    let ghost v = values_of(vec@);
    proof {
        lemma_pm_pos::<C, L>();
    }
    let mut out: Vec<Fp<C, L>> = Vec::new();
    let mut i: usize = 0;
    while i < rows
        invariant
            rows == m.spec_rows(),
            cols == m.spec_cols(),
            m.mat_wf(),
            vec.len() == cols,
            all_wf(vec@),
            v == values_of(vec@),
            p == pm::<C, L>(),
            p > 2,
            i <= rows,
            out.len() == i,
            all_wf(out@),
            forall|k: int|
                0 <= k < i ==> fv(#[trigger] out@[k]) == row_dot::<C, L, M>(
                    m,
                    k,
                    v,
                    cols as nat,
                ) % p,
        decreases rows - i,
    {
        let mut sum = Fp::<C, L>::zero();
        let mut j: usize = 0;
        proof {
            lemma_small_mod(0, p as nat);
        }
        while j < cols
            invariant
                rows == m.spec_rows(),
                cols == m.spec_cols(),
                m.mat_wf(),
                i < rows,
                vec.len() == cols,
                all_wf(vec@),
                v == values_of(vec@),
                p == pm::<C, L>(),
                p > 2,
                j <= cols,
                sum.wf(),
                fv(sum) == row_dot::<C, L, M>(m, i as int, v, j as nat) % p,
            decreases cols - j,
        {
            let e_ij = m.get(i, j);
            let prod = e_ij.mul(vec[j]);
            let ghost before = fv(sum);
            sum = sum.add(prod);
            proof {
                let rd = row_dot::<C, L, M>(m, i as int, v, j as nat);
                let e = m.entry(i as int, j as int);
                lemma_reduced(prod);
                lemma_mod_twice(rd, p);
                lemma_mod_twice(e * v[j as int], p);
                lemma_add_cong(before, fv(prod), rd, e * v[j as int], p);
            }
            j = j + 1;
        }
        out.push(sum);
        i = i + 1;
    }
    out
}

/// `v^T M`. Not defined when the length differs from the rows.
pub fn vec_mul<C: FpConfig<L>, const L: usize, M: Matrix<C, L>>(
m: &M,
vec: &[Fp<C, L>],
) -> (r: Vec<Fp<C, L>>)
    requires
        m.mat_wf(),
        vec.len() == m.spec_rows(),
        all_wf(vec@),
    ensures
        r.len() == m.spec_cols(),
        all_wf(r@),
        forall|j: int|
            0 <= j < r.len() ==> fv(#[trigger] r@[j]) == col_dot::<C, L, M>(
                m,
                j,
                values_of(vec@),
                m.spec_rows(),
            ) % pm::<C, L>(),
{
    let rows = m.rows();
    let cols = m.cols();
    let ghost p = pm::<C, L>();
    let ghost v = values_of(vec@);
    proof {
        lemma_pm_pos::<C, L>();
    }
    let mut out: Vec<Fp<C, L>> = Vec::new();
    let mut j: usize = 0;
    while j < cols
        invariant
            rows == m.spec_rows(),
            cols == m.spec_cols(),
            m.mat_wf(),
            vec.len() == rows,
            all_wf(vec@),
            v == values_of(vec@),
            p == pm::<C, L>(),
            p > 2,
            j <= cols,
            out.len() == j,
            all_wf(out@),
            forall|k: int|
                0 <= k < j ==> fv(#[trigger] out@[k]) == col_dot::<C, L, M>(
                    m,
                    k,
                    v,
                    rows as nat,
                ) % p,
        decreases cols - j,
    {
        let mut sum = Fp::<C, L>::zero();
        let mut i: usize = 0;
        proof {
            lemma_small_mod(0, p as nat);
        }
        while i < rows
            invariant
                rows == m.spec_rows(),
                cols == m.spec_cols(),
                m.mat_wf(),
                j < cols,
                vec.len() == rows,
                all_wf(vec@),
                v == values_of(vec@),
                p == pm::<C, L>(),
                p > 2,
                i <= rows,
                sum.wf(),
                fv(sum) == col_dot::<C, L, M>(m, j as int, v, i as nat) % p,
            decreases rows - i,
        {
            let e_ij = m.get(i, j);
            let prod = vec[i].mul(e_ij);
            let ghost before = fv(sum);
            sum = sum.add(prod);
            proof {
                let cd = col_dot::<C, L, M>(m, j as int, v, i as nat);
                let e = m.entry(i as int, j as int);
                lemma_reduced(prod);
                lemma_mod_twice(cd, p);
                lemma_mod_twice(v[i as int] * e, p);
                lemma_add_cong(before, fv(prod), cd, v[i as int] * e, p);
            }
            i = i + 1;
        }
        out.push(sum);
        j = j + 1;
    }
    out
}

/// The reduced weights `eq(r, i) mod p` over the hypercube of `r`.
pub open spec fn eq_weights<C: FpConfig<L>, const L: usize>(r: Seq<int>) -> Seq<int> {
    Seq::new(pow2(r.len()), |i: int| eq_value(r, bit_point(i as nat, r.len())) % pm::<C, L>())
}

/// `sum_{i < k} ((M u)_i mod p) * w[i]` over the integers.
pub open spec fn weighted_rows<C: FpConfig<L>, const L: usize, M: Matrix<C, L>>(
    m: &M,
    w: Seq<int>,
    u: Seq<int>,
    k: nat,
) -> int
    decreases k,
{
    if k == 0 {
        0
    } else {
        weighted_rows::<C, L, M>(m, w, u, (k - 1) as nat) + (row_dot::<C, L, M>(
            m,
            k - 1,
            u,
            m.spec_cols(),
        ) % pm::<C, L>()) * w[k - 1]
    }
}

/// The value `eq(rx)^T M eq(ry)` of the multilinear extension of `m`.
pub open spec fn matrix_mle<C: FpConfig<L>, const L: usize, M: Matrix<C, L>>(
    m: &M,
    rx: Seq<int>,
    ry: Seq<int>,
) -> int {
    weighted_rows::<C, L, M>(m, eq_weights::<C, L>(rx), eq_weights::<C, L>(ry), m.spec_rows())
        % pm::<C, L>()
}

proof fn lemma_weighted_rows<C: FpConfig<L>, const L: usize, M: Matrix<C, L>>(
    m: &M,
    mv: Seq<Fp<C, L>>,
    rw: Seq<Fp<C, L>>,
    w: Seq<int>,
    u: Seq<int>,
    k: nat,
)
    requires
        k <= mv.len(),
        k <= rw.len(),
        forall|i: int|
            0 <= i < k ==> fv(#[trigger] mv[i]) == row_dot::<C, L, M>(m, i, u, m.spec_cols())
                % pm::<C, L>(),
        forall|i: int| 0 <= i < k ==> fv(#[trigger] rw[i]) == w[i],
    ensures
        dot_value(mv.take(k as int), rw) == weighted_rows::<C, L, M>(m, w, u, k),
    decreases k,
{
    if k > 0 {
        lemma_weighted_rows::<C, L, M>(m, mv, rw, w, u, (k - 1) as nat);
        assert(mv.take(k as int).drop_last() =~= mv.take(k - 1));
        assert(fv(mv[k - 1]) * fv(rw[k - 1]) == (row_dot::<C, L, M>(
            m,
            k - 1,
            u,
            m.spec_cols(),
        ) % pm::<C, L>()) * w[k - 1]);
    }
}

/// The multilinear extension at `(rx, ry)`: `eq(rx)^T M eq(ry)`. Needs the
/// shape `2^|rx| x 2^|ry|`.
pub fn eval_mle<C: FpConfig<L>, const L: usize, M: Matrix<C, L>>(
m: &M,
rx: &[Fp<C, L>],
ry: &[Fp<C, L>],
) -> (r: Fp<C, L>)
    requires
        m.mat_wf(),
        rx.len() < usize::BITS,
        ry.len() < usize::BITS,
        m.spec_rows() == pow2(rx.len() as nat),
        m.spec_cols() == pow2(ry.len() as nat),
        all_wf(rx@),
        all_wf(ry@),
        forall|i: int, j: int|
            0 <= i < m.spec_rows() && 0 <= j < m.spec_cols() ==> 0 <= #[trigger] m.entry(
                i,
                j,
            ) < pm::<C, L>(),
    ensures
        r.wf(),
        fv(r) == matrix_mle::<C, L, M>(m, values_of(rx@), values_of(ry@)),
{
    let row_weights = EqPoly::new(vstd::slice::slice_to_vec(rx)).table();
    let col_weights = EqPoly::new(vstd::slice::slice_to_vec(ry)).table();
    proof {
        assert(values_of(col_weights@) =~= eq_weights::<C, L>(values_of(ry@)));
    }
    let mv = mul_vec(m, col_weights.as_slice());
    let r = inner_product(mv.as_slice(), row_weights.as_slice());
    proof {
        let w = eq_weights::<C, L>(values_of(rx@));
        let u = eq_weights::<C, L>(values_of(ry@));
        assert forall|i: int| 0 <= i < m.spec_rows() implies fv(#[trigger] row_weights@[i]) == w[i] by {
        }
        lemma_weighted_rows::<C, L, M>(m, mv@, row_weights@, w, u, m.spec_rows());
        assert(mv@.take(m.spec_rows() as int) =~= mv@);
    }
    r
}


/// A dense `ROWS x COLS` matrix.
#[derive(Clone, Debug)]
pub struct DenseMatrix<C: FpConfig<L>, const L: usize, const ROWS: usize, const COLS: usize> {
    entries: [[Fp<C, L>; COLS]; ROWS],
}

impl<C: FpConfig<L>, const L: usize, const ROWS: usize, const COLS: usize> DenseMatrix<
    C,
    L,
    ROWS,
    COLS,
> {
    pub closed spec fn spec_entries(&self) -> [[Fp<C, L>; COLS]; ROWS] {
        self.entries
    }

    pub fn new(entries: [[Fp<C, L>; COLS]; ROWS]) -> (r: Self)
        ensures
            r.spec_entries() == entries,
    {
        Self { entries }
    }

    /// The matrix of the given small integers, each reduced modulo `p`.
    pub fn from_usize(entries: [[usize; COLS]; ROWS]) -> (r: Self)
        ensures
            r.mat_wf(),
            forall|i: int, j: int|
                0 <= i < ROWS && 0 <= j < COLS ==> #[trigger] r.entry(i, j) == (entries@[i]@[j] as int)
                    % pm::<C, L>(),
    {
        let zero = Fp::<C, L>::zero();
        let mut out = [[zero; COLS]; ROWS];
        let mut i: usize = 0;
        while i < ROWS
            invariant
                i <= ROWS,
                out@.len() == ROWS,
                forall|a: int| 0 <= a < ROWS ==> (#[trigger] out@[a])@.len() == COLS,
                forall|a: int, b: int|
                    0 <= a < ROWS && 0 <= b < COLS ==> (#[trigger] out@[a]@[b]).wf(),
                forall|a: int, b: int|
                    0 <= a < i && 0 <= b < COLS ==> fv(#[trigger] out@[a]@[b]) == (
                    entries@[a]@[b] as int) % pm::<C, L>(),
            decreases ROWS - i,
        {
            let mut row = out[i];
            let mut j: usize = 0;
            while j < COLS
                invariant
                    j <= COLS,
                    i < ROWS,
                    row@.len() == COLS,
                    forall|b: int| 0 <= b < COLS ==> (#[trigger] row@[b]).wf(),
                    forall|b: int|
                        0 <= b < j ==> fv(#[trigger] row@[b]) == (entries@[i as int]@[b] as int)
                            % pm::<C, L>(),
                decreases COLS - j,
            {
                row[j] = Fp::<C, L>::from_u64(entries[i][j] as u64);
                j = j + 1;
            }
            out[i] = row;
            i = i + 1;
        }
        Self { entries: out }
    }
}

impl<C: FpConfig<L>, const L: usize, const ROWS: usize, const COLS: usize> DenseMatrix<
    C,
    L,
    ROWS,
    COLS,
> {
    /// `M v`.
    pub fn mul_vec(&self, vec: &[Fp<C, L>]) -> (r: Vec<Fp<C, L>>)
        requires
            self.mat_wf(),
            vec.len() == COLS,
            all_wf(vec@),
        ensures
            r.len() == ROWS,
            all_wf(r@),
            forall|i: int|
                0 <= i < r.len() ==> fv(#[trigger] r@[i]) == row_dot::<C, L, Self>(
                    self,
                    i,
                    values_of(vec@),
                    COLS as nat,
                ) % pm::<C, L>(),
    {
        proof {
            assert forall|i: int, j: int|
                0 <= i < ROWS && 0 <= j < COLS implies 0 <= #[trigger] self.entry(i, j) < pm::<C, L>() by {
                lemma_reduced(self.spec_entries()@[i]@[j]);
            }
        }
        mul_vec(self, vec)
    }

    /// `v^T M`.
    pub fn vec_mul(&self, vec: &[Fp<C, L>]) -> (r: Vec<Fp<C, L>>)
        requires
            self.mat_wf(),
            vec.len() == ROWS,
            all_wf(vec@),
        ensures
            r.len() == COLS,
            all_wf(r@),
            forall|j: int|
                0 <= j < r.len() ==> fv(#[trigger] r@[j]) == col_dot::<C, L, Self>(
                    self,
                    j,
                    values_of(vec@),
                    ROWS as nat,
                ) % pm::<C, L>(),
    {
        vec_mul(self, vec)
    }
}

impl<C: FpConfig<L>, const L: usize, const ROWS: usize, const COLS: usize> Matrix<
    C,
    L,
> for DenseMatrix<C, L, ROWS, COLS> {
    open spec fn mat_wf(&self) -> bool {
        forall|i: int, j: int|
            0 <= i < ROWS && 0 <= j < COLS ==> (#[trigger] self.spec_entries()@[i]@[j]).wf()
    }

    open spec fn spec_rows(&self) -> nat {
        ROWS as nat
    }

    open spec fn spec_cols(&self) -> nat {
        COLS as nat
    }

    open spec fn entry(&self, i: int, j: int) -> int {
        fv(self.spec_entries()@[i]@[j])
    }

    fn rows(&self) -> (r: usize) {
        ROWS
    }

    fn cols(&self) -> (r: usize) {
        COLS
    }

    fn get(&self, row: usize, col: usize) -> (r: Fp<C, L>) {
        proof {
            assert(self.spec_entries()@[row as int]@[col as int].wf());
        }
        self.entries[row][col]
    }
}

/// A flat table read as a matrix with `rows` rows, column by column: entry
/// `(row, col)` is `entries[row + rows * col]`. Hyrax arranges the values of
/// a multilinear polynomial this way, low bits selecting the row.
#[derive(Clone, Debug)]
pub struct ColumnMajorMatrix<C: FpConfig<L>, const L: usize> {
    entries: Vec<Fp<C, L>>,
    rows: usize,
}

impl<C: FpConfig<L>, const L: usize> ColumnMajorMatrix<C, L> {
    pub closed spec fn spec_table(&self) -> Seq<Fp<C, L>> {
        self.entries@
    }

    /// Not defined on zero rows or a table that does not split into
    /// whole columns.
    pub fn new(entries: Vec<Fp<C, L>>, rows: usize) -> (r: Self)
        requires
            rows > 0,
            entries.len() % rows == 0,
        ensures
            r.spec_table() == entries@,
            r.spec_rows() == rows,
            r.spec_cols() == entries.len() / rows,
    {
        Self { entries, rows }
    }

    /// Row `row`, in column order.
    pub fn row(&self, row: usize) -> (r: Vec<Fp<C, L>>)
        requires
            self.spec_rows() > 0,
            row < self.spec_rows(),
            self.spec_table().len() % self.spec_rows() == 0,
        ensures
            r.len() == self.spec_cols(),
            forall|j: int|
                0 <= j < r.len() ==> #[trigger] r@[j] == self.spec_table()[row + j * self.spec_rows()],
    {
        crate::helpers::column_major_row(self.entries.as_slice(), self.rows, row)
    }
}

impl<C: FpConfig<L>, const L: usize> ColumnMajorMatrix<C, L> {
    /// `M v`.
    pub fn mul_vec(&self, vec: &[Fp<C, L>]) -> (r: Vec<Fp<C, L>>)
        requires
            self.mat_wf(),
            vec.len() == self.spec_cols(),
            all_wf(vec@),
        ensures
            r.len() == self.spec_rows(),
            all_wf(r@),
            forall|i: int|
                0 <= i < r.len() ==> fv(#[trigger] r@[i]) == row_dot::<C, L, Self>(
                    self,
                    i,
                    values_of(vec@),
                    self.spec_cols(),
                ) % pm::<C, L>(),
    {
        proof {
            assert forall|i: int, j: int|
                0 <= i < self.spec_rows() && 0 <= j < self.spec_cols() implies 0 <= #[trigger] self.entry(
                    i,
                    j,
                ) < pm::<C, L>() by {
                let len = self.spec_table().len() as int;
                let rows = self.spec_rows() as int;
                lemma_fundamental_div_mod(len, rows);
                assert(rows * j + i < len) by (nonlinear_arith)
                    requires
                        rows > 0,
                        0 <= i < rows,
                        0 <= j < len / rows,
                        len == rows * (len / rows) + len % rows,
                        len % rows == 0,
                ;
                assert(i + rows * j == rows * j + i);
                lemma_reduced(self.spec_table()[i + rows * j]);
            }
        }
        mul_vec(self, vec)
    }

    /// `v^T M`.
    pub fn vec_mul(&self, vec: &[Fp<C, L>]) -> (r: Vec<Fp<C, L>>)
        requires
            self.mat_wf(),
            vec.len() == self.spec_rows(),
            all_wf(vec@),
        ensures
            r.len() == self.spec_cols(),
            all_wf(r@),
            forall|j: int|
                0 <= j < r.len() ==> fv(#[trigger] r@[j]) == col_dot::<C, L, Self>(
                    self,
                    j,
                    values_of(vec@),
                    self.spec_rows(),
                ) % pm::<C, L>(),
    {
        vec_mul(self, vec)
    }
}

impl<C: FpConfig<L>, const L: usize> Matrix<C, L> for ColumnMajorMatrix<C, L> {
    open spec fn mat_wf(&self) -> bool {
        &&& self.spec_rows() > 0
        &&& self.spec_table().len() % self.spec_rows() == 0
        &&& all_wf(self.spec_table())
    }

    closed spec fn spec_rows(&self) -> nat {
        self.rows as nat
    }

    closed spec fn spec_cols(&self) -> nat {
        (self.entries@.len() as int / (self.rows as int)) as nat
    }

    open spec fn entry(&self, i: int, j: int) -> int {
        fv(self.spec_table()[i + self.spec_rows() * j])
    }

    fn rows(&self) -> (r: usize) {
        self.rows
    }

    fn cols(&self) -> (r: usize) {
        self.entries.len() / self.rows
    }

    fn get(&self, row: usize, col: usize) -> (r: Fp<C, L>) {
        proof {
            let rows = self.rows as int;
            let len = self.entries@.len() as int;
            let cols = len / rows;
            assert(col < cols);
            assert(len % rows == 0);
            lemma_fundamental_div_mod(len, rows);
            assert(rows * (col as int) + (row as int) < len) by (nonlinear_arith)
                requires
                    rows > 0,
                    0 <= row < rows,
                    0 <= col < cols,
                    len == rows * cols + len % rows,
                    len % rows == 0,
            ;
            assert(self.entries.len() == len);
            assert(len <= usize::MAX);
            assert(rows * (col as int) <= len);
        }
        self.entries[row + self.rows * col]
    }
}


/// A matrix held by its nonzero entries, keyed by `(row, column)`.
#[derive(Clone, Debug)]
pub struct SparseMatrix<C: FpConfig<L>, const L: usize> {
    entries: BTreeMap<(usize, usize), Fp<C, L>>,
    rows: usize,
    cols: usize,
}

/// The entries of `m` inside a `rows x cols` shape with a reduced, nonzero
/// value.
pub open spec fn sparse_entries_wf<C: FpConfig<L>, const L: usize>(
    m: Map<(usize, usize), Fp<C, L>>,
    rows: nat,
    cols: nat,
) -> bool {
    forall|k: (usize, usize)|
        #[trigger] m.contains_key(k) ==> k.0 < rows && k.1 < cols && m[k].wf() && fv(m[k]) != 0
}

impl<C: FpConfig<L>, const L: usize> SparseMatrix<C, L> {
    /// The nonzero entries.
    pub closed spec fn spec_entries(&self) -> Map<(usize, usize), Fp<C, L>> {
        self.entries@
    }

    /// The matrix with the given entries; zero values are dropped. Not
    /// defined on an entry outside the shape.
    pub fn new(entries: BTreeMap<(usize, usize), Fp<C, L>>, rows: usize, cols: usize) -> (r: Self)
        requires
            forall|k: (usize, usize)|
                #[trigger] entries@.contains_key(k) ==> k.0 < rows && k.1 < cols && entries@[k].wf(),
        ensures
            r.mat_wf(),
            r.spec_rows() == rows,
            r.spec_cols() == cols,
            forall|k: (usize, usize)|
                #[trigger] r.spec_entries().contains_key(k) <==> entries@.contains_key(k) && fv(
                    entries@[k],
                ) != 0,
            forall|k: (usize, usize)|
                #[trigger] r.spec_entries().contains_key(k) ==> r.spec_entries()[k] == entries@[k],
    {
        broadcast use vstd::std_specs::btree::group_btree_axioms;

        let list = crate::entries::pair_entries(&entries);
        let mut kept: BTreeMap<(usize, usize), Fp<C, L>> = BTreeMap::new();
        let mut i: usize = 0;
        while i < list.len()
            invariant
                i <= list.len(),
                forall|a: int|
                    0 <= a < list.len() ==> entries@.contains_key(#[trigger] list@[a].0)
                        && entries@[list@[a].0] == list@[a].1,
                forall|k: (usize, usize)|
                    #[trigger] entries@.contains_key(k) ==> k.0 < rows && k.1 < cols && entries@[k].wf(),
                forall|k: (usize, usize)|
                    #[trigger] kept@.contains_key(k) ==> entries@.contains_key(k) && kept@[k]
                        == entries@[k] && fv(entries@[k]) != 0,
                forall|a: int|
                    0 <= a < i && fv(list@[a].1) != 0 ==> #[trigger] kept@.contains_key(list@[a].0),
            decreases list.len() - i,
        {
            let (k, v) = list[i];
            proof {
                assert(entries@.contains_key(list@[i as int].0));
            }
            if !v.is_zero() {
                kept.insert(k, v);
            }
            i = i + 1;
        }
        proof {
            assert forall|k: (usize, usize)|
                #[trigger] entries@.contains_key(k) && fv(entries@[k]) != 0 implies kept@.contains_key(k) by {
                let a = choose|a: int| 0 <= a < list.len() && list@[a].0 == k;
                assert(entries@.contains_key(list@[a].0));
            }
        }
        SparseMatrix { entries: kept, rows, cols }
    }

    /// `M v`. Not defined when the length differs from the columns.
    pub fn mul_vec(&self, vec: &[Fp<C, L>]) -> (r: Vec<Fp<C, L>>)
        requires
            self.mat_wf(),
            vec.len() == self.spec_cols(),
            all_wf(vec@),
        ensures
            r.len() == self.spec_rows(),
            all_wf(r@),
            forall|i: int|
                0 <= i < r.len() ==> fv(#[trigger] r@[i]) == row_dot::<C, L, Self>(
                    self,
                    i,
                    values_of(vec@),
                    self.spec_cols(),
                ) % pm::<C, L>(),
    {
        proof {
            assert forall|i: int, j: int|
                0 <= i < self.spec_rows() && 0 <= j < self.spec_cols() implies 0 <= #[trigger] self.entry(i, j)
                    < pm::<C, L>() by {
                let k = (i as usize, j as usize);
                if self.entries@.contains_key(k) {
                    lemma_reduced(self.entries@[k]);
                }
                lemma_pm_pos::<C, L>();
            }
        }
        mul_vec(self, vec)
    }

    /// `v^T M`. Not defined when the length differs from the rows.
    pub fn vec_mul(&self, vec: &[Fp<C, L>]) -> (r: Vec<Fp<C, L>>)
        requires
            self.mat_wf(),
            vec.len() == self.spec_rows(),
            all_wf(vec@),
        ensures
            r.len() == self.spec_cols(),
            all_wf(r@),
            forall|j: int|
                0 <= j < r.len() ==> fv(#[trigger] r@[j]) == col_dot::<C, L, Self>(
                    self,
                    j,
                    values_of(vec@),
                    self.spec_rows(),
                ) % pm::<C, L>(),
    {
        vec_mul(self, vec)
    }
}

impl<C: FpConfig<L>, const L: usize> Matrix<C, L> for SparseMatrix<C, L> {
    open spec fn mat_wf(&self) -> bool {
        sparse_entries_wf(self.spec_entries(), self.spec_rows(), self.spec_cols())
    }

    closed spec fn spec_rows(&self) -> nat {
        self.rows as nat
    }

    closed spec fn spec_cols(&self) -> nat {
        self.cols as nat
    }

    /// The stored value, or zero where none is stored.
    open spec fn entry(&self, i: int, j: int) -> int {
        if self.spec_entries().contains_key((i as usize, j as usize)) {
            fv(self.spec_entries()[(i as usize, j as usize)])
        } else {
            0
        }
    }

    fn rows(&self) -> (r: usize) {
        self.rows
    }

    fn cols(&self) -> (r: usize) {
        self.cols
    }

    fn get(&self, row: usize, col: usize) -> (r: Fp<C, L>) {
        broadcast use vstd::std_specs::btree::group_btree_axioms;

        match self.entries.get(&(row, col)) {
            Some(v) => *v,
            None => Fp::<C, L>::zero(),
        }
    }
}

} // verus!
