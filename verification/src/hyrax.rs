//! The Hyrax polynomial commitment: the table of an `n`-variable multilinear
//! polynomial is read as a column-major `2^(n/2) x 2^(n - n/2)` matrix `T`,
//! and each row is committed with Pedersen. An opening at `r = (r_L, r_R)`
//! projects the row commitments with `eq(r_L)` and proves the inner product
//! with `eq(r_R)` with [`InnerProductProof`].

use crate::bytes::le_bytes;
use crate::curve::{fr_modulus, lemma_fr_modulus, point_views, Bls12381FrConfig, Fr, G1};
use crate::helpers::{all_wf, fv, inner_product};
use crate::ipa::{
    ipa_verify_spec, ipg, is_pow2, log2_of, point_frames, scalar_frames, InnerProductProof,
};
use crate::matrix::{col_dot, eq_weights, ColumnMajorMatrix, Matrix};
use crate::mle::{bit_point, block_sum, eq_value, lemma_mle_tensor, mle_value, tensor_sum, DenseMultilinearPoly, EqPoly, MultilinearPoly};
use crate::pedersen::{ScalarPedersen, VectorPedersen};
use crate::transcript::{frame, Transcript};
use crate::uni_poly::values_of;
use vstd::arithmetic::power2::*;
use vstd::prelude::*;
use vstd::string::StringSliceAdditionalSpecFns;

verus! {

/// The commitment key for polynomials in `num_vars` variables: a vector key
/// for the rows of `T` and a scalar key for evaluations.
#[derive(Clone, Debug)]
pub struct HyraxPCS {
    pub num_vars: usize,
    pub rows: VectorPedersen,
    pub scalar: ScalarPedersen,
}

/// One commitment per row of `T`.
#[derive(Clone, Debug)]
pub struct HyraxPCSCommitment {
    pub rows: Vec<G1>,
}

/// A hiding commitment to the evaluation and the inner-product proof.
#[derive(Clone, Debug)]
pub struct HyraxPCSProof {
    pub result_com: G1,
    pub ipa: InnerProductProof,
}

/// The number of variables that select a row: `n / 2`.
pub open spec fn row_vars_of(n: nat) -> nat {
    n / 2
}

/// The number of variables that select a column: `n - n / 2`.
pub open spec fn col_vars_of(n: nat) -> nat {
    (n - n / 2) as nat
}

/// `sum_{i < k} w[i] * e[i + rows * j]`: column `j` of the column-major table
/// `e` weighted by `w`.
pub open spec fn weighted_column(e: Seq<int>, rows: nat, j: int, w: Seq<int>, k: nat) -> int
    decreases k,
{
    if k == 0 {
        0
    } else {
        weighted_column(e, rows, j, w, (k - 1) as nat) + w[k - 1] * e[(k - 1) + rows * j]
    }
}

/// `eq(r_L)^T T`, reduced: the table folded along its rows.
pub open spec fn row_reduced(e: Seq<int>, rows: nat, w: Seq<int>) -> Seq<int> {
    Seq::new(
        (e.len() as int / rows as int) as nat,
        |j: int| weighted_column(e, rows, j, w, rows) % (fr_modulus() as int),
    )
}

/// The weights `eq(r_L)` of the row variables of `point`.
pub open spec fn row_weights(point: Seq<int>) -> Seq<int> {
    eq_weights::<Bls12381FrConfig, 4>(point.take(row_vars_of(point.len()) as int))
}

/// The weights `eq(r_R)` of the column variables of `point`.
pub open spec fn column_weights(point: Seq<int>) -> Seq<int> {
    eq_weights::<Bls12381FrConfig, 4>(point.skip(row_vars_of(point.len()) as int))
}

/// A weighted column with weights congruent to `eq(rl, .)` is congruent to
/// the block sum.
proof fn lemma_weighted_column_block(e: Seq<int>, rows: nat, j: int, w: Seq<int>, rl: Seq<int>, k: nat)
    requires
        k <= w.len(),
        forall|i: int| 0 <= i < w.len() ==> #[trigger] w[i] == eq_value(rl, bit_point(i as nat, rl.len())) % (fr_modulus() as int),
    ensures
        weighted_column(e, rows, j, w, k) % (fr_modulus() as int) == block_sum(e, rl, rows, j, k) % (fr_modulus() as int),
    decreases k,
{
    let p = fr_modulus() as int;
    lemma_fr_modulus();
    crate::helpers::lemma_pm_pos::<Bls12381FrConfig, 4>();
    if k > 0 {
        let x = (k - 1) as nat;
        lemma_weighted_column_block(e, rows, j, w, rl, x);
        let t = e[x + rows * j];
        let wl = eq_value(rl, bit_point(x, rl.len()));
        vstd::arithmetic::div_mod::lemma_mod_twice(wl, p);
        crate::helpers::lemma_mul_cong(w[x as int], t, wl, t, p);
        vstd::arithmetic::mul::lemma_mul_is_commutative(wl, t);
        crate::helpers::lemma_add_cong(
            weighted_column(e, rows, j, w, x),
            w[x as int] * t,
            block_sum(e, rl, rows, j, x),
            t * wl,
            p,
        );
    }
}

/// The inner product of block sums and column weights is the tensor sum.
proof fn lemma_dot_tensor(u: Seq<int>, v: Seq<int>, e: Seq<int>, rl: Seq<int>, rr: Seq<int>, rows: nat)
    requires
        u.len() <= v.len(),
        forall|j: int| 0 <= j < u.len() ==> #[trigger] u[j] % (fr_modulus() as int) == block_sum(e, rl, rows, j, rows) % (fr_modulus() as int),
        forall|j: int| 0 <= j < v.len() ==> #[trigger] v[j] == eq_value(rr, bit_point(j as nat, rr.len())) % (fr_modulus() as int),
    ensures
        crate::ipa::int_dot(u, v) % (fr_modulus() as int) == tensor_sum(e, rl, rr, rows, u.len()) % (fr_modulus() as int),
    decreases u.len(),
{
    let p = fr_modulus() as int;
    lemma_fr_modulus();
    crate::helpers::lemma_pm_pos::<Bls12381FrConfig, 4>();
    if u.len() > 0 {
        let m = u.len() - 1;
        lemma_dot_tensor(u.drop_last(), v, e, rl, rr, rows);
        let wr = eq_value(rr, bit_point(m as nat, rr.len()));
        vstd::arithmetic::div_mod::lemma_mod_twice(wr, p);
        assert(u[m] % p == block_sum(e, rl, rows, m, rows) % p);
        crate::helpers::lemma_mul_cong(u[m], v[m], block_sum(e, rl, rows, m, rows), wr, p);
        crate::helpers::lemma_add_cong(
            crate::ipa::int_dot(u.drop_last(), v),
            u.last() * v[m],
            tensor_sum(e, rl, rr, rows, m as nat),
            block_sum(e, rl, rows, m, rows) * wr,
            p,
        );
    }
}

/// The value that a Hyrax opening commits to, the inner product of the
/// row-reduced table with the column weights, is the table's extension at
/// the point.
pub proof fn lemma_hyrax_value(e: Seq<int>, pt: Seq<int>)
    requires
        e.len() == pow2(pt.len()),
    ensures
        crate::ipa::int_dot(
            row_reduced(e, pow2(row_vars_of(pt.len())), row_weights(pt)),
            column_weights(pt),
        ) % (fr_modulus() as int) == mle_value(e, pt) % (fr_modulus() as int),
{
    let p = fr_modulus() as int;
    let n = pt.len();
    let a = row_vars_of(n);
    let b = (n - a) as nat;
    let rl = pt.take(a as int);
    let rr = pt.skip(a as int);
    let rows = pow2(a);
    lemma_fr_modulus();
    crate::helpers::lemma_pm_pos::<Bls12381FrConfig, 4>();
    assert(rl + rr =~= pt);
    lemma_pow2_adds(a, b);
    assert(a + b == n);
    lemma_mle_tensor(e, rl, rr);
    lemma_pow2_pos(a);
    vstd::arithmetic::div_mod::lemma_div_multiples_vanish(pow2(b) as int, rows as int);
    vstd::arithmetic::mul::lemma_mul_is_commutative(rows as int, pow2(b) as int);
    let wl = row_weights(pt);
    let wr = column_weights(pt);
    let u = row_reduced(e, rows, wl);
    assert(u.len() == pow2(b));
    assert forall|j: int| 0 <= j < u.len() implies #[trigger] u[j] % p == block_sum(e, rl, rows, j, rows) % p by {
        lemma_weighted_column_block(e, rows, j, wl, rl, rows);
        vstd::arithmetic::div_mod::lemma_mod_twice(weighted_column(e, rows, j, wl, rows), p);
    }
    lemma_dot_tensor(u, wr, e, rl, rr, rows);
}

/// The transcript after binding the row commitments, the point and the
/// evaluation's commitment.
pub open spec fn hyrax_statement(state: Seq<u8>, rows: Seq<Seq<u8>>, point: Seq<int>, result_com: Seq<u8>) -> Seq<u8> {
    state + frame("hyrax-num-rows".spec_bytes(), le_bytes(rows.len(), (usize::BITS / 8) as nat))
        + point_frames("hyrax-row-commitment".spec_bytes(), rows) + scalar_frames(
        "hyrax-point".spec_bytes(),
        point,
    ) + frame("hyrax-result-commitment".spec_bytes(), result_com)
}

proof fn lemma_weighted_column(t: ColumnMajorMatrix<Bls12381FrConfig, 4>, j: int, w: Seq<int>, k: nat)
    requires
        k <= t.spec_rows(),
        0 <= j,
        t.spec_rows() * (j + 1) <= t.spec_table().len(),
    ensures
        col_dot::<Bls12381FrConfig, 4, ColumnMajorMatrix<Bls12381FrConfig, 4>>(&t, j, w, k)
            == weighted_column(values_of(t.spec_table()), t.spec_rows(), j, w, k),
    decreases k,
{
    if k > 0 {
        lemma_weighted_column(t, j, w, (k - 1) as nat);
        let rows = t.spec_rows() as int;
        let i = k - 1;
        assert(0 <= i + rows * j < t.spec_table().len()) by (nonlinear_arith)
            requires
                0 <= i < rows,
                0 <= j,
                rows * (j + 1) <= t.spec_table().len(),
        ;
    }
}

impl HyraxPCS {
    /// The key is usable: the row and column counts fit in a `usize` shift,
    /// there is one row generator per column, with bases for each, and both
    /// keys share the blinding generator.
    pub open spec fn pcs_wf(&self) -> bool {
        &&& col_vars_of(self.num_vars as nat) < usize::BITS
        &&& self.rows.generators.len() == pow2(col_vars_of(self.num_vars as nat))
        &&& self.rows.mul_bases.len() >= self.rows.generators.len()
        &&& self.rows.blind@ == self.scalar.blind@
    }

    /// The key for `num_vars` variables: `2^(n - n/2)` row generators and a
    /// scalar key, hashed under one domain so that they share `H`.
    pub fn setup(domain: &[u8], num_vars: usize) -> (r: Result<Self, ark_ec::hashing::HashToCurveError>)
        requires
            col_vars_of(num_vars as nat) < usize::BITS,
        ensures
            r is Ok,
            r matches Ok(pcs) ==> pcs.pcs_wf() && pcs.num_vars == num_vars,
    {
        let col_vars = num_vars - num_vars / 2;
        let size = crate::helpers::hypercube_size(col_vars);
        let rows = VectorPedersen::setup(domain, size)?;
        let scalar = ScalarPedersen::setup(domain)?;
        Ok(HyraxPCS { num_vars, rows, scalar })
    }

    /// The number of rows of `T`: `2^(n/2)`.
    pub fn num_rows(&self) -> (r: usize)
        requires
            self.pcs_wf(),
        ensures
            r == pow2(row_vars_of(self.num_vars as nat)),
    {
        crate::helpers::hypercube_size(self.num_vars / 2)
    }
}


/// Row `row` of the column-major table `e` with `rows` rows.
pub open spec fn row_of(e: Seq<Fr>, rows: nat, row: int) -> Seq<Fr> {
    Seq::new((e.len() as int / rows as int) as nat, |j: int| e[row + j * rows])
}

/// `2^n` splits into `2^(n/2)` rows of `2^(n - n/2)` entries.
proof fn lemma_table_shape(n: nat)
    ensures
        pow2(n) == pow2(row_vars_of(n)) * pow2(col_vars_of(n)),
        pow2(row_vars_of(n)) > 0,
        pow2(col_vars_of(n)) > 0,
        pow2(n) % pow2(row_vars_of(n)) == 0,
        pow2(n) / pow2(row_vars_of(n)) == pow2(col_vars_of(n)),
{
    lemma_pow2_adds(row_vars_of(n), col_vars_of(n));
    lemma_pow2_pos(row_vars_of(n));
    lemma_pow2_pos(col_vars_of(n));
    vstd::arithmetic::div_mod::lemma_mod_multiples_basic(
        pow2(col_vars_of(n)) as int,
        pow2(row_vars_of(n)) as int,
    );
    vstd::arithmetic::div_mod::lemma_div_multiples_vanish(
        pow2(col_vars_of(n)) as int,
        pow2(row_vars_of(n)) as int,
    );
    vstd::arithmetic::mul::lemma_mul_is_commutative(
        pow2(row_vars_of(n)) as int,
        pow2(col_vars_of(n)) as int,
    );
}

/// Row `row` of the column-major table `e` with `rows` rows, by values.
pub open spec fn row_values(e: Seq<int>, rows: nat, row: int) -> Seq<nat> {
    Seq::new((e.len() as int / rows as int) as nat, |j: int| e[row + j * rows] as nat)
}

/// The Hyrax commitment to the table `e`, given by values, with the row
/// blinds `bl`: one Pedersen commitment per row of the column-major matrix.
pub open spec fn hyrax_rows(pcs: HyraxPCS, e: Seq<int>, bl: Seq<Fr>) -> Seq<Seq<u8>> {
    let nr = pow2(row_vars_of(pcs.num_vars as nat));
    Seq::new(
        nr,
        |row: int|
            crate::pedersen::vector_commit(
                point_views(pcs.rows.mul_bases@),
                pcs.rows.blind@,
                row_values(e, nr, row),
                bl[row].value(),
            ),
    )
}

/// A row of reduced scalars has the values of the row of their values.
proof fn lemma_row_values(e: Seq<Fr>, rows: nat, row: int)
    requires
        rows > 0,
        e.len() % rows == 0,
        0 <= row < rows,
    ensures
        crate::curve::scalar_values(row_of(e, rows, row)) == row_values(values_of(e), rows, row),
{
    let n = e.len() as int / rows as int;
    vstd::arithmetic::div_mod::lemma_fundamental_div_mod(e.len() as int, rows as int);
    assert forall|j: int| 0 <= j < n implies crate::curve::scalar_values(row_of(e, rows, row))[j]
        == #[trigger] row_values(values_of(e), rows, row)[j] by {
        assert(0 <= row + j * rows < rows * n) by (nonlinear_arith)
            requires
                0 <= row < rows,
                0 <= j < n,
        ;
    }
    assert(crate::curve::scalar_values(row_of(e, rows, row)) =~= row_values(values_of(e), rows, row));
}

impl HyraxPCS {
    /// Commits to each row of `T` with its blind. Refused: a
    /// polynomial in another number of variables or a blind count other
    /// than the row count.
    pub fn commit(&self, poly: &DenseMultilinearPoly<Bls12381FrConfig, 4>, com_blinds: &[Fr]) -> (c: HyraxPCSCommitment)
        requires
            self.pcs_wf(),
            poly.mle_wf(),
            poly.spec_vars() == self.num_vars,
            com_blinds.len() == pow2(row_vars_of(self.num_vars as nat)),
            all_wf(com_blinds@),
        ensures
            c.rows.len() == com_blinds.len(),
            forall|row: int|
                0 <= row < c.rows.len() ==> (#[trigger] c.rows@[row])@ == crate::pedersen::vector_commit(
                    point_views(self.rows.mul_bases@),
                    self.rows.blind@,
                    crate::curve::scalar_values(
                        row_of(poly.spec_evals(), pow2(row_vars_of(self.num_vars as nat)), row),
                    ),
                    com_blinds@[row].value(),
                ),
            point_views(c.rows@) == hyrax_rows(*self, poly.spec_table(), com_blinds@),
    {
        let num_rows = self.num_rows();
        let ghost n = self.num_vars as nat;
        proof {
            lemma_table_shape(n);
        }
        let t = ColumnMajorMatrix::new(vstd::slice::slice_to_vec(poly.evals()), num_rows);
        let mut rows: Vec<G1> = Vec::new();
        let mut row: usize = 0;
        while row < num_rows
            invariant
                self.pcs_wf(),
                n == self.num_vars,
                num_rows == pow2(row_vars_of(n)),
                com_blinds.len() == num_rows,
                all_wf(com_blinds@),
                t.spec_table() == poly.spec_evals(),
                t.spec_rows() == num_rows,
                t.spec_cols() == pow2(col_vars_of(n)),
                poly.spec_evals().len() == pow2(n),
                all_wf(poly.spec_evals()),
                pow2(n) == pow2(row_vars_of(n)) * pow2(col_vars_of(n)),
                pow2(n) / pow2(row_vars_of(n)) == pow2(col_vars_of(n)),
                pow2(n) % pow2(row_vars_of(n)) == 0,
                row <= num_rows,
                rows.len() == row,
                forall|k: int|
                    0 <= k < row ==> (#[trigger] rows@[k])@ == crate::pedersen::vector_commit(
                        point_views(self.rows.mul_bases@),
                        self.rows.blind@,
                        crate::curve::scalar_values(row_of(poly.spec_evals(), num_rows as nat, k)),
                        com_blinds@[k].value(),
                    ),
            decreases num_rows - row,
        {
            let entries = t.row(row);
            proof {
                assert(entries@ =~= row_of(poly.spec_evals(), num_rows as nat, row as int));
                assert forall|j: int| 0 <= j < entries.len() implies (#[trigger] entries@[j]).wf() by {
                    let cols = pow2(col_vars_of(n)) as int;
                    let r = num_rows as int;
                    assert(0 <= row + j * r < pow2(n)) by (nonlinear_arith)
                        requires
                            0 <= row < r,
                            0 <= j < cols,
                            pow2(n) == r * cols,
                    ;
                }
            }
            let c = self.rows.commit(entries.as_slice(), &com_blinds[row]);
            rows.push(c);
            row = row + 1;
        }
        proof {
            assert forall|k: int| 0 <= k < num_rows implies point_views(rows@)[k] == hyrax_rows(
                *self,
                poly.spec_table(),
                com_blinds@,
            )[k] by {
                lemma_row_values(poly.spec_evals(), num_rows as nat, k);
            }
            assert(point_views(rows@) =~= hyrax_rows(*self, poly.spec_table(), com_blinds@));
        }
        HyraxPCSCommitment { rows }
    }
}


/// `2^k` is a power of two with logarithm `k`.
pub proof fn lemma_is_pow2(k: nat)
    ensures
        is_pow2(pow2(k)),
        log2_of(pow2(k)) == k,
    decreases k,
{
    lemma_pow2_pos(k);
    if k > 0 {
        lemma_is_pow2((k - 1) as nat);
        lemma_pow2_unfold(k);
        lemma_pow2_pos((k - 1) as nat);
        assert(pow2(k) / 2 == pow2((k - 1) as nat));
    } else {
        lemma2_to64();
    }
}

/// The weights `eq(r_L)` and `eq(r_R)` of the row and column variables.
fn split_weights(point: &[Fr], split: usize) -> (r: (Vec<Fr>, Vec<Fr>))
    requires
        split <= point.len(),
        split < usize::BITS,
        point.len() - split < usize::BITS,
        all_wf(point@),
    ensures
        all_wf(r.0@),
        all_wf(r.1@),
        r.0.len() == pow2(split as nat),
        r.1.len() == pow2((point.len() - split) as nat),
        values_of(r.0@) == eq_weights::<Bls12381FrConfig, 4>(values_of(point@).take(split as int)),
        values_of(r.1@) == eq_weights::<Bls12381FrConfig, 4>(values_of(point@).skip(split as int)),
{
    let lo = vstd::slice::slice_to_vec(vstd::slice::slice_subrange(point, 0, split));
    let hi = vstd::slice::slice_to_vec(vstd::slice::slice_subrange(point, split, point.len()));
    proof {
        assert(values_of(lo@) =~= values_of(point@).take(split as int));
        assert(values_of(hi@) =~= values_of(point@).skip(split as int));
        assert forall|i: int| 0 <= i < lo.len() implies (#[trigger] lo@[i]).wf() by {
            assert(lo@[i] == point@[i]);
        }
        assert forall|i: int| 0 <= i < hi.len() implies (#[trigger] hi@[i]).wf() by {
            assert(hi@[i] == point@[i + split]);
        }
    }
    let row_weights = EqPoly::new(lo).table();
    let col_weights = EqPoly::new(hi).table();
    proof {
        assert(values_of(row_weights@) =~= eq_weights::<Bls12381FrConfig, 4>(values_of(lo@)));
        assert(values_of(col_weights@) =~= eq_weights::<Bls12381FrConfig, 4>(values_of(hi@)));
    }
    (row_weights, col_weights)
}

/// Binds the row commitments, the point and the evaluation's commitment.
fn append_statement(
    transcript: &mut Transcript,
    commitment: &HyraxPCSCommitment,
    point: &[Fr],
    result_com: &G1,
)
    requires
        all_wf(point@),
    ensures
        final(transcript).absorbed() == hyrax_statement(
            old(transcript).absorbed(),
            point_views(commitment.rows@),
            values_of(point@),
            result_com@,
        ),
{
    transcript.append_usize("hyrax-num-rows".as_bytes(), commitment.rows.len());
    crate::ipa::append_points(transcript, "hyrax-row-commitment".as_bytes(), commitment.rows.as_slice());
    crate::ipa::append_scalars(transcript, "hyrax-point".as_bytes(), point);
    transcript.append_point("hyrax-result-commitment".as_bytes(), result_com);
}

/// What the verifier of an opening computes: `(accepted, transcript)`.
pub open spec fn hyrax_verify_spec(
    state: Seq<u8>,
    pcs: HyraxPCS,
    rows: Seq<Seq<u8>>,
    point: Seq<int>,
    proof: HyraxPCSProof,
) -> (bool, Seq<u8>) {
    if !(rows.len() == pow2(row_vars_of(pcs.num_vars as nat)) && point.len() == pcs.num_vars
        && pcs.rows.blind@ == pcs.scalar.blind@) {
        (false, state)
    } else {
        ipa_verify_spec(
            hyrax_statement(state, rows, point, proof.result_com@),
            proof.ipa,
            pcs.rows,
            pcs.scalar,
            column_weights(point),
            ipg(rows, row_weights(point)),
            proof.result_com@,
        )
    }
}

impl HyraxPCS {
    /// Checks an opening: projects the row commitments with `eq(r_L)` and
    /// verifies the inner-product proof against `eq(r_R)`. A commitment or
    /// point of the wrong size, or keys with different blinding generators,
    /// are rejected before anything is absorbed.
    pub fn verify(
        &self,
        commitment: &HyraxPCSCommitment,
        point: &[Fr],
        proof: &HyraxPCSProof,
        transcript: &mut Transcript,
    ) -> (r: bool)
        requires
            col_vars_of(self.num_vars as nat) < usize::BITS,
            proof.ipa.proof_wf(),
            all_wf(point@),
        ensures
            ({
                let v = hyrax_verify_spec(
                    old(transcript).absorbed(),
                    *self,
                    point_views(commitment.rows@),
                    values_of(point@),
                    *proof,
                );
                r == v.0 && final(transcript).absorbed() == v.1
            }),
    {
        let split = self.num_vars / 2;
        let num_rows = crate::helpers::hypercube_size(split);
        if commitment.rows.len() != num_rows || point.len() != self.num_vars
            || !self.rows.blind.equals(&self.scalar.blind) {
            return false;
        }
        let (row_weights, column_weights) = split_weights(point, split);
        let row_reduced_commitment = crate::ipa::ip_points(commitment.rows.as_slice(), row_weights.as_slice());
        append_statement(transcript, commitment, point, &proof.result_com);
        proof.ipa.verify(
            &self.rows,
            &self.scalar,
            column_weights.as_slice(),
            &row_reduced_commitment,
            &proof.result_com,
            transcript,
        )
    }
}


/// The inner-product statement an opening proves: the projected row
/// commitment opens to `eq(r_L)^T T` with the projected blind, and the
/// evaluation's commitment opens to `<eq(r_L)^T T, eq(r_R)>`.
pub open spec fn hyrax_ipa_holds(
    pcs: HyraxPCS,
    rows: Seq<Seq<u8>>,
    evals: Seq<Fr>,
    com_blinds: Seq<Fr>,
    point: Seq<int>,
) -> bool {
    let nr = pow2(row_vars_of(pcs.num_vars as nat));
    let u = row_reduced(values_of(evals), nr, row_weights(point));
    ipg(rows, row_weights(point)) == crate::pedersen::vector_commit(
        point_views(pcs.rows.mul_bases@),
        pcs.rows.blind@,
        u.map_values(|v: int| v as nat),
        (crate::ipa::int_dot(values_of(com_blinds), row_weights(point)) % (fr_modulus() as int)) as nat,
    )
}

/// What the inner-product prover of an opening computes with the blinds
/// `bm`, `bp`, `d`, `bd`, `bb`, on the statement bound by the opening.
pub open spec fn hyrax_open_spec(
    state: Seq<u8>,
    pcs: HyraxPCS,
    rows: Seq<Seq<u8>>,
    evals: Seq<Fr>,
    com_blinds: Seq<Fr>,
    point: Seq<int>,
    result_blind: nat,
    bm: Seq<nat>,
    bp: Seq<nat>,
    d: nat,
    bd: nat,
    bb: nat,
) -> (bool, Seq<u8>, Seq<Seq<u8>>, Seq<Seq<u8>>, Seq<u8>, Seq<u8>, nat, nat) {
    let nr = pow2(row_vars_of(pcs.num_vars as nat));
    let u = row_reduced(values_of(evals), nr, row_weights(point));
    let y = (crate::ipa::int_dot(u, column_weights(point)) % (fr_modulus() as int)) as nat;
    let vb = (crate::ipa::int_dot(values_of(com_blinds), row_weights(point)) % (fr_modulus() as int)) as nat;
    let rc = crate::pedersen::scalar_commit(pcs.scalar.generator@, pcs.scalar.blind@, y, result_blind);
    crate::ipa::ipa_prove_spec(
        hyrax_statement(state, rows, point, rc),
        pcs.rows,
        pcs.scalar,
        ipg(rows, row_weights(point)),
        rc,
        u,
        vb,
        column_weights(point),
        result_blind,
        bm,
        bp,
        d,
        bd,
        bb,
    )
}

/// The ways an opening from `state` is refused: the projected row
/// commitments are not the commitment to the reduced row, or, for some
/// blinds, the inner-product prover finds no nonzero challenge.
pub open spec fn hyrax_open_refused(
    state: Seq<u8>,
    pcs: HyraxPCS,
    rows: Seq<Seq<u8>>,
    evals: Seq<Fr>,
    com_blinds: Seq<Fr>,
    point: Seq<int>,
    result_blind: nat,
) -> bool {
    ||| !hyrax_ipa_holds(pcs, rows, evals, com_blinds, point)
    ||| exists|bm: Seq<nat>, bp: Seq<nat>, d: nat, bd: nat, bb: nat|
        !(#[trigger] hyrax_open_spec(state, pcs, rows, evals, com_blinds, point, result_blind, bm, bp, d, bd, bb)).0
}

/// The inner-product proof of an opening, if there is one.
pub open spec fn hyrax_ipa_part(r: Option<HyraxPCSProof>) -> Option<InnerProductProof> {
    match r {
        Some(proof) => Some(proof.ipa),
        None => None,
    }
}

impl HyraxPCS {
    /// The opening at `point`: the evaluation `eq(r_L)^T T eq(r_R)` is
    /// committed with `result_blind`, the statement is bound, and the inner
    /// product is proved with blinds drawn from `rng`. Refused:
    /// shapes that do not match the key; it fails inside the inner-product
    /// prover when the projected commitments do not open as the prover
    /// computes them, where this returns `None`, as it does when `2^64 - 1`
    /// challenges in a row come out zero.
    pub fn open(
        &self,
        commitment: &HyraxPCSCommitment,
        poly: &DenseMultilinearPoly<Bls12381FrConfig, 4>,
        com_blinds: &[Fr],
        point: &[Fr],
        result_blind: &Fr,
        transcript: &mut Transcript,
        rng: &mut ark_std::rand::rngs::StdRng,
    ) -> (r: Option<HyraxPCSProof>)
        requires
            self.pcs_wf(),
            self.rows.blind@ == self.scalar.blind@,
            poly.mle_wf(),
            poly.spec_vars() == self.num_vars,
            commitment.rows.len() == pow2(row_vars_of(self.num_vars as nat)),
            com_blinds.len() == pow2(row_vars_of(self.num_vars as nat)),
            point.len() == self.num_vars,
            all_wf(com_blinds@),
            all_wf(point@),
            result_blind.wf(),
        ensures
            ({
                let pt = values_of(point@);
                let nr = pow2(row_vars_of(self.num_vars as nat));
                let y = (mle_value(values_of(poly.spec_evals()), pt) % (fr_modulus() as int)) as nat;
                &&& !hyrax_ipa_holds(*self, point_views(commitment.rows@), poly.spec_evals(), com_blinds@, pt)
                    ==> r is None && final(transcript).absorbed() == old(transcript).absorbed()
                &&& r matches Some(proof) ==> proof.result_com@ == crate::pedersen::scalar_commit(
                    self.scalar.generator@,
                    self.scalar.blind@,
                    y,
                    result_blind.value(),
                )
            }),
            hyrax_ipa_holds(*self, point_views(commitment.rows@), poly.spec_evals(), com_blinds@, values_of(point@))
                ==> exists|bm: Seq<nat>, bp: Seq<nat>, d: nat, bd: nat, bb: nat|
                crate::ipa::ipa_prove_outcome(
                    hyrax_ipa_part(r),
                    final(transcript).absorbed(),
                    #[trigger] hyrax_open_spec(
                        old(transcript).absorbed(),
                        *self,
                        point_views(commitment.rows@),
                        poly.spec_evals(),
                        com_blinds@,
                        values_of(point@),
                        result_blind.value(),
                        bm,
                        bp,
                        d,
                        bd,
                        bb,
                    ),
                ),
            r is None ==> hyrax_open_refused(
                old(transcript).absorbed(),
                *self,
                point_views(commitment.rows@),
                poly.spec_evals(),
                com_blinds@,
                values_of(point@),
                result_blind.value(),
            ),
    {
        let split = self.num_vars / 2;
        let num_rows = self.num_rows();
        let ghost n = self.num_vars as nat;
        let ghost pt = values_of(point@);
        proof {
            lemma_table_shape(n);
            lemma_is_pow2(col_vars_of(n));
            assert(pt.take(split as int) =~= pt.take(row_vars_of(pt.len()) as int));
        }
        let (row_weights, column_weights) = split_weights(point, split);
        let t = ColumnMajorMatrix::new(vstd::slice::slice_to_vec(poly.evals()), num_rows);
        let u = t.vec_mul(row_weights.as_slice());
        proof {
            let w = values_of(row_weights@);
            assert forall|j: int| 0 <= j < u.len() implies fv(#[trigger] u@[j]) == row_reduced(
                values_of(poly.spec_evals()),
                num_rows as nat,
                w,
            )[j] by {
                let cols = pow2(col_vars_of(n)) as int;
                let r = num_rows as int;
                assert(r * (j + 1) <= pow2(n)) by (nonlinear_arith)
                    requires
                        0 <= j < cols,
                        pow2(n) == r * cols,
                ;
                lemma_weighted_column(t, j, w, num_rows as nat);
                lemma_fr_modulus();
                assert(u.len() == pow2(col_vars_of(n)));
            }
            assert(values_of(u@) =~= row_reduced(values_of(poly.spec_evals()), num_rows as nat, w));
        }
        let vb = inner_product(com_blinds, row_weights.as_slice());
        let cx = crate::ipa::ip_points(commitment.rows.as_slice(), row_weights.as_slice());
        let y = inner_product(u.as_slice(), column_weights.as_slice());
        let result_com = self.scalar.commit(&y, result_blind);
        proof {
            lemma_hyrax_value(values_of(poly.spec_evals()), pt);
            lemma_fr_modulus();
            crate::ipa::lemma_dot_values(u@, column_weights@);
        }
        let expected = self.rows.commit(u.as_slice(), &vb);
        proof {
            lemma_fr_modulus();
            crate::ipa::lemma_dot_values(com_blinds@, row_weights@);
            crate::ipa::lemma_dot_values(u@, column_weights@);
            assert(crate::curve::scalar_values(u@) =~= row_reduced(
                values_of(poly.spec_evals()),
                num_rows as nat,
                values_of(row_weights@),
            ).map_values(|v: int| v as nat));
        }
        if !expected.equals(&cx) {
            return None;
        }
        append_statement(transcript, commitment, point, &result_com);
        let ipa = InnerProductProof::prove(
            &self.rows,
            &self.scalar,
            &cx,
            &result_com,
            u.as_slice(),
            &vb,
            column_weights.as_slice(),
            result_blind,
            transcript,
            rng,
        );
        let r = match ipa {
            Some(ipa) => Some(HyraxPCSProof { result_com, ipa }),
            None => None,
        };
        proof {
            let hs = hyrax_statement(old(transcript).absorbed(), point_views(commitment.rows@), pt, result_com@);
            let w = choose|bm: Seq<nat>, bp: Seq<nat>, d: nat, bd: nat, bb: nat|
                {
                    &&& bm.len() == log2_of(column_weights@.len() as nat)
                    &&& bp.len() == log2_of(column_weights@.len() as nat)
                    &&& d < fr_modulus()
                    &&& bd < fr_modulus()
                    &&& bb < fr_modulus()
                    &&& crate::ipa::ipa_prove_outcome(
                        ipa,
                        transcript.absorbed(),
                        crate::ipa::ipa_prove_spec(
                            hs,
                            self.rows,
                            self.scalar,
                            cx@,
                            result_com@,
                            values_of(u@),
                            vb.value(),
                            values_of(column_weights@),
                            result_blind.value(),
                            bm,
                            bp,
                            d,
                            bd,
                            bb,
                        ),
                    )
                };
            assert(hyrax_ipa_part(r) == ipa);
            assert(hyrax_open_spec(
                old(transcript).absorbed(),
                *self,
                point_views(commitment.rows@),
                poly.spec_evals(),
                com_blinds@,
                pt,
                result_blind.value(),
                w.0,
                w.1,
                w.2,
                w.3,
                w.4,
            ) == crate::ipa::ipa_prove_spec(
                hs,
                self.rows,
                self.scalar,
                cx@,
                result_com@,
                values_of(u@),
                vb.value(),
                values_of(column_weights@),
                result_blind.value(),
                w.0,
                w.1,
                w.2,
                w.3,
                w.4,
            ));
        }
        r
    }
}

} // verus!
