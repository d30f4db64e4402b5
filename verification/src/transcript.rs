//! A Fiat-Shamir transcript over SHA-256.
//!
//! The transcript keeps every byte absorbed so far; a challenge is derived
//! from the SHA-256 digest of those bytes followed by a domain-separated
//! suffix, and is then absorbed itself. A prover and a verifier that append
//! the same messages in the same order obtain the same challenges.

use crate::bytes::{be_value, le_bytes, u64_le_bytes, usize_le_bytes};
use crate::curve::G1;
use crate::ff::{Fp, FpConfig};
use crate::fp_codec::byte_size;
use crate::helpers::{all_wf, fv, pm};
use crate::matrix::Matrix;
use crate::uni_poly::values_of;
use vstd::prelude::*;

verus! {

/// The SHA-256 digest of `data`.
pub uninterp spec fn sha256_spec(data: Seq<u8>) -> Seq<u8>;

/// `sha2::Sha256::digest`: the SHA-256 digest of `data`, as the 32 bytes that
/// `sha256_spec` names. Nothing else is claimed of the hash function.
#[verifier::external_body]
fn sha256(data: &[u8]) -> (r: [u8; 32])
    ensures
        r@ == sha256_spec(data@),
{
    let digest = <sha2::Sha256 as sha2::Digest>::digest(data);
    digest.into()
}

/// A labelled message: the label and the payload, each preceded by its
/// length as eight little-endian bytes.
pub open spec fn frame(label: Seq<u8>, bytes: Seq<u8>) -> Seq<u8> {
    le_bytes(label.len(), 8) + label + le_bytes(bytes.len(), 8) + bytes
}

/// The suffix hashed after the transcript for challenge block `counter`.
pub open spec fn block_suffix(kind: Seq<u8>, label: Seq<u8>, counter: nat) -> Seq<u8> {
    le_bytes(kind.len(), 8) + kind + le_bytes(label.len(), 8) + label + le_bytes(counter, 8)
}

/// The label under which the domain separator is absorbed.
pub open spec fn domain_label() -> Seq<u8> {
    seq![100u8, 111u8, 109u8, 97u8, 105u8, 110u8]
}

/// The kind tag of field challenges.
pub open spec fn field_challenge_kind() -> Seq<u8> {
    seq![
        99u8, 104u8, 97u8, 108u8, 108u8, 101u8, 110u8, 103u8, 101u8, 45u8, 102u8, 105u8, 101u8,
        108u8, 100u8,
    ]
}

/// The first `k` challenge blocks, concatenated.
pub open spec fn block_stream(state: Seq<u8>, kind: Seq<u8>, label: Seq<u8>, k: nat) -> Seq<u8>
    decreases k,
{
    if k == 0 {
        Seq::empty()
    } else {
        block_stream(state, kind, label, (k - 1) as nat) + sha256_spec(
            state + block_suffix(kind, label, (k - 1) as nat),
        )
    }
}

/// The bytes behind a field challenge: `len` bytes of the block stream.
pub open spec fn challenge_bytes(state: Seq<u8>, label: Seq<u8>, len: nat) -> Seq<u8> {
    block_stream(state, field_challenge_kind(), label, (len + 31) / 32).take(len as int)
}

/// The canonical bytes of a field element with value `v`.
pub open spec fn value_bytes<C: FpConfig<N>, const N: usize>(v: int) -> Seq<u8> {
    le_bytes(v as nat, byte_size(Fp::<C, N>::spec_modulus_bits()))
}

/// The canonical bytes of each value, concatenated.
pub open spec fn value_list_body<C: FpConfig<N>, const N: usize>(vs: Seq<int>) -> Seq<u8>
    decreases vs.len(),
{
    if vs.len() == 0 {
        Seq::empty()
    } else {
        value_list_body::<C, N>(vs.drop_last()) + value_bytes::<C, N>(vs.last())
    }
}

/// The list encoding of field elements: their count as eight little-endian
/// bytes, then each element's canonical bytes.
pub open spec fn value_list_bytes<C: FpConfig<N>, const N: usize>(vs: Seq<int>) -> Seq<u8> {
    le_bytes(vs.len(), 8) + value_list_body::<C, N>(vs)
}

/// The number of bytes drawn for a field challenge: 16 more than the modulus
/// needs, so that the reduction is close to uniform.
pub open spec fn challenge_len<C: FpConfig<N>, const N: usize>() -> nat {
    byte_size(Fp::<C, N>::spec_modulus_bits()) + 16
}

/// The value of the field challenge drawn under `label` from `state`.
pub open spec fn challenge_value<C: FpConfig<N>, const N: usize>(
    state: Seq<u8>,
    label: Seq<u8>,
) -> int {
    (be_value(challenge_bytes(state, label, challenge_len::<C, N>())) as int) % pm::<C, N>()
}

/// The transcript after drawing the field challenge `value` under `label`.
pub open spec fn after_challenge<C: FpConfig<N>, const N: usize>(
    state: Seq<u8>,
    label: Seq<u8>,
) -> Seq<u8> {
    state + frame(label, value_bytes::<C, N>(challenge_value::<C, N>(state, label)))
}

/// The first `k` entries of `m` in row-major order, each framed under
/// `label` by its canonical bytes.
pub open spec fn matrix_body<C: FpConfig<N>, const N: usize, M: Matrix<C, N>>(
    label: Seq<u8>,
    m: &M,
    k: nat,
) -> Seq<u8>
    decreases k,
{
    if k == 0 {
        Seq::empty()
    } else {
        let i = (k - 1) as int;
        let cols = m.spec_cols() as int;
        matrix_body::<C, N, M>(label, m, (k - 1) as nat) + frame(
            label,
            value_bytes::<C, N>(m.entry(i / cols, i % cols)),
        )
    }
}

/// A matrix as absorbed: its shape, then every entry row by row.
pub open spec fn matrix_frames<C: FpConfig<N>, const N: usize, M: Matrix<C, N>>(
    label: Seq<u8>,
    m: &M,
) -> Seq<u8> {
    frame(
        seq![109u8, 97u8, 116u8, 114u8, 105u8, 120u8, 45u8, 114u8, 111u8, 119u8, 115u8],
        le_bytes(m.spec_rows(), (usize::BITS / 8) as nat),
    ) + frame(
        seq![109u8, 97u8, 116u8, 114u8, 105u8, 120u8, 45u8, 99u8, 111u8, 108u8, 115u8],
        le_bytes(m.spec_cols(), (usize::BITS / 8) as nat),
    ) + matrix_body::<C, N, M>(label, m, m.spec_rows() * m.spec_cols())
}

/// The bytes absorbed so far.
#[derive(Clone, Debug)]
pub struct Transcript {
    state: Vec<u8>,
}

/// Appends `bytes` to `out`.
pub(crate) fn push_all(out: &mut Vec<u8>, bytes: &[u8])
    ensures
        final(out)@ == old(out)@ + bytes@,
{
    let mut i: usize = 0;
    while i < bytes.len()
        invariant
            i <= bytes.len(),
            out@ == old(out)@ + bytes@.take(i as int),
        decreases bytes.len() - i,
    {
        out.push(bytes[i]);
        i = i + 1;
        proof {
            assert(out@ =~= old(out)@ + bytes@.take(i as int));
        }
    }
    proof {
        assert(bytes@.take(bytes.len() as int) =~= bytes@);
    }
}

impl Transcript {
    /// Everything absorbed so far.
    pub closed spec fn absorbed(&self) -> Seq<u8> {
        self.state@
    }

    /// A transcript that has absorbed the protocol's domain separator.
    pub fn new(domain_separator: &[u8]) -> (t: Self)
        ensures
            t.absorbed() == frame(domain_label(), domain_separator@),
    {
        let mut t = Self { state: Vec::new() };
        let label: [u8; 6] = [100u8, 111u8, 109u8, 97u8, 105u8, 110u8];
        proof {
            assert(label@ =~= domain_label());
        }
        t.append_bytes(&label, domain_separator);
        proof {
            assert(Seq::<u8>::empty() + frame(domain_label(), domain_separator@) =~= frame(
                domain_label(),
                domain_separator@,
            ));
        }
        t
    }

    /// Absorbs a labelled byte string.
    pub fn append_bytes(&mut self, label: &[u8], bytes: &[u8])
        ensures
            final(self).absorbed() == old(self).absorbed() + frame(label@, bytes@),
    {
        let label_len = u64_le_bytes(label.len() as u64);
        let bytes_len = u64_le_bytes(bytes.len() as u64);
        push_all(&mut self.state, &label_len);
        push_all(&mut self.state, label);
        push_all(&mut self.state, &bytes_len);
        push_all(&mut self.state, bytes);
        proof {
            assert(self.state@ =~= old(self).state@ + frame(label@, bytes@));
        }
    }

    /// Absorbs a `usize` as its little-endian bytes.
    pub fn append_usize(&mut self, label: &[u8], value: usize)
        ensures
            final(self).absorbed() == old(self).absorbed() + frame(
                label@,
                le_bytes(value as nat, (usize::BITS / 8) as nat),
            ),
    {
        let bytes = usize_le_bytes(value);
        self.append_bytes(label, bytes.as_slice());
    }

    /// Absorbs the canonical bytes of a field element.
    pub fn append_field<C: FpConfig<N>, const N: usize>(&mut self, label: &[u8], x: &Fp<C, N>)
        requires
            x.wf(),
        ensures
            final(self).absorbed() == old(self).absorbed() + frame(
                label@,
                value_bytes::<C, N>(fv(*x)),
            ),
    {
        let bytes = x.serialize_uncompressed();
        self.append_bytes(label, bytes.as_slice());
    }

    /// Absorbs a matrix with its shape, so that two matrices with the same
    /// entries in another shape are told apart.
    pub fn append_matrix<C: FpConfig<N>, const N: usize, M: Matrix<C, N>>(&mut self, label: &[u8], matrix: &M)
        requires
            matrix.mat_wf(),
        ensures
            final(self).absorbed() == old(self).absorbed() + matrix_frames::<C, N, M>(label@, matrix),
    {
        let rows_label: [u8; 11] = [109u8, 97u8, 116u8, 114u8, 105u8, 120u8, 45u8, 114u8, 111u8, 119u8, 115u8];
        let cols_label: [u8; 11] = [109u8, 97u8, 116u8, 114u8, 105u8, 120u8, 45u8, 99u8, 111u8, 108u8, 115u8];
        let rows = matrix.rows();
        let cols = matrix.cols();
        let ghost start = self.absorbed();
        proof {
            assert(rows_label@ =~= seq![109u8, 97u8, 116u8, 114u8, 105u8, 120u8, 45u8, 114u8, 111u8, 119u8, 115u8]);
            assert(cols_label@ =~= seq![109u8, 97u8, 116u8, 114u8, 105u8, 120u8, 45u8, 99u8, 111u8, 108u8, 115u8]);
        }
        self.append_usize(&rows_label, rows);
        self.append_usize(&cols_label, cols);
        let ghost head = self.absorbed();
        let mut row: usize = 0;
        while row < rows
            invariant
                matrix.mat_wf(),
                rows == matrix.spec_rows(),
                cols == matrix.spec_cols(),
                row <= rows,
                self.absorbed() == head + matrix_body::<C, N, M>(label@, matrix, (row * cols) as nat),
            decreases rows - row,
        {
            let mut col: usize = 0;
            while col < cols
                invariant
                    matrix.mat_wf(),
                    rows == matrix.spec_rows(),
                    cols == matrix.spec_cols(),
                    row < rows,
                    col <= cols,
                    self.absorbed() == head + matrix_body::<C, N, M>(
                        label@,
                        matrix,
                        (row * cols + col) as nat,
                    ),
                decreases cols - col,
            {
                let value = matrix.get(row, col);
                self.append_field(label, &value);
                proof {
                    let k = row * cols + col;
                    vstd::arithmetic::div_mod::lemma_fundamental_div_mod_converse(
                        k as int,
                        cols as int,
                        row as int,
                        col as int,
                    );
                    assert(matrix_body::<C, N, M>(label@, matrix, (k + 1) as nat) == matrix_body::<
                        C,
                        N,
                        M,
                    >(label@, matrix, k as nat) + frame(
                        label@,
                        value_bytes::<C, N>(matrix.entry(row as int, col as int)),
                    ));
                }
                col = col + 1;
            }
            proof {
                vstd::arithmetic::mul::lemma_mul_is_distributive_add_other_way(cols as int, row as int, 1);
            }
            row = row + 1;
        }
    }

    /// Absorbs the uncompressed encoding of a point of G1.
    pub fn append_point(&mut self, label: &[u8], p: &G1)
        ensures
            final(self).absorbed() == old(self).absorbed() + frame(label@, p@),
    {
        let bytes = p.to_uncompressed();
        self.append_bytes(label, &bytes);
    }

    /// Absorbs a list of field elements: its length, then each element.
    pub fn append_field_list<C: FpConfig<N>, const N: usize>(
        &mut self,
        label: &[u8],
        xs: &[Fp<C, N>],
    )
        requires
            all_wf(xs@),
        ensures
            final(self).absorbed() == old(self).absorbed() + frame(
                label@,
                value_list_bytes::<C, N>(values_of(xs@)),
            ),
    {
        let mut bytes: Vec<u8> = Vec::new();
        let count = u64_le_bytes(xs.len() as u64);
        push_all(&mut bytes, &count);
        let mut i: usize = 0;
        proof {
            assert(values_of(xs@.take(0)) =~= Seq::<int>::empty());
            assert(bytes@ =~= le_bytes(xs.len() as nat, 8) + value_list_body::<C, N>(
                values_of(xs@.take(0)),
            ));
        }
        while i < xs.len()
            invariant
                i <= xs.len(),
                all_wf(xs@),
                bytes@ == le_bytes(xs.len() as nat, 8) + value_list_body::<C, N>(
                    values_of(xs@.take(i as int)),
                ),
            decreases xs.len() - i,
        {
            let enc = xs[i].serialize_uncompressed();
            push_all(&mut bytes, enc.as_slice());
            proof {
                assert(values_of(xs@.take(i + 1)).drop_last() =~= values_of(xs@.take(i as int)));
                assert(bytes@ =~= le_bytes(xs.len() as nat, 8) + value_list_body::<C, N>(
                    values_of(xs@.take(i + 1)),
                ));
            }
            i = i + 1;
        }
        proof {
            assert(xs@.take(xs.len() as int) =~= xs@);
            assert(values_of(xs@).len() == xs.len());
        }
        self.append_bytes(label, bytes.as_slice());
    }

    /// Challenge block `counter`: the digest of the transcript followed by the
    /// kind, the label and the counter.
    fn challenge_block(&self, kind: &[u8], label: &[u8], counter: u64) -> (r: [u8; 32])
        ensures
            r@ == sha256_spec(self.absorbed() + block_suffix(kind@, label@, counter as nat)),
    {
        let mut data: Vec<u8> = Vec::new();
        push_all(&mut data, self.state.as_slice());
        let kind_len = u64_le_bytes(kind.len() as u64);
        let label_len = u64_le_bytes(label.len() as u64);
        let count = u64_le_bytes(counter);
        push_all(&mut data, &kind_len);
        push_all(&mut data, kind);
        push_all(&mut data, &label_len);
        push_all(&mut data, label);
        push_all(&mut data, &count);
        proof {
            assert(data@ =~= self.state@ + block_suffix(kind@, label@, counter as nat));
        }
        sha256(data.as_slice())
    }

    /// Draws a field challenge under `label` and absorbs it.
    pub fn challenge_field<C: FpConfig<N>, const N: usize>(&mut self, label: &[u8]) -> (r: Fp<
        C,
        N,
    >)
        ensures
            r.wf(),
            fv(r) == challenge_value::<C, N>(old(self).absorbed(), label@),
            final(self).absorbed() == after_challenge::<C, N>(old(self).absorbed(), label@),
    {
        proof {
            C::lemma_config_ok();
        }
        let byte_len = Fp::<C, N>::serialized_size() + 16;
        let kind: [u8; 15] = [
            99u8, 104u8, 97u8, 108u8, 108u8, 101u8, 110u8, 103u8, 101u8, 45u8, 102u8, 105u8,
            101u8, 108u8, 100u8,
        ];
        proof {
            assert(kind@ =~= field_challenge_kind());
        }
        let ghost state = self.state@;
        let mut bytes: Vec<u8> = Vec::new();
        let mut counter: u64 = 0;
        while bytes.len() < byte_len
            invariant
                byte_len == challenge_len::<C, N>(),
                byte_len <= 0x100_0000,
                self.state@ == state,
                kind@ == field_challenge_kind(),
                bytes@ == block_stream(state, kind@, label@, counter as nat),
                bytes@.len() == 32 * counter,
                counter <= (byte_len + 31) / 32,
                counter > 0 ==> 32 * (counter - 1) < byte_len,
            decreases (byte_len + 31) / 32 - counter,
        {
            let block = self.challenge_block(&kind, label, counter);
            push_all(&mut bytes, &block);
            counter = counter + 1;
        }
        proof {
            assert(counter == (byte_len + 31) / 32);
        }
        bytes.truncate(byte_len);
        let challenge = Fp::<C, N>::from_be_bytes_mod_order(bytes.as_slice());
        self.append_field(label, &challenge);
        challenge
    }
}

} // verus!
