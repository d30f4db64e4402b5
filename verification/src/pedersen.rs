//! Pedersen commitments over G1: `Com(v; r) = v G + r H` for a scalar, and
//! `Com(v; r) = sum_i v_i G_i + r H` for a vector.

use crate::curve::{
    g1_add_spec, g1_hash_spec, g1_msm_spec, g1_mul_spec, point_views, scalar_values, Fr, G1,
};
use crate::helpers::all_wf;
use vstd::prelude::*;
use vstd::string::StringSliceAdditionalSpecFns;

verus! {

/// `v g + r h`.
pub open spec fn scalar_commit(g: Seq<u8>, h: Seq<u8>, v: nat, r: nat) -> Seq<u8> {
    g1_add_spec(g1_mul_spec(g, v), g1_mul_spec(h, r))
}

/// `sum_i vs[i] bases[i] + r h`, over the first `|vs|` bases.
pub open spec fn vector_commit(bases: Seq<Seq<u8>>, h: Seq<u8>, vs: Seq<nat>, r: nat) -> Seq<u8> {
    g1_add_spec(g1_msm_spec(bases.take(vs.len() as int), vs), g1_mul_spec(h, r))
}

/// The decimal digits of `n`, as ASCII bytes.
pub open spec fn decimal(n: nat) -> Seq<u8>
    decreases n,
{
    if n < 10 {
        seq![(48 + n) as u8]
    } else {
        decimal(n / 10).push((48 + n % 10) as u8)
    }
}

/// The message hashed for the `i`-th vector generator: `generator#i`.
pub open spec fn generator_message(i: nat) -> Seq<u8> {
    "generator#".spec_bytes() + decimal(i)
}

/// The decimal digits of `n`, as ASCII bytes.
pub fn decimal_bytes(n: usize) -> (r: Vec<u8>)
    ensures
        r@ == decimal(n as nat),
    decreases n,
{
    if n < 10 {
        let d = n as u8;
        vec![48u8 + d]
    } else {
        let mut r = decimal_bytes(n / 10);
        let d = (n % 10) as u8;
        r.push(48u8 + d);
        r
    }
}

/// The commitment key for single scalars: the generator `G` and the blinding
/// generator `H`.
#[derive(Clone, Copy, Debug)]
pub struct ScalarPedersen {
    pub generator: G1,
    pub blind: G1,
}

impl ScalarPedersen {
    pub fn new(generator: G1, blind: G1) -> (r: Self)
        ensures
            r.generator == generator,
            r.blind == blind,
    {
        Self { generator, blind }
    }

    /// Hashes `generator` and `blind` to G1 under `domain`.
    pub fn setup(domain: &[u8]) -> (r: Result<Self, ark_ec::hashing::HashToCurveError>)
        ensures
            r is Ok,
            r matches Ok(key) ==> key.generator@ == g1_hash_spec(domain@, "generator".spec_bytes())
                && key.blind@ == g1_hash_spec(domain@, "blind".spec_bytes()),
    {
        let generator = G1::hash_to_curve(domain, "generator".as_bytes())?;
        let blind = G1::hash_to_curve(domain, "blind".as_bytes())?;
        Ok(Self::new(generator, blind))
    }

    /// `Com(value; r) = value G + r H`.
    pub fn commit(&self, value: &Fr, r: &Fr) -> (c: G1)
        requires
            value.wf(),
            r.wf(),
        ensures
            c@ == scalar_commit(self.generator@, self.blind@, value.value(), r.value()),
    {
        let a = self.generator.mul_scalar(value);
        let b = self.blind.mul_scalar(r);
        a.add_point(&b)
    }
}

/// The commitment key for vectors: generators `G_i`, the same points as
/// bases for multi-scalar multiplication, and the blinding generator `H`.
#[derive(Clone, Debug)]
pub struct VectorPedersen {
    pub generators: Vec<G1>,
    pub mul_bases: Vec<G1>,
    pub blind: G1,
}

impl VectorPedersen {
    pub fn new(generators: Vec<G1>, mul_bases: Vec<G1>, blind: G1) -> (r: Self)
        ensures
            r.generators@ == generators@,
            r.mul_bases@ == mul_bases@,
            r.blind == blind,
    {
        Self { generators, mul_bases, blind }
    }

    /// Hashes `generator#0`, ..., `generator#(n-1)` and `blind` to G1 under
    /// `domain`. The bases for multi-scalar multiplication are the generators
    /// in affine form, which is the form every point here is held in.
    pub fn setup(domain: &[u8], num_generators: usize) -> (r: Result<
        Self,
        ark_ec::hashing::HashToCurveError,
    >)
        ensures
            r is Ok,
            r matches Ok(key) ==> {
                &&& key.generators.len() == num_generators
                &&& forall|i: int|
                    0 <= i < num_generators ==> (#[trigger] key.generators@[i])@ == g1_hash_spec(
                        domain@,
                        generator_message(i as nat),
                    )
                &&& key.mul_bases@ == key.generators@
                &&& key.blind@ == g1_hash_spec(domain@, "blind".spec_bytes())
            },
    {
        let prefix = "generator#".as_bytes();
        let mut generators: Vec<G1> = Vec::new();
        let mut i: usize = 0;
        while i < num_generators
            invariant
                i <= num_generators,
                prefix@ == "generator#".spec_bytes(),
                generators.len() == i,
                forall|j: int|
                    0 <= j < i ==> (#[trigger] generators@[j])@ == g1_hash_spec(
                        domain@,
                        generator_message(j as nat),
                    ),
            decreases num_generators - i,
        {
            let mut msg = vstd::slice::slice_to_vec(prefix);
            let mut digits = decimal_bytes(i);
            msg.append(&mut digits);
            let g = G1::hash_to_curve(domain, msg.as_slice())?;
            generators.push(g);
            i = i + 1;
        }
        let mul_bases = generators.clone();
        proof {
            assert(mul_bases@ =~= generators@);
        }
        let blind = G1::hash_to_curve(domain, "blind".as_bytes())?;
        Ok(Self::new(generators, mul_bases, blind))
    }

    pub fn len(&self) -> (r: usize)
        ensures
            r == self.generators.len(),
    {
        self.generators.len()
    }

    pub fn is_empty(&self) -> (r: bool)
        ensures
            r == (self.generators.len() == 0),
    {
        self.generators.len() == 0
    }

    /// `Com(values; r) = sum_i values[i] G_i + r H`. Not defined when
    /// there are more values than generators.
    pub fn commit(&self, values: &[Fr], r: &Fr) -> (c: G1)
        requires
            values.len() <= self.generators.len(),
            values.len() <= self.mul_bases.len(),
            all_wf(values@),
            r.wf(),
        ensures
            c@ == vector_commit(point_views(self.mul_bases@), self.blind@, scalar_values(values@), r.value()),
    {
        let n = values.len();
        let bases = vstd::slice::slice_subrange(self.mul_bases.as_slice(), 0, n);
        let msm = G1::msm(bases, values);
        let blinded = self.blind.mul_scalar(r);
        proof {
            assert(point_views(bases@) =~= point_views(self.mul_bases@).take(
                scalar_values(values@).len() as int,
            ));
        }
        msm.add_point(&blinded)
    }
}

} // verus!
