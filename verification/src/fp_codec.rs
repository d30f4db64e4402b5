//! Canonical byte encodings of field elements.

use crate::bits::limb_bit_len;
use crate::bytes::{be_value, le_byte, le_bytes, lemma_limb_byte};
use crate::ff::{Fp, FpConfig};
use crate::helpers::{fv, lemma_add_cong, lemma_mul_cong, lemma_pm_pos, pm};
use crate::limbs::{limbs_value, nat_of};
use vstd::arithmetic::div_mod::*;
use vstd::arithmetic::power2::*;
use vstd::prelude::*;

verus! {

/// `ceil(bits / 8)`: the bytes needed for `bits` bits.
pub open spec fn byte_size(bits: nat) -> nat {
    (bits + 7) / 8
}

impl<C: FpConfig<N>, const N: usize> Fp<C, N> {
    /// The number of bits of the modulus.
    pub open spec fn spec_modulus_bits() -> nat {
        choose|b: nat| b > 0 && pow2((b - 1) as nat) <= Self::modulus_value() < #[trigger] pow2(b)
    }

    /// The bit length of the modulus.
    pub fn modulus_bit_size() -> (r: usize)
        ensures
            r > 1,
            r <= 64 * N,
            r == Self::spec_modulus_bits(),
            pow2((r - 1) as nat) <= Self::modulus_value() < pow2(r as nat),
    {
        let m = C::modulus();
        proof {
            C::lemma_config_ok();
        }
        let r = limb_bit_len(&m);
        proof {
            lemma2_to64();
            if r <= 1 {
                lemma_pow2_unfold(1);
                assert(limbs_value(m@) < pow2(nat_of(r)));
                if r == 0 {
                    assert(pow2(0) == 1);
                }
            }
            lemma_bits_unique(Self::modulus_value(), r as nat, Self::spec_modulus_bits());
        }
        r
    }

    /// The length of the canonical encoding: `ceil(bits(p) / 8)` bytes.
    pub fn serialized_size() -> (r: usize)
        ensures
            r == byte_size(Self::spec_modulus_bits()),
            r <= 8 * N,
    {
        let bits = Self::modulus_bit_size();
        proof {
            C::lemma_config_ok();
        }
        (bits + 7) / 8
    }

    /// The canonical encoding: the value in `serialized_size()` bytes, least
    /// significant first.
    pub fn serialize_uncompressed(&self) -> (r: Vec<u8>)
        requires
            self.wf(),
        ensures
            r@ == le_bytes(self.value(), byte_size(Self::spec_modulus_bits())),
    {
        let size = Self::serialized_size();
        let limbs = self.to_limbs();
        proof {
            C::lemma_config_ok();
        }
        let mut out: Vec<u8> = Vec::new();
        let mut pos: usize = 0;
        while pos < size
            invariant
                size == byte_size(Self::spec_modulus_bits()),
                size <= 8 * N,
                N <= 0x10_0000,
                limbs_value(limbs@) == self.value(),
                pos <= size,
                out@ == le_bytes(self.value(), pos as nat),
            decreases size - pos,
        {
            let byte = if pos < N * 8 {
                let limb = limbs[pos / 8];
                let shift = ((pos % 8) * 8) as u64;
                proof {
                    lemma_limb_byte(limbs@, pos as nat);
                    vstd::bits::lemma_u64_shr_is_div(limb, shift);
                    let y = limb >> shift;
                    assert(y as u8 == y % 256) by (bit_vector);
                    assert(8 * ((pos as nat) % 8) == shift);
                }
                (#[verifier::truncate] ((limb >> shift) as u8))
            } else {
                0u8
            };
            proof {
                assert(byte == le_byte(self.value(), pos as nat));
            }
            out.push(byte);
            pos = pos + 1;
            proof {
                assert(out@ =~= le_bytes(self.value(), pos as nat));
            }
        }
        out
    }

    /// The big-endian integer of `bytes`, reduced modulo `p`.
    pub fn from_be_bytes_mod_order(bytes: &[u8]) -> (r: Self)
        ensures
            r.wf(),
            fv(r) == (be_value(bytes@) as int) % pm::<C, N>(),
    {
        let window = Self::from_u64(256);
        let mut acc = Self::zero();
        let mut i: usize = 0;
        proof {
            lemma_pm_pos::<C, N>();
            lemma_small_mod(0, Self::modulus_value());
            assert(bytes@.take(0).len() == 0);
        }
        while i < bytes.len()
            invariant
                i <= bytes.len(),
                pm::<C, N>() > 2,
                window.wf(),
                fv(window) == 256int % pm::<C, N>(),
                acc.wf(),
                fv(acc) == (be_value(bytes@.take(i as int)) as int) % pm::<C, N>(),
            decreases bytes.len() - i,
        {
            let b = Self::from_u64(bytes[i] as u64);
            let ghost before = fv(acc);
            acc = acc.mul(window).add(b);
            proof {
                let p = pm::<C, N>();
                let prev = be_value(bytes@.take(i as int)) as int;
                assert(bytes@.take(i + 1).drop_last() =~= bytes@.take(i as int));
                lemma_mod_twice(prev as int, p);
                lemma_mod_twice(256, p);
                lemma_mul_cong(before, fv(window), prev as int, 256, p);
                lemma_mod_twice(before * fv(window), p);
                lemma_mod_twice(prev * 256, p);
                lemma_mod_twice(bytes[i as int] as int, p);
                lemma_add_cong(
                    (before * fv(window)) % p,
                    fv(b),
                    prev * 256,
                    bytes[i as int] as int,
                    p,
                );
            }
            i = i + 1;
        }
        proof {
            assert(bytes@.take(bytes.len() as int) =~= bytes@);
        }
        acc
    }
}

/// The bit length of a positive number is unique.
proof fn lemma_bits_unique(v: nat, a: nat, b: nat)
    requires
        a > 0,
        pow2((a - 1) as nat) <= v < pow2(a),
    ensures
        (b > 0 && pow2((b - 1) as nat) <= v < pow2(b)) ==> a == b,
        exists|c: nat| c > 0 && pow2((c - 1) as nat) <= v < #[trigger] pow2(c),
{
    if b > 0 && pow2((b - 1) as nat) <= v < pow2(b) {
        if a < b {
            if a < b - 1 {
                lemma_pow2_strictly_increases(a, (b - 1) as nat);
            }
        } else if b < a {
            if b < a - 1 {
                lemma_pow2_strictly_increases(b, (a - 1) as nat);
            }
        }
    }
    assert(a > 0 && pow2((a - 1) as nat) <= v < pow2(a));
}

} // verus!
