//! Little- and big-endian byte encodings of integers.

use crate::limbs::{base_pow, limbs_value};
use vstd::arithmetic::div_mod::*;
use vstd::arithmetic::mul::*;
use vstd::arithmetic::power2::*;
use vstd::prelude::*;

verus! {

/// Byte `pos` of `v` in little-endian order.
pub open spec fn le_byte(v: nat, pos: nat) -> u8 {
    ((v / pow2(8 * pos)) % 256) as u8
}

/// The `n` low bytes of `v`, least significant first.
pub open spec fn le_bytes(v: nat, n: nat) -> Seq<u8> {
    Seq::new(n, |i: int| le_byte(v, i as nat))
}

/// The integer that a big-endian byte string denotes.
pub open spec fn be_value(b: Seq<u8>) -> nat
    decreases b.len(),
{
    if b.len() == 0 {
        0
    } else {
        be_value(b.drop_last()) * 256 + b.last() as nat
    }
}

proof fn lemma_shift_byte(x: u64, k: u64)
    requires
        k < 8,
    ensures
        ((x >> (8 * k)) as u8) as nat == (x as nat / pow2(8 * k as nat)) % 256,
{
    vstd::bits::lemma_u64_shr_is_div(x, (8 * k) as u64);
    let y = x >> (8 * k);
    assert(y as u8 == y % 256) by (bit_vector);
}

/// The little-endian bytes of a `u64`.
pub fn u64_le_bytes(x: u64) -> (r: [u8; 8])
    ensures
        r@ == le_bytes(x as nat, 8),
{
    let mut out = [0u8; 8];
    let mut k: usize = 0;
    while k < 8
        invariant
            k <= 8,
            forall|j: int| 0 <= j < k ==> #[trigger] out@[j] == le_byte(x as nat, j as nat),
        decreases 8 - k,
    {
        proof {
            lemma_shift_byte(x, k as u64);
        }
        out[k] = (x >> (8 * k as u64)) as u8;
        k = k + 1;
    }
    proof {
        assert(out@ =~= le_bytes(x as nat, 8));
    }
    out
}

/// The little-endian bytes of a `usize`, one per eight bits of the platform word.
pub fn usize_le_bytes(x: usize) -> (r: Vec<u8>)
    ensures
        r@ == le_bytes(x as nat, (usize::BITS / 8) as nat),
{
    let wide = u64_le_bytes(x as u64);
    let n = (usize::BITS / 8) as usize;
    let mut out: Vec<u8> = Vec::new();
    let mut k: usize = 0;
    while k < n
        invariant
            n == usize::BITS / 8,
            n <= 8,
            k <= n,
            wide@ == le_bytes(x as nat, 8),
            out@ == le_bytes(x as nat, k as nat),
        decreases n - k,
    {
        out.push(wide[k]);
        k = k + 1;
        proof {
            assert(out@ =~= le_bytes(x as nat, k as nat));
        }
    }
    out
}

/// A byte of a limb sequence is the byte of its value.
pub proof fn lemma_limb_byte(s: Seq<u64>, pos: nat)
    requires
        pos < 8 * s.len(),
    ensures
        le_byte(limbs_value(s), pos) as nat == (s[(pos / 8) as int] as nat / pow2(
            8 * (pos % 8),
        )) % 256,
{
    let k = (pos / 8) as int;
    let j = pos % 8;
    crate::limbs::lemma_value_split(s, k);
    crate::limbs::lemma_value_bound(s.take(k));
    let hi = s.skip(k);
    crate::limbs::lemma_value_first(hi);
    let lo_v = limbs_value(s.take(k));
    let hi_v = limbs_value(hi);
    let v = limbs_value(s);
    let bk = base_pow(k as nat);
    crate::limbs::lemma_base_pow_positive(k as nat);
    // v / B^k == hi_v
    assert(v as int / (bk as int) == hi_v as int) by {
        lemma_fundamental_div_mod_converse(v as int, bk as int, hi_v as int, lo_v as int);
        lemma_mul_is_commutative(bk as int, hi_v as int);
    }
    crate::modular::lemma_base_pow_is_pow2(k as nat);
    vstd::arithmetic::power2::lemma_pow2(64 * (k as nat));
    lemma_pow2_adds(64 * (k as nat), 8 * j);
    assert(8 * pos == 64 * (k as nat) + 8 * j) by {
        lemma_fundamental_div_mod(pos as int, 8);
    }
    lemma_pow2_pos(64 * (k as nat));
    lemma_pow2_pos(8 * j);
    lemma_div_denominator(v as int, pow2(64 * (k as nat)) as int, pow2(8 * j) as int);
    // hi_v == s[k] + B * rest
    let rest = limbs_value(hi.drop_first());
    assert(hi_v == s[k] as nat + crate::limbs::limb_base() * rest);
    lemma_pow2_adds(8 * j, (64 - 8 * j) as nat);
    lemma_pow2_adds(8, (56 - 8 * j) as nat);
    lemma2_to64();
    lemma2_to64_rest();
    assert(crate::limbs::limb_base() == pow2(64));
    let q = pow2(8 * j) as int;
    let m = pow2((64 - 8 * j) as nat) as int;
    assert(pow2(64) as int == q * m);
    assert(hi_v as int == s[k] as int + q * (m * rest)) by {
        lemma_mul_is_associative(q, m, rest as int);
    }
    lemma_div_plus_multiple(s[k] as int, m * rest, q);
    let m2 = pow2((56 - 8 * j) as nat) as int;
    assert(m == 256 * m2);
    assert(m * rest == 256 * (m2 * rest)) by {
        lemma_mul_is_associative(256, m2, rest as int);
    }
    lemma_mod_plus_multiple(s[k] as int / q, m2 * rest, 256);
}

/// `(x + q * y) / q == x / q + y` for nonnegative `x`, `y` and positive `q`.
proof fn lemma_div_plus_multiple(x: int, y: int, q: int)
    requires
        x >= 0,
        y >= 0,
        q > 0,
    ensures
        (x + q * y) / q == x / q + y,
{
    lemma_fundamental_div_mod(x, q);
    lemma_mod_pos_bound(x, q);
    let a = x / q;
    assert((a + y) * q == q * a + q * y) by (nonlinear_arith);
    lemma_fundamental_div_mod_converse(x + q * y, q, a + y, x % q);
}

/// `(x + 256 * y) % 256 == x % 256`.
proof fn lemma_mod_plus_multiple(x: int, y: int, d: int)
    requires
        d > 0,
    ensures
        (x + d * y) % d == x % d,
{
    lemma_mod_multiples_vanish(y, x, d);
    lemma_mul_is_commutative(d, y);
}

} // verus!
