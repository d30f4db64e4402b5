//! Bit-level helpers on limb arrays: reading a bit, and the square-and-multiply
//! style reductions that walk over bits.

use crate::limbs::{
    base_pow, idx, lemma_value_bound, lemma_value_first, lemma_value_split, limb_base,
    limbs_value, nat_of,
};
use std::cmp::Ordering;
use crate::limbs::{cmp_limbs, lemma_times_bool, sub_raw};
use crate::modular::{const_add_mod, const_double_mod, lemma_base_pow_is_pow2, one_limbs};
use vstd::arithmetic::div_mod::*;
use vstd::arithmetic::mul::*;
use vstd::arithmetic::power::*;
use vstd::arithmetic::power2::*;
use vstd::bits::*;
use vstd::std_specs::bits::{axiom_u64_leading_zeros, u64_leading_zeros};
use vstd::prelude::*;

verus! {

/// Bit `i` of the natural number `v`.
pub open spec fn bit_of(v: nat, i: nat) -> bool {
    (v / pow2(i)) % 2 == 1
}

proof fn lemma_bit_of_limb(v: int, low: int, x: int, high: int, p: int, q: int, t: int)
    requires
        0 <= low < p,
        0 <= x,
        0 <= high,
        q >= 1,
        t >= 2,
        t % 2 == 0,
        q * t == limb_base(),
        v == low + p * (x + limb_base() * high),
    ensures
        (v / (p * q)) % 2 == (x / q) % 2,
{
    let y = x + limb_base() * high;
    lemma_mul_is_commutative(p, y);
    lemma_fundamental_div_mod_converse_div(v, p, y, low);
    lemma_div_denominator(v, p, q);
    // y = q * (x / q + t * high) + x % q
    lemma_fundamental_div_mod(x, q);
    lemma_mod_bound(x, q);
    assert(y == q * (x / q + t * high) + x % q) by (nonlinear_arith)
        requires
            y == x + limb_base() * high,
            x == q * (x / q) + x % q,
            q * t == limb_base(),
    ;
    lemma_fundamental_div_mod_converse_div(y, q, x / q + t * high, x % q);
    assert(t * high == 2 * ((t / 2) * high)) by (nonlinear_arith)
        requires
            t % 2 == 0,
            t >= 0,
    ;
    lemma_mod_multiples_vanish((t / 2) * high, x / q, 2);
    lemma_mul_is_commutative(2, (t / 2) * high);
}

/// Bit `bit` of the value of `a` (bits past the top limb read as zero).
pub fn const_get_bit<const N: usize>(a: [u64; N], bit: usize) -> (r: bool)
    requires
        N <= 0x10_0000,
    ensures
        r == bit_of(limbs_value(a@), nat_of(bit)),
{
    let limb = bit / 64;
    if limb >= N {
        proof {
            lemma_value_bound(a@);
            lemma_base_pow_is_pow2(nat_of(N));
            lemma_pow2_strictly_increases_or_eq(64 * nat_of(N), nat_of(bit));
            lemma_basic_div(limbs_value(a@) as int, pow2(nat_of(bit)) as int);
        }
        false
    } else {
        let s: u64 = (bit % 64) as u64;
        let x = a[limb];
        let r = (x & (1u64 << s)) != 0;
        proof {
            assert(((x & (1u64 << s)) != 0) == ((x >> s) % 2 == 1)) by (bit_vector)
                requires
                    s < 64,
            ;
            lemma_u64_shr_is_div(x, s);
            let v = limbs_value(a@) as int;
            let l = idx(limb);
            lemma_value_split(a@, l);
            lemma_value_first(a@.skip(l));
            lemma_value_bound(a@.take(l));
            lemma_pow2_adds(64 * nat_of(limb), s as nat);
            lemma_base_pow_is_pow2(nat_of(limb));
            lemma_pow2_adds(s as nat, (64 - s) as nat);
            lemma2_to64_rest();
            lemma_pow2_pos(s as nat);
            lemma_pow2_pos((64 - s) as nat);
            lemma_pow2_unfold((64 - s) as nat);
            lemma_mod_multiples_basic(pow2((63 - s) as nat) as int, 2);
            lemma_mul_is_commutative(2, pow2((63 - s) as nat) as int);
            assert(64 * nat_of(limb) + s == nat_of(bit));
            assert(a@.skip(l)[0] == x);
            lemma_bit_of_limb(
                v,
                limbs_value(a@.take(l)) as int,
                x as int,
                limbs_value(a@.skip(l).drop_first()) as int,
                base_pow(nat_of(limb)) as int,
                pow2(s as nat) as int,
                pow2((64 - s) as nat) as int,
            );
        }
        r
    }
}

proof fn lemma_pow2_strictly_increases_or_eq(a: nat, b: nat)
    requires
        a <= b,
    ensures
        pow2(a) <= pow2(b),
{
    if a < b {
        lemma_pow2_strictly_increases(a, b);
    }
}


/// `v / 2^i` in terms of `v / 2^(i + 1)` and bit `i`.
pub proof fn lemma_div_pow2_step(v: nat, i: nat)
    ensures
        pow2(i) > 0,
        pow2(i + 1) > 0,
        v / pow2(i) == 2 * (v / pow2(i + 1)) + (v / pow2(i)) % 2,
        (v / pow2(i)) % 2 == if bit_of(v, i) {
            1int
        } else {
            0int
        },
        v / pow2(i) == 2 * (v / pow2(i + 1)) + if bit_of(v, i) {
            1int
        } else {
            0int
        },
{
    lemma_pow2_pos(i);
    lemma_pow2_pos(i + 1);
    lemma_pow2_unfold(i + 1);
    lemma_mul_is_commutative(2, pow2(i) as int);
    lemma_div_denominator(v as int, pow2(i) as int, 2);
    lemma_fundamental_div_mod((v / pow2(i)) as int, 2);
    lemma_mod_bound((v / pow2(i)) as int, 2);
}

proof fn lemma_reduce_bit_step(q: int, w: int, bit: int, m: int, r: int, d: int, r2: int)
    requires
        m > 1,
        q >= 0,
        w == 2 * q + bit,
        bit == 0 || bit == 1,
        r == q % m,
        d == (2 * r) % m,
        r2 == if bit == 1 {
            (d + 1) % m
        } else {
            d
        },
    ensures
        r2 == w % m,
{
    lemma_mul_mod_noop_right(2, q, m);
    if bit == 1 {
        lemma_add_mod_noop(2 * q, 1, m);
        lemma_small_mod(1, m as nat);
        lemma_mod_twice(2 * q, m);
    }
}

/// `x mod m`, computed one bit at a time from the top.
pub fn const_reduce<const N: usize>(x: [u64; N], modulus: [u64; N]) -> (r: [u64; N])
    requires
        1 <= N <= 0x10_0000,
        limbs_value(modulus@) > 1,
    ensures
        limbs_value(r@) == limbs_value(x@) % limbs_value(modulus@),
{
    let ghost v = limbs_value(x@);
    let ghost m = limbs_value(modulus@);
    let mut result = [0u64; N];
    let one = one_limbs::<N>();
    let mut i: usize = N * 64;
    proof {
        crate::mont::lemma_value_all_zero(result@);
        lemma_value_bound(x@);
        lemma_base_pow_is_pow2(nat_of(N));
        lemma_basic_div(v as int, pow2(nat_of(i)) as int);
        lemma_small_mod(0, m);
    }
    while i > 0
        invariant
            1 <= N <= 0x10_0000,
            i <= N * 64,
            v == limbs_value(x@),
            m == limbs_value(modulus@),
            m > 1,
            limbs_value(one@) == 1,
            limbs_value(result@) == (v / pow2(nat_of(i))) % m,
        decreases i,
    {
        i = i - 1;
        proof {
            lemma_mod_bound((v / pow2(nat_of(i) + 1)) as int, m as int);
        }
        let ghost r0 = limbs_value(result@);
        result = const_double_mod(result, modulus);
        let ghost d = limbs_value(result@);
        let b = const_get_bit(x, i);
        if b {
            proof {
                lemma_mod_bound((2 * r0) as int, m as int);
            }
            result = const_add_mod(result, one, modulus);
        }
        proof {
            lemma_div_pow2_step(v, nat_of(i));
            lemma_reduce_bit_step(
                (v / pow2(nat_of(i) + 1)) as int,
                (v / pow2(nat_of(i))) as int,
                if b {
                    1int
                } else {
                    0int
                },
                m as int,
                r0 as int,
                d as int,
                limbs_value(result@) as int,
            );
        }
    }
    proof {
        assert(pow2(0) == 1) by {
            lemma2_to64();
        }
        assert(nat_of(i) == 0);
        assert(v / 1 == v);
    }
    result
}

proof fn lemma_mul_bit_step(va: nat, vb: nat, i: nat, m: nat, r: nat, base: nat, r2: nat, base2: nat, b: bool)
    requires
        m > 1,
        r == (va * (vb % pow2(i))) % m,
        base == (va * pow2(i)) % m,
        b == bit_of(vb, i),
        r2 == if b {
            (r + base) % m
        } else {
            r
        },
        base2 == (2 * base) % m,
    ensures
        r2 == (va * (vb % pow2(i + 1))) % m,
        base2 == (va * pow2(i + 1)) % m,
{
    let m = m as int;
    lemma_pow2_pos(i);
    lemma_pow2_unfold(i + 1);
    lemma_mul_is_commutative(2, pow2(i) as int);
    lemma_mod_breakdown(vb as int, pow2(i) as int, 2);
    assert(pow2(i) * 2 == pow2(i + 1));
    assert(vb % pow2(i + 1) == pow2(i) * ((vb / pow2(i)) % 2) + vb % pow2(i));
    lemma_div_pow2_step(vb, i);
    // base2
    lemma_mul_mod_noop_right(2, (va * pow2(i)) as int, m);
    assert(2 * (va * pow2(i)) == va * pow2(i + 1)) by (nonlinear_arith)
        requires
            pow2(i + 1) == 2 * pow2(i),
    ;
    // r2
    let lo = (vb % pow2(i)) as int;
    if b {
        lemma_mul_basics(pow2(i) as int);
        assert(vb % pow2(i + 1) == lo + pow2(i));
        lemma_add_mod_noop(va * lo, (va * pow2(i)) as int, m);
        lemma_mul_is_distributive_add(va as int, lo, pow2(i) as int);
    } else {
        lemma_mul_basics(pow2(i) as int);
        assert(vb % pow2(i + 1) == lo);
    }
}

/// `(a * b) mod m` by double-and-add over the bits of `b`.
pub fn const_mul_mod<const N: usize>(a: [u64; N], b: [u64; N], modulus: [u64; N]) -> (r: [u64; N])
    requires
        1 <= N <= 0x10_0000,
        limbs_value(modulus@) > 1,
    ensures
        limbs_value(r@) == (limbs_value(a@) * limbs_value(b@)) % limbs_value(modulus@),
{
    let ghost va = limbs_value(a@);
    let ghost vb = limbs_value(b@);
    let ghost m = limbs_value(modulus@);
    let mut result = [0u64; N];
    let mut base = const_reduce(a, modulus);
    let mut i: usize = 0;
    proof {
        crate::mont::lemma_value_all_zero(result@);
        lemma2_to64();
        lemma_mul_basics(va as int);
        lemma_small_mod(0, m);
    }
    while i < N * 64
        invariant
            1 <= N <= 0x10_0000,
            i <= N * 64,
            va == limbs_value(a@),
            vb == limbs_value(b@),
            m == limbs_value(modulus@),
            m > 1,
            limbs_value(result@) == (va * (vb % pow2(nat_of(i)))) % m,
            limbs_value(base@) == (va * pow2(nat_of(i))) % m,
        decreases N * 64 - i,
    {
        let ghost r0 = limbs_value(result@);
        let ghost b0 = limbs_value(base@);
        proof {
            lemma_mod_bound((va * (vb % pow2(nat_of(i)))) as int, m as int);
            lemma_mod_bound((va * pow2(nat_of(i))) as int, m as int);
        }
        let bit = const_get_bit(b, i);
        if bit {
            result = const_add_mod(result, base, modulus);
        }
        base = const_double_mod(base, modulus);
        proof {
            lemma_mul_bit_step(va, vb, nat_of(i), m, r0, b0, limbs_value(result@), limbs_value(base@), bit);
        }
        i = i + 1;
    }
    proof {
        lemma_value_bound(b@);
        lemma_base_pow_is_pow2(nat_of(N));
        lemma_small_mod(vb, pow2(nat_of(i)));
    }
    result
}

/// `2^(64 N) * v mod m`: the Montgomery form of `v`.
pub fn to_montgomery<const N: usize>(value: [u64; N], modulus: [u64; N]) -> (r: [u64; N])
    requires
        1 <= N <= 0x10_0000,
        limbs_value(modulus@) > 1,
    ensures
        limbs_value(r@) == (limbs_value(value@) * base_pow(nat_of(N))) % limbs_value(modulus@),
{
    let r = crate::modular::mont_r(modulus);
    let out = const_mul_mod(value, r, modulus);
    proof {
        lemma_mul_mod_noop_right(
            limbs_value(value@) as int,
            base_pow(nat_of(N)) as int,
            limbs_value(modulus@) as int,
        );
    }
    out
}


/// The low `i + 1` bits of `v` are its low `i` bits plus bit `i`.
pub proof fn lemma_mod_pow2_step(v: nat, i: nat)
    ensures
        pow2(i) > 0,
        v % pow2(i + 1) == v % pow2(i) + if bit_of(v, i) {
            pow2(i)
        } else {
            0
        },
{
    lemma_pow2_pos(i);
    lemma_pow2_unfold(i + 1);
    lemma_mod_breakdown(v as int, pow2(i) as int, 2);
    assert(pow2(i) * 2 == pow2(i + 1));
    lemma_div_pow2_step(v, i);
    lemma_mul_basics(pow2(i) as int);
}

proof fn lemma_pow_bit_step(b: int, lo: nat, pw: nat, m: int, r: int, p: int, r2: int, p2: int, bit: bool)
    requires
        m > 1,
        b >= 0,
        r == pow(b, lo) % m,
        p == pow(b, pw) % m,
        r2 == if bit {
            (r * p) % m
        } else {
            r
        },
        p2 == (p * p) % m,
    ensures
        r2 == pow(b, if bit {
            lo + pw
        } else {
            lo
        }) % m,
        p2 == pow(b, pw + pw) % m,
{
    lemma_mul_mod_noop(pow(b, pw), pow(b, pw), m);
    lemma_pow_adds(b, pw, pw);
    if bit {
        lemma_mul_mod_noop(pow(b, lo), pow(b, pw), m);
        lemma_pow_adds(b, lo, pw);
    }
}

/// `base^exp mod m` by square-and-multiply over the bits of `exp`.
pub fn const_pow_mod<const N: usize>(base: [u64; N], exp: [u64; N], modulus: [u64; N]) -> (r: [u64; N])
    requires
        1 <= N <= 0x10_0000,
        limbs_value(modulus@) > 1,
    ensures
        limbs_value(r@) == pow(limbs_value(base@) as int, limbs_value(exp@)) % (limbs_value(
            modulus@,
        ) as int),
{
    let ghost vb = limbs_value(base@) as int;
    let ghost ve = limbs_value(exp@);
    let ghost m = limbs_value(modulus@) as int;
    let mut result = one_limbs::<N>();
    let mut power = const_reduce(base, modulus);
    let mut i: usize = 0;
    proof {
        lemma2_to64();
        reveal(pow);
        lemma_small_mod(1, m as nat);
        lemma_small_mod(0, pow2(0));
        assert(ve % pow2(0) == 0);
        assert(pow(vb, 1) == vb * pow(vb, 0));
        lemma_mul_basics(vb);
    }
    while i < N * 64
        invariant
            1 <= N <= 0x10_0000,
            i <= N * 64,
            vb == limbs_value(base@),
            ve == limbs_value(exp@),
            m == limbs_value(modulus@),
            m > 1,
            limbs_value(result@) == pow(vb, ve % pow2(nat_of(i))) % m,
            limbs_value(power@) == pow(vb, pow2(nat_of(i))) % m,
        decreases N * 64 - i,
    {
        let ghost r0 = limbs_value(result@) as int;
        let ghost p0 = limbs_value(power@) as int;
        let bit = const_get_bit(exp, i);
        if bit {
            result = const_mul_mod(result, power, modulus);
        }
        power = const_mul_mod(power, power, modulus);
        proof {
            lemma_mod_pow2_step(ve, nat_of(i));
            lemma_pow2_unfold(nat_of(i) + 1);
            lemma_pow_bit_step(
                vb,
                ve % pow2(nat_of(i)),
                pow2(nat_of(i)),
                m,
                r0,
                p0,
                limbs_value(result@) as int,
                limbs_value(power@) as int,
                bit,
            );
        }
        i = i + 1;
    }
    proof {
        lemma_value_bound(exp@);
        lemma_base_pow_is_pow2(nat_of(N));
        lemma_small_mod(ve, pow2(nat_of(i)));
    }
    result
}


/// A non-zero `u64` with `lz` leading zeros lies in `[2^(63 - lz), 2^(64 - lz))`.
proof fn lemma_u64_bit_len(x: u64)
    requires
        x != 0,
    ensures
        0 <= u64_leading_zeros(x) < 64,
        pow2((63 - u64_leading_zeros(x)) as nat) <= x,
        x < pow2((64 - u64_leading_zeros(x)) as nat),
{
    axiom_u64_leading_zeros(x);
    let lz = u64_leading_zeros(x);
    let s = (63 - lz) as u64;
    let y = x >> s;
    assert((y & 1u64) != 0u64 ==> y >= 1) by (bit_vector);
    lemma_u64_shr_is_div(x, s);
    lemma_pow2_pos(s as nat);
    if x < pow2(s as nat) {
        lemma_basic_div(x as int, pow2(s as nat) as int);
    }
    lemma2_to64_rest();
    if lz > 0 {
        let t = (64 - lz) as u64;
        assert(x >> t == 0);
        lemma_u64_shr_is_div(x, t);
        lemma_pow2_pos(t as nat);
        lemma_fundamental_div_mod(x as int, pow2(t as nat) as int);
        lemma_mod_bound(x as int, pow2(t as nat) as int);
    }
}

/// The number of significant bits of the value of `limbs`.
pub fn limb_bit_len<const N: usize>(limbs: &[u64; N]) -> (r: usize)
    requires
        N <= 0x10_0000,
    ensures
        r <= 64 * N,
        limbs_value(limbs@) < pow2(nat_of(r)),
        r > 0 ==> pow2((r - 1) as nat) <= limbs_value(limbs@),
{
    let mut i: usize = N;
    proof {
        assert(limbs@.skip(idx(i)).len() == 0);
    }
    while i > 0
        invariant
            i <= N,
            N <= 0x10_0000,
            forall|j: int| idx(i) <= j < N ==> limbs@[j] == 0,
        decreases i,
    {
        i = i - 1;
        let limb = limbs[i];
        if limb != 0 {
            let lz = limb.leading_zeros();
            proof {
                lemma_u64_bit_len(limb);
            }
            let r = i * 64 + (64 - lz as usize);
            proof {
                let l = idx(i);
                let v = limbs_value(limbs@);
                lemma_value_split(limbs@, l);
                lemma_value_first(limbs@.skip(l));
                crate::mont::lemma_value_all_zero(limbs@.skip(l).drop_first());
                lemma_value_bound(limbs@.take(l));
                lemma_base_pow_is_pow2(nat_of(i));
                let lo = limbs_value(limbs@.take(l)) as int;
                let pw = base_pow(nat_of(i)) as int;
                let h = (63 - u64_leading_zeros(limb)) as nat;
                lemma_mul_basics(limb_base() as int);
                assert(v == lo + pw * limb);
                lemma_pow2_adds(64 * nat_of(i), h);
                lemma_pow2_adds(64 * nat_of(i), h + 1);
                lemma_pow2_unfold(h + 1);
                assert(pow2(h) <= limb < pow2(h + 1));
                lemma_mul_inequality(pow2(h) as int, limb as int, pw);
                lemma_mul_inequality(limb as int + 1, pow2(h + 1) as int, pw);
                lemma_mul_is_distributive_add_other_way(pw, limb as int, 1);
                lemma_mul_is_commutative(pw, limb as int);
                lemma_mul_is_commutative(pw, pow2(h) as int);
                lemma_mul_is_commutative(pw, pow2(h + 1) as int);
                assert(nat_of(r) == 64 * nat_of(i) + h + 1);
            }
            return r;
        }
    }
    proof {
        crate::mont::lemma_value_all_zero(limbs@);
        lemma_pow2_pos(0);
    }
    0
}

/// How many plain subtractions of the modulus to try before falling back to
/// bitwise reduction: `2^min(unused + 1, 6)` where `unused` counts the bits of
/// the top limbs that the modulus leaves free.
pub fn fast_reduce_subtractions<const N: usize>(modulus: &[u64; N]) -> (r: usize)
    requires
        N <= 0x10_0000,
    ensures
        r == pow2(if 64 * N - limb_bits(modulus@) + 1 < 6 {
            (64 * N - limb_bits(modulus@) + 1) as nat
        } else {
            6
        }),
{
    let modulus_bits = limb_bit_len(modulus);
    let unused_bits = N * 64 - modulus_bits;
    let mut attempts: usize = 1;
    let mut i: usize = 0;
    proof {
        lemma_limb_bits_is(modulus@, nat_of(modulus_bits));
        lemma2_to64();
    }
    while i <= unused_bits && attempts < 64
        invariant
            i <= 6,
            i <= unused_bits + 1,
            attempts == pow2(nat_of(i)),
        decreases 7 - i,
    {
        proof {
            lemma2_to64();
            lemma_pow2_unfold(nat_of(i) + 1);
            if i == 6 {
                assert(false);
            }
        }
        attempts = attempts * 2;
        i = i + 1;
    }
    proof {
        lemma2_to64();
    }
    attempts
}

/// The bit length of the value of a limb sequence.
pub open spec fn limb_bits(s: Seq<u64>) -> nat {
    choose|n: nat| limbs_value(s) < #[trigger] pow2(n) && (n > 0 ==> pow2((n - 1) as nat) <= limbs_value(s))
}

/// The bounds of `limb_bit_len` determine the bit length uniquely.
proof fn lemma_limb_bits_is(s: Seq<u64>, n: nat)
    requires
        limbs_value(s) < pow2(n),
        n > 0 ==> pow2((n - 1) as nat) <= limbs_value(s),
    ensures
        limb_bits(s) == n,
{
    let m = limb_bits(s);
    assert(limbs_value(s) < pow2(m) && (m > 0 ==> pow2((m - 1) as nat) <= limbs_value(s)));
    if m < n {
        lemma_pow2_increases_le(m, (n - 1) as nat);
    } else if m > n {
        lemma_pow2_increases_le(n, (m - 1) as nat);
    }
}

proof fn lemma_pow2_increases_le(a: nat, b: nat)
    requires
        a <= b,
    ensures
        pow2(a) <= pow2(b),
{
    if a < b {
        lemma_pow2_strictly_increases(a, b);
    }
}


proof fn lemma_sub_keeps_residue(v: nat, m: nat, x: nat, next: nat)
    requires
        m > 0,
        v % m == x % m,
        v >= m,
        next == v - m,
    ensures
        next % m == x % m,
        next < m ==> next == x % m,
{
    lemma_mod_sub_multiples_vanish(v as int, m as int);
    if next < m {
        lemma_small_mod(next, m);
    }
}

/// `x mod m`: first by a few plain subtractions, then bit by bit.
pub fn reduce_limbs<const N: usize>(x: [u64; N], modulus: [u64; N]) -> (r: [u64; N])
    requires
        1 <= N <= 0x10_0000,
        limbs_value(modulus@) > 1,
    ensures
        limbs_value(r@) == limbs_value(x@) % limbs_value(modulus@),
{
    let ghost m = limbs_value(modulus@);
    match cmp_limbs(&x, &modulus) {
        Ordering::Less => {
            proof {
                lemma_small_mod(limbs_value(x@), m);
            }
            return x;
        },
        _ => {},
    }
    let mut reduced = x;
    let count = fast_reduce_subtractions(&modulus);
    let mut k: usize = 0;
    while k < count
        invariant
            m == limbs_value(modulus@),
            m > 1,
            limbs_value(reduced@) >= m,
            limbs_value(reduced@) % m == limbs_value(x@) % m,
        decreases count - k,
    {
        let (next, borrow) = sub_raw(reduced, modulus);
        proof {
            lemma_times_bool(base_pow(nat_of(N)), borrow);
            lemma_value_bound(next@);
        }
        if borrow {
            break;
        }
        proof {
            lemma_sub_keeps_residue(limbs_value(reduced@), m, limbs_value(x@), limbs_value(next@));
        }
        match cmp_limbs(&next, &modulus) {
            Ordering::Less => {
                return next;
            },
            _ => {},
        }
        reduced = next;
        k = k + 1;
    }
    const_reduce(x, modulus)
}

} // verus!
