//! Modular arithmetic on limb arrays that needs no Montgomery form: the
//! helpers that derive a field's constants from its modulus.

use crate::limbs::{
    base_pow, bool_to_nat, idx, lemma_base_pow_succ, lemma_borrow_step, lemma_carry_step,
    lemma_skip_extend, lemma_times_bool, lemma_value_bound, lemma_value_first, lemma_value_lt_at,
    lemma_value_take_full, lemma_value_take_succ, limb_base, limbs_value, nat_of, };
use crate::mont::lemma_value_all_zero;
use vstd::arithmetic::div_mod::*;
use vstd::arithmetic::mul::*;
use vstd::arithmetic::power::*;
use vstd::arithmetic::power2::*;
use vstd::prelude::*;

verus! {

/// `2^(64 n)` as a power of two.
pub proof fn lemma_base_pow_is_pow2(n: nat)
    ensures
        base_pow(n) == pow(2, 64 * n),
    decreases n,
{
    if n == 0 {
        reveal(pow);
    } else {
        lemma_base_pow_is_pow2((n - 1) as nat);
        lemma2_to64_rest();
        lemma_pow_positive(2, 64);
        assert(pow(2, 64) == limb_base());
        lemma_pow_adds(2, 64, (64 * (n - 1)) as nat);
        assert(64 + (64 * (n - 1)) as nat == 64 * n);
        assert(base_pow(n) == limb_base() * base_pow((n - 1) as nat));
    }
}

/// The limb array denoting `1`.
pub fn one_limbs<const N: usize>() -> (r: [u64; N])
    requires
        N >= 1,
    ensures
        limbs_value(r@) == 1,
{
    let mut limbs = [0u64; N];
    proof {
        vstd::array::axiom_spec_array_fill_for_copy_type::<u64, N>(0u64);
    }
    limbs[0] = 1;
    proof {
        lemma_value_first(limbs@);
        lemma_value_all_zero(limbs@.drop_first());
    }
    limbs
}

/// Three-way comparison as `-1`, `0` or `1`.
pub fn const_cmp<const N: usize>(a: [u64; N], b: [u64; N]) -> (r: i8)
    ensures
        r == -1 <==> limbs_value(a@) < limbs_value(b@),
        r == 0 <==> limbs_value(a@) == limbs_value(b@),
        r == 1 <==> limbs_value(a@) > limbs_value(b@),
{
    let mut i: usize = N;
    proof {
        assert(a@.skip(idx(i)) =~= b@.skip(idx(i)));
    }
    while i > 0
        invariant
            i <= N,
            a@.skip(idx(i)) == b@.skip(idx(i)),
        decreases i,
    {
        i = i - 1;
        if a[i] < b[i] {
            proof {
                lemma_value_lt_at(a@, b@, idx(i));
            }
            return -1;
        }
        if a[i] > b[i] {
            proof {
                lemma_value_lt_at(b@, a@, idx(i));
            }
            return 1;
        }
        proof {
            lemma_skip_extend(a@, b@, idx(i));
        }
    }
    proof {
        assert(a@ =~= a@.skip(0));
        assert(b@ =~= b@.skip(0));
    }
    0
}

/// Limb-array addition with a 128-bit carry word.
pub fn const_add_raw<const N: usize>(a: [u64; N], b: [u64; N]) -> (r: ([u64; N], bool))
    ensures
        limbs_value(r.0@) + base_pow(nat_of(N)) * bool_to_nat(r.1) == limbs_value(a@)
            + limbs_value(b@),
{
    let mut out = [0u64; N];
    let mut carry: u128 = 0;
    let mut i: usize = 0;
    proof {
        assert(limbs_value(out@.take(0)) == 0);
        assert(limbs_value(a@.take(0)) == 0);
        assert(limbs_value(b@.take(0)) == 0);
        lemma_mul_basics(base_pow(0) as int);
    }
    while i < N
        invariant
            0 <= i <= N,
            carry <= 1,
            limbs_value(out@.take(idx(i))) + base_pow(nat_of(i)) * carry == limbs_value(
                a@.take(idx(i)),
            ) + limbs_value(b@.take(idx(i))),
        decreases N - i,
    {
        let sum: u128 = a[i] as u128 + b[i] as u128 + carry;
        let lo: u64 = (sum % 0x1_0000_0000_0000_0000u128) as u64;
        let hi: u128 = sum / 0x1_0000_0000_0000_0000u128;
        proof {
            lemma_value_take_succ(a@, idx(i));
            lemma_value_take_succ(b@, idx(i));
            let o2 = out@.update(idx(i), lo);
            lemma_value_take_succ(o2, idx(i));
            assert(o2.take(idx(i)) =~= out@.take(idx(i)));
            lemma_carry_step(
                limbs_value(out@.take(idx(i))) as int,
                limbs_value(a@.take(idx(i))) as int,
                limbs_value(b@.take(idx(i))) as int,
                base_pow(nat_of(i)) as int,
                lo as int,
                carry as int,
                hi as int,
                a[idx(i)] as int,
                b[idx(i)] as int,
            );
            lemma_base_pow_succ(nat_of(i));
        }
        out[i] = lo;
        carry = hi;
        i = i + 1;
    }
    proof {
        lemma_value_take_full(out@);
        lemma_value_take_full(a@);
        lemma_value_take_full(b@);
    }
    (out, carry != 0)
}

/// Limb-array subtraction with a 128-bit borrow word.
pub fn const_sub_raw<const N: usize>(a: [u64; N], b: [u64; N]) -> (r: ([u64; N], bool))
    ensures
        limbs_value(r.0@) - base_pow(nat_of(N)) * bool_to_nat(r.1) == limbs_value(a@)
            - limbs_value(b@),
{
    let mut out = [0u64; N];
    let mut borrow: u128 = 0;
    let mut i: usize = 0;
    proof {
        assert(limbs_value(out@.take(0)) == 0);
        assert(limbs_value(a@.take(0)) == 0);
        assert(limbs_value(b@.take(0)) == 0);
        lemma_mul_basics(base_pow(0) as int);
    }
    while i < N
        invariant
            0 <= i <= N,
            borrow <= 1,
            limbs_value(out@.take(idx(i))) - base_pow(nat_of(i)) * borrow == limbs_value(
                a@.take(idx(i)),
            ) - limbs_value(b@.take(idx(i))),
        decreases N - i,
    {
        let subtrahend: u128 = b[i] as u128 + borrow;
        let ai: u128 = a[i] as u128;
        let lo: u64;
        let next: u128;
        if ai >= subtrahend {
            lo = (ai - subtrahend) as u64;
            next = 0;
        } else {
            lo = (0x1_0000_0000_0000_0000u128 + ai - subtrahend) as u64;
            next = 1;
        }
        proof {
            lemma_value_take_succ(a@, idx(i));
            lemma_value_take_succ(b@, idx(i));
            let o2 = out@.update(idx(i), lo);
            lemma_value_take_succ(o2, idx(i));
            assert(o2.take(idx(i)) =~= out@.take(idx(i)));
            lemma_borrow_step(
                limbs_value(out@.take(idx(i))) as int,
                limbs_value(a@.take(idx(i))) as int,
                limbs_value(b@.take(idx(i))) as int,
                base_pow(nat_of(i)) as int,
                lo as int,
                borrow as int,
                next as int,
                a[idx(i)] as int,
                b[idx(i)] as int,
            );
            lemma_base_pow_succ(nat_of(i));
        }
        out[i] = lo;
        borrow = next;
        i = i + 1;
    }
    proof {
        lemma_value_take_full(out@);
        lemma_value_take_full(a@);
        lemma_value_take_full(b@);
    }
    (out, borrow != 0)
}

proof fn lemma_sum_mod_once(a: nat, b: nat, m: nat, d: nat)
    requires
        a < m,
        b < m,
        d == a + b || d + m == a + b,
        d < m,
    ensures
        d == (a + b) % m,
{
    if d == a + b {
        lemma_small_mod(d, m);
    } else {
        lemma_fundamental_div_mod_converse((a + b) as int, m as int, 1, d as int);
    }
}

/// `(a + b) mod m` for reduced inputs.
pub fn const_add_mod<const N: usize>(a: [u64; N], b: [u64; N], modulus: [u64; N]) -> (r: [u64; N])
    requires
        limbs_value(a@) < limbs_value(modulus@),
        limbs_value(b@) < limbs_value(modulus@),
    ensures
        limbs_value(r@) == (limbs_value(a@) + limbs_value(b@)) % limbs_value(modulus@),
{
    let ghost m = limbs_value(modulus@);
    let (mut sum, carry) = const_add_raw(a, b);
    proof {
        lemma_times_bool(base_pow(nat_of(N)), carry);
        lemma_value_bound(modulus@);
        lemma_value_bound(sum@);
    }
    if carry || const_cmp(sum, modulus) >= 0 {
        let (d, borrow) = const_sub_raw(sum, modulus);
        proof {
            lemma_times_bool(base_pow(nat_of(N)), borrow);
            lemma_value_bound(d@);
            // the true sum a + b lies in [m, 2m), so the result is a + b - m
            assert(limbs_value(d@) == limbs_value(a@) + limbs_value(b@) - m);
            lemma_sum_mod_once(limbs_value(a@), limbs_value(b@), m, limbs_value(d@));
        }
        sum = d;
    } else {
        proof {
            lemma_sum_mod_once(limbs_value(a@), limbs_value(b@), m, limbs_value(sum@));
        }
    }
    sum
}

/// `2a mod m` for a reduced input.
pub fn const_double_mod<const N: usize>(a: [u64; N], modulus: [u64; N]) -> (r: [u64; N])
    requires
        limbs_value(a@) < limbs_value(modulus@),
    ensures
        limbs_value(r@) == (2 * limbs_value(a@)) % limbs_value(modulus@),
{
    const_add_mod(a, a, modulus)
}

/// Whether every limb above the lowest is zero; then the value is the lowest limb.
pub fn high_limbs_are_zero<const N: usize>(limbs: &[u64; N]) -> (r: bool)
    requires
        N >= 1,
    ensures
        r == (forall|i: int| 1 <= i < N ==> limbs[i] == 0),
        r ==> limbs_value(limbs@) == limbs[0],
{
    let mut i: usize = 1;
    while i < N
        invariant
            1 <= i <= N,
            forall|j: int| 1 <= j < i ==> limbs[j] == 0,
        decreases N - i,
    {
        if limbs[i] != 0 {
            return false;
        }
        i = i + 1;
    }
    proof {
        lemma_value_first(limbs@);
        lemma_value_all_zero(limbs@.drop_first());
        lemma_mul_basics(limb_base() as int);
    }
    true
}


proof fn lemma_double_pow_step(v: nat, i: nat, m: nat)
    requires
        m > 0,
        v == pow(2, i) % (m as int),
    ensures
        (2 * v) % m == pow(2, i + 1) % (m as int),
{
    lemma_pow_positive(2, i);
    lemma_mul_mod_noop_right(2, pow(2, i), m as int);
    assert(pow(2, i + 1) == 2 * pow(2, i)) by {
        reveal(pow);
    }
}

/// `2^(64 N) mod m`, the Montgomery radix reduced.
pub fn mont_r<const N: usize>(modulus: [u64; N]) -> (r: [u64; N])
    requires
        1 <= N <= 0x10_0000,
        limbs_value(modulus@) > 1,
    ensures
        limbs_value(r@) == base_pow(nat_of(N)) % limbs_value(modulus@),
        limbs_value(r@) < limbs_value(modulus@),
{
    let ghost m = limbs_value(modulus@);
    let mut result = one_limbs::<N>();
    let mut i: usize = 0;
    proof {
        reveal(pow);
        lemma_small_mod(1, m);
    }
    while i < N * 64
        invariant
            1 <= N <= 0x10_0000,
            i <= N * 64,
            m == limbs_value(modulus@),
            m > 1,
            limbs_value(result@) == pow(2, nat_of(i)) % (m as int),
        decreases N * 64 - i,
    {
        proof {
            lemma_mod_bound(pow(2, nat_of(i)), m as int);
            lemma_double_pow_step(limbs_value(result@), nat_of(i), m);
        }
        result = const_double_mod(result, modulus);
        i = i + 1;
    }
    proof {
        lemma_base_pow_is_pow2(nat_of(N));
        lemma_mod_bound(pow(2, nat_of(i)), m as int);
    }
    result
}

/// `2^(128 N) mod m`, the square of the Montgomery radix reduced.
pub fn mont_r2<const N: usize>(modulus: [u64; N]) -> (r: [u64; N])
    requires
        1 <= N <= 0x10_0000,
        limbs_value(modulus@) > 1,
    ensures
        limbs_value(r@) == (base_pow(nat_of(N)) * base_pow(nat_of(N))) % limbs_value(modulus@),
        limbs_value(r@) < limbs_value(modulus@),
{
    let ghost m = limbs_value(modulus@);
    let mut result = one_limbs::<N>();
    let mut i: usize = 0;
    proof {
        reveal(pow);
        lemma_small_mod(1, m);
    }
    while i < N * 128
        invariant
            1 <= N <= 0x10_0000,
            i <= N * 128,
            m == limbs_value(modulus@),
            m > 1,
            limbs_value(result@) == pow(2, nat_of(i)) % (m as int),
        decreases N * 128 - i,
    {
        proof {
            lemma_mod_bound(pow(2, nat_of(i)), m as int);
            lemma_double_pow_step(limbs_value(result@), nat_of(i), m);
        }
        result = const_double_mod(result, modulus);
        i = i + 1;
    }
    proof {
        lemma_base_pow_is_pow2(nat_of(N));
        lemma_pow_adds(2, 64 * nat_of(N), 64 * nat_of(N));
        assert(64 * nat_of(N) + 64 * nat_of(N) == nat_of(i));
        lemma_mod_bound(pow(2, nat_of(i)), m as int);
    }
    result
}

/// The Montgomery form of `-1`, that is `-2^(64 N) mod m`.
pub fn mont_neg_one<const N: usize>(modulus: [u64; N]) -> (r: [u64; N])
    requires
        1 <= N <= 0x10_0000,
        limbs_value(modulus@) > 1,
    ensures
        limbs_value(r@) == neg_mod(base_pow(nat_of(N)), limbs_value(modulus@)),
{
    let one = mont_r(modulus);
    let zero = [0u64; N];
    proof {
        lemma_value_all_zero(zero@);
    }
    if const_cmp(one, zero) == 0 {
        proof {
            lemma_neg_of_zero(limbs_value(modulus@));
        }
        one
    } else {
        let (d, borrow) = const_sub_raw(modulus, one);
        proof {
            lemma_value_bound(d@);
            lemma_neg_one_value(
                limbs_value(modulus@),
                limbs_value(one@),
                limbs_value(d@),
                bool_to_nat(borrow),
                base_pow(nat_of(N)),
            );
            lemma_small_mod(base_pow(nat_of(N)) % limbs_value(modulus@), limbs_value(modulus@));
        }
        d
    }
}

/// `-x mod m`.
pub open spec fn neg_mod(x: nat, m: nat) -> nat {
    ((m - x % m) % (m as int)) as nat
}

proof fn lemma_neg_of_zero(m: nat)
    requires
        m > 0,
    ensures
        0 == (m - 0nat) % (m as int),
{
    lemma_mod_self_0(m as int);
}

proof fn lemma_neg_one_value(m: nat, one: nat, d: nat, borrow: nat, big: nat)
    requires
        0 < one < m,
        d - big * borrow == m - one,
        borrow <= 1,
        d < big,
    ensures
        d == (m - one) % (m as int),
{
    if borrow == 1 {
        lemma_mul_basics(big as int);
        assert(false);
    }
    lemma_mul_basics(big as int);
    lemma_small_mod((m - one) as nat, m);
}

/// `m - 2`, the exponent that inverts by Fermat's little theorem.
pub fn modulus_minus_two<const N: usize>(modulus: [u64; N]) -> (r: [u64; N])
    requires
        N >= 1,
        limbs_value(modulus@) >= 2,
    ensures
        limbs_value(r@) == limbs_value(modulus@) - 2,
{
    let mut two = [0u64; N];
    two[0] = 2;
    proof {
        lemma_value_first(two@);
        lemma_value_all_zero(two@.drop_first());
        lemma_mul_basics(limb_base() as int);
    }
    let (d, borrow) = const_sub_raw(modulus, two);
    proof {
        lemma_value_bound(d@);
        lemma_times_bool(base_pow(nat_of(N)), borrow);
    }
    d
}


/// `2^(2^i)` for the six Newton steps that lift an inverse from one bit to 64.
pub open spec fn hensel_modulus(i: nat) -> int {
    if i == 0 {
        2
    } else if i == 1 {
        4
    } else if i == 2 {
        16
    } else if i == 3 {
        256
    } else if i == 4 {
        0x1_0000
    } else if i == 5 {
        0x1_0000_0000
    } else {
        0x1_0000_0000_0000_0000
    }
}

proof fn lemma_mod_of_divisor(a: int, b: int, big: int, k: int)
    requires
        k > 0,
        big > 0,
        big % k == 0,
        a % big == b % big,
    ensures
        a % k == b % k,
{
    let d = big / k;
    lemma_fundamental_div_mod(big, k);
    assert(big == k * d);
    assert(d > 0) by (nonlinear_arith)
        requires
            big == k * d,
            big > 0,
            k > 0,
    ;
    lemma_mod_mod(a, k, d);
    lemma_mod_mod(b, k, d);
}

proof fn lemma_hensel_step(p0: int, inv: int, t: int, inv2: int, k: int)
    requires
        k > 0,
        (limb_base() as int) % (k * k) == 0,
        t == (2 - p0 * inv) % (limb_base() as int),
        inv2 == (inv * t) % (limb_base() as int),
        (p0 * inv - 1) % k == 0,
    ensures
        (p0 * inv2 - 1) % (k * k) == 0,
{
    let b = limb_base() as int;
    let x = p0 * inv;
    // p0 * inv2 == x * (2 - x) (mod b)
    lemma_mul_mod_noop_right(p0, inv * t, b);
    lemma_mul_mod_noop_right(inv, 2 - x, b);
    lemma_mul_mod_noop_right(p0, inv * (2 - x), b);
    lemma_mul_is_associative(p0, inv, 2 - x);
    lemma_mul_is_associative(p0, inv, t);
    assert((p0 * inv2) % b == (x * (2 - x)) % b);
    lemma_sub_mod_noop(p0 * inv2, 1, b);
    lemma_sub_mod_noop(x * (2 - x), 1, b);
    lemma_mod_twice(p0 * inv2, b);
    lemma_mod_twice(x * (2 - x), b);
    assert((p0 * inv2 - 1) % b == (x * (2 - x) - 1) % b);
    // x * (2 - x) - 1 == -(x - 1)^2 and k | (x - 1)
    let c = (x - 1) / k;
    lemma_fundamental_div_mod(x - 1, k);
    assert(x - 1 == k * c);
    assert(x * (2 - x) - 1 == (k * k) * (-(c * c))) by (nonlinear_arith)
        requires
            x - 1 == k * c,
    ;
    lemma_mod_multiples_basic(-(c * c), k * k);
    lemma_mul_is_commutative(k * k, -(c * c));
    assert(k * k > 0) by (nonlinear_arith)
        requires
            k > 0,
    ;
    lemma_mod_of_divisor(p0 * inv2 - 1, x * (2 - x) - 1, b, k * k);
}

/// `(a - b) mod 2^64`.
fn sub_lo(a: u64, b: u64) -> (r: u64)
    ensures
        r == (a - b) % (limb_base() as int),
{
    let s: u128 = (a as u128 + 0x1_0000_0000_0000_0000u128 - b as u128) % 0x1_0000_0000_0000_0000u128;
    proof {
        lemma_mod_add_multiples_vanish(a - b, limb_base() as int);
    }
    s as u64
}

/// The negated inverse of the lowest modulus limb modulo `2^64`, found by
/// Newton's iteration `x <- x * (2 - p0 * x)` from `x = 1`.
pub fn mont_inv<const N: usize>(modulus: [u64; N]) -> (r: u64)
    requires
        N >= 1,
        modulus[0] % 2 == 1,
    ensures
        (modulus[0] * r) % (limb_base() as int) == limb_base() - 1,
{
    let p0 = modulus[0];
    let mut inv: u64 = 1;
    let mut i: usize = 0;
    proof {
        lemma_mod_twice(p0 as int, 2);
        lemma_sub_mod_noop(p0 as int, 1, 2);
        assert((p0 * inv - 1) % hensel_modulus(0) == 0);
    }
    while i < 6
        invariant
            i <= 6,
            N >= 1,
            p0 == modulus[0],
            (p0 * inv - 1) % hensel_modulus(nat_of(i)) == 0,
        decreases 6 - i,
    {
        let prod = crate::limbs::mul_lo(p0, inv);
        let t = sub_lo(2, prod);
        let next = crate::limbs::mul_lo(inv, t);
        proof {
            let b = limb_base() as int;
            lemma_sub_mod_noop(2, p0 * inv, b);
            lemma_mod_twice(2 - p0 * inv, b);
            lemma_sub_mod_noop(2, prod as int, b);
            assert(t == (2 - p0 * inv) % b);
            let k = hensel_modulus(nat_of(i));
            assert(hensel_modulus(nat_of(i) + 1) == k * k && b % (k * k) == 0) by {
                if nat_of(i) == 0 {
                    assert(k * k == 4);
                } else if nat_of(i) == 1 {
                    assert(k * k == 16);
                } else if nat_of(i) == 2 {
                    assert(k * k == 256);
                } else if nat_of(i) == 3 {
                    assert(k * k == 0x1_0000);
                } else if nat_of(i) == 4 {
                    assert(k * k == 0x1_0000_0000);
                } else {
                    assert(nat_of(i) == 5);
                    assert(k * k == 0x1_0000_0000_0000_0000);
                }
            }
            lemma_hensel_step(p0 as int, inv as int, t as int, next as int, k);
        }
        inv = next;
        i = i + 1;
    }
    let r = sub_lo(0, inv);
    proof {
        let b = limb_base() as int;
        assert((p0 * inv - 1) % b == 0);
        lemma_mul_mod_noop_right(p0 as int, 0 - inv, b);
        assert(p0 * (0 - inv) == -1 - (p0 * inv - 1)) by (nonlinear_arith);
        lemma_sub_mod_noop(-1, p0 * inv - 1, b);
        lemma_mod_twice(-1 - (p0 * inv - 1), b);
        lemma_fundamental_div_mod_converse_mod(-1, b, -1, b - 1);
    }
    r
}

} // verus!
