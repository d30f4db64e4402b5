//! The arithmetic facts behind Montgomery representation: the inverse of the
//! radix modulo an odd modulus, and how field values follow the limb values.

use crate::limbs::base_pow;
use crate::modular::lemma_base_pow_is_pow2;
use vstd::arithmetic::div_mod::*;
use vstd::arithmetic::mul::*;
use vstd::arithmetic::power::*;
use vstd::prelude::*;

verus! {

/// The inverse of `2^(64 n)` modulo an odd `p`: `((p + 1) / 2)^(64 n) mod p`.
pub open spec fn r_inv(p: nat, n: nat) -> nat {
    (pow(((p + 1) / 2) as int, 64 * n) % (p as int)) as nat
}

/// The field value that a Montgomery representative `x` stands for: `x / 2^(64 n) mod p`.
pub open spec fn mont_value(x: nat, p: nat, n: nat) -> nat {
    (x * r_inv(p, n)) % p
}

/// `2^(64 n) * r_inv(p, n) == 1 (mod p)` for odd `p > 1`.
pub proof fn lemma_r_inv(p: nat, n: nat)
    requires
        p > 1,
        p % 2 == 1,
    ensures
        (base_pow(n) * r_inv(p, n)) % p == 1,
        r_inv(p, n) < p,
{
    let h = ((p + 1) / 2) as int;
    let k = 64 * n;
    let pi = p as int;
    lemma_base_pow_is_pow2(n);
    lemma_pow_positive(h, k);
    lemma_mod_bound(pow(h, k), pi);
    lemma_mul_mod_noop_right(pow(2, k), pow(h, k), pi);
    lemma_pow_distributes(2, h, k);
    assert(2 * h == pi + 1);
    lemma_pow_mod_noop(pi + 1, k, pi);
    lemma_mod_add_multiples_vanish(1, pi);
    lemma_small_mod(1, p);
    lemma1_pow(k);
}

/// Congruent values stay congruent when multiplied by the same factor.
pub proof fn lemma_cong_mul(x: int, y: int, c: int, p: int)
    requires
        p > 0,
        x % p == y % p,
    ensures
        (x * c) % p == (y * c) % p,
{
    lemma_mul_mod_noop_left(x, c, p);
    lemma_mul_mod_noop_left(y, c, p);
}

/// Cancelling the radix: `x R == y R (mod p)` implies `x == y (mod p)`.
pub proof fn lemma_cancel_radix(x: int, y: int, p: nat, n: nat)
    requires
        p > 1,
        p % 2 == 1,
        (x * base_pow(n)) % (p as int) == (y * base_pow(n)) % (p as int),
    ensures
        x % (p as int) == y % (p as int),
{
    let pi = p as int;
    let r = base_pow(n) as int;
    let ri = r_inv(p, n) as int;
    lemma_r_inv(p, n);
    lemma_cong_mul(x * r, y * r, ri, pi);
    lemma_mul_is_associative(x, r, ri);
    lemma_mul_is_associative(y, r, ri);
    lemma_mul_mod_noop_right(x, r * ri, pi);
    lemma_mul_mod_noop_right(y, r * ri, pi);
    lemma_mul_basics(x);
    lemma_mul_basics(y);
}

/// A Montgomery reduction result is the field value of its input.
pub proof fn lemma_mont_reduce_value(r: nat, a: nat, p: nat, n: nat)
    requires
        p > 1,
        p % 2 == 1,
        r < p,
        (r * base_pow(n)) % p == a % p,
    ensures
        r == mont_value(a, p, n),
{
    let pi = p as int;
    let rr = base_pow(n) as int;
    let ri = r_inv(p, n) as int;
    lemma_r_inv(p, n);
    lemma_cong_mul((r * base_pow(n)) as int, a as int, ri, pi);
    lemma_mul_is_associative(r as int, rr, ri);
    lemma_mul_mod_noop_right(r as int, rr * ri, pi);
    lemma_mul_basics(r as int);
    lemma_small_mod(r, p);
}

/// A Montgomery product stands for the product of the field values.
pub proof fn lemma_mont_mul_value(r: nat, a: nat, b: nat, p: nat, n: nat)
    requires
        p > 1,
        p % 2 == 1,
        (r * base_pow(n)) % p == (a * b) % p,
    ensures
        mont_value(r, p, n) == (mont_value(a, p, n) * mont_value(b, p, n)) % p,
{
    let pi = p as int;
    let rr = base_pow(n) as int;
    let ri = r_inv(p, n) as int;
    lemma_r_inv(p, n);
    // r * ri == r * R * ri * ri == a * b * ri * ri == (a ri) (b ri)   (mod p)
    lemma_cong_mul((r * base_pow(n)) as int, (a * b) as int, ri * ri, pi);
    assert((r * rr) * (ri * ri) == (r * ri) * (rr * ri)) by (nonlinear_arith);
    assert((a * b) * (ri * ri) == (a * ri) * (b * ri)) by (nonlinear_arith);
    lemma_mul_mod_noop_right(r * ri, rr * ri, pi);
    lemma_mul_basics(r * ri);
    lemma_mul_mod_noop((a * ri) as int, (b * ri) as int, pi);
}

/// A representative congruent to `a + b` stands for the sum of the field values.
pub proof fn lemma_mont_add_value(r: nat, a: nat, b: nat, p: nat, n: nat)
    requires
        p > 1,
        p % 2 == 1,
        r % p == (a + b) % p,
    ensures
        mont_value(r, p, n) == (mont_value(a, p, n) + mont_value(b, p, n)) % p,
{
    let pi = p as int;
    let ri = r_inv(p, n) as int;
    lemma_cong_mul(r as int, (a + b) as int, ri, pi);
    lemma_mul_is_distributive_add_other_way(ri, a as int, b as int);
    lemma_add_mod_noop(a * ri, b * ri, pi);
}

/// A representative congruent to `a - b` stands for the difference of the field values.
pub proof fn lemma_mont_sub_value(r: nat, a: nat, b: nat, p: nat, n: nat)
    requires
        p > 1,
        p % 2 == 1,
        (r as int) % (p as int) == (a - b) % (p as int),
    ensures
        mont_value(r, p, n) as int == (mont_value(a, p, n) - mont_value(b, p, n)) % (p as int),
{
    let pi = p as int;
    let ri = r_inv(p, n) as int;
    lemma_cong_mul(r as int, a - b, ri, pi);
    lemma_mul_is_distributive_sub_other_way(ri, a as int, b as int);
    lemma_sub_mod_noop(a * ri, b * ri, pi);
}

/// A representative whose Montgomery product with `R^2` was taken stands for `x mod p`.
pub proof fn lemma_mont_new_value(r: nat, x: nat, r2: nat, p: nat, n: nat)
    requires
        p > 1,
        p % 2 == 1,
        r2 == (base_pow(n) * base_pow(n)) % p,
        (r * base_pow(n)) % p == ((x % p) * r2) % p,
    ensures
        mont_value(r, p, n) == x % p,
{
    let pi = p as int;
    let rr = base_pow(n) as int;
    let ri = r_inv(p, n) as int;
    lemma_r_inv(p, n);
    // (x % p) * (R R % p) == x R R (mod p)
    lemma_mul_mod_noop((x % p) as int, rr * rr, pi);
    lemma_mul_mod_noop(x as int, rr * rr, pi);
    lemma_mod_twice(x as int, pi);
    lemma_mod_twice(rr * rr, pi);
    assert((((x % p) * r2) as int) % pi == (x * (rr * rr)) % pi);
    lemma_mul_is_associative(x as int, rr, rr);
    // cancel one R: r == x R (mod p)
    lemma_cancel_radix(r as int, x * rr, p, n);
    // so r ri == x R ri == x (mod p)
    lemma_cong_mul(r as int, x * rr, ri, pi);
    lemma_mul_is_associative(x as int, rr, ri);
    lemma_mul_mod_noop_right(x as int, rr * ri, pi);
    lemma_mul_basics(x as int);
}


/// Only the representative `0` stands for the field value `0`.
pub proof fn lemma_mont_value_zero(x: nat, p: nat, n: nat)
    requires
        p > 1,
        p % 2 == 1,
        x < p,
    ensures
        (mont_value(x, p, n) == 0) == (x == 0),
{
    let pi = p as int;
    let rr = base_pow(n) as int;
    let ri = r_inv(p, n) as int;
    lemma_r_inv(p, n);
    if x == 0 {
        lemma_mul_basics(ri);
        lemma_small_mod(0, p);
    } else if mont_value(x, p, n) == 0 {
        lemma_small_mod(0, p);
        lemma_cong_mul(x * ri, 0, rr, pi);
        lemma_mul_is_associative(x as int, ri, rr);
        lemma_mul_is_commutative(ri, rr);
        lemma_mul_mod_noop_right(x as int, rr * ri, pi);
        lemma_mul_basics(x as int);
        lemma_mul_basics(rr);
        lemma_small_mod(x, p);
    }
}

/// Two reduced representatives stand for the same value only when they are equal.
pub proof fn lemma_mont_value_injective(x: nat, y: nat, p: nat, n: nat)
    requires
        p > 1,
        p % 2 == 1,
        x < p,
        y < p,
        mont_value(x, p, n) == mont_value(y, p, n),
    ensures
        x == y,
{
    let pi = p as int;
    let rr = base_pow(n) as int;
    let ri = r_inv(p, n) as int;
    lemma_r_inv(p, n);
    lemma_cong_mul(x * ri, y * ri, rr, pi);
    lemma_mul_is_associative(x as int, ri, rr);
    lemma_mul_is_associative(y as int, ri, rr);
    lemma_mul_is_commutative(ri, rr);
    lemma_mul_mod_noop_right(x as int, rr * ri, pi);
    lemma_mul_mod_noop_right(y as int, rr * ri, pi);
    lemma_mul_basics(x as int);
    lemma_mul_basics(y as int);
    lemma_small_mod(x, p);
    lemma_small_mod(y, p);
}

} // verus!
