//! Multi-precision arithmetic on little-endian `u64` limb arrays.

use vstd::arithmetic::div_mod::*;
use vstd::arithmetic::mul::*;
use std::cmp::Ordering;
use vstd::prelude::*;

verus! {

/// The radix of one limb, `2^64`.
pub open spec fn limb_base() -> nat {
    0x1_0000_0000_0000_0000
}

/// `2^(64 * n)`.
pub open spec fn base_pow(n: nat) -> nat
    decreases n,
{
    if n == 0 {
        1
    } else {
        limb_base() * base_pow((n - 1) as nat)
    }
}

/// The integer that a little-endian limb sequence denotes.
pub open spec fn limbs_value(s: Seq<u64>) -> nat
    decreases s.len(),
{
    if s.len() == 0 {
        0
    } else {
        limbs_value(s.drop_last()) + (s.last() as nat) * base_pow((s.len() - 1) as nat)
    }
}

/// A machine index read as a mathematical integer.
pub open spec fn idx(i: usize) -> int {
    i as int
}

pub proof fn lemma_times_bool(x: nat, b: bool)
    ensures
        x * bool_to_nat(b) == if b {
            x
        } else {
            0
        },
{
    lemma_mul_basics(x as int);
}

/// A machine length read as a natural number.
pub open spec fn nat_of(n: usize) -> nat {
    n as nat
}

pub open spec fn bool_to_nat(b: bool) -> nat {
    if b {
        1
    } else {
        0
    }
}

pub proof fn lemma_base_pow_positive(n: nat)
    ensures
        base_pow(n) >= 1,
    decreases n,
{
    if n > 0 {
        lemma_base_pow_positive((n - 1) as nat);
        lemma_mul_increases(limb_base() as int, base_pow((n - 1) as nat) as int);
    }
}

pub proof fn lemma_base_pow_add(a: nat, b: nat)
    ensures
        base_pow(a + b) == base_pow(a) * base_pow(b),
    decreases a,
{
    if a > 0 {
        lemma_base_pow_add((a - 1) as nat, b);
        assert((a + b - 1) as nat == ((a - 1) as nat + b));
        assert(base_pow(a + b) == limb_base() * base_pow(((a - 1) as nat + b) as nat));
        assert(base_pow(a) == limb_base() * base_pow((a - 1) as nat));
        lemma_mul_is_associative(
            limb_base() as int,
            base_pow((a - 1) as nat) as int,
            base_pow(b) as int,
        );
    } else {
        lemma_mul_basics(base_pow(b) as int);
    }
}

pub proof fn lemma_base_pow_succ(n: nat)
    ensures
        base_pow(n + 1) == base_pow(n) * limb_base(),
{
    lemma_base_pow_add(n, 1);
}

pub proof fn lemma_base_pow_monotone(a: nat, b: nat)
    requires
        a <= b,
    ensures
        base_pow(a) <= base_pow(b),
{
    lemma_base_pow_add(a, (b - a) as nat);
    lemma_base_pow_positive((b - a) as nat);
    lemma_base_pow_positive(a);
    lemma_mul_increases(base_pow((b - a) as nat) as int, base_pow(a) as int);
}

/// The value of a prefix grows by one limb at a time.
pub proof fn lemma_value_take_succ(s: Seq<u64>, i: int)
    requires
        0 <= i < s.len(),
    ensures
        limbs_value(s.take(i + 1)) == limbs_value(s.take(i)) + s[i] * base_pow(i as nat),
{
    assert(s.take(i + 1).drop_last() =~= s.take(i));
}

pub proof fn lemma_value_take_full(s: Seq<u64>)
    ensures
        limbs_value(s.take(s.len() as int)) == limbs_value(s),
{
    assert(s.take(s.len() as int) =~= s);
}

/// A sequence of `n` limbs denotes a value below `2^(64 n)`.
pub proof fn lemma_value_bound(s: Seq<u64>)
    ensures
        limbs_value(s) < base_pow(s.len()),
    decreases s.len(),
{
    if s.len() > 0 {
        let n = (s.len() - 1) as nat;
        lemma_value_bound(s.drop_last());
        lemma_base_pow_succ(n);
        assert(s.last() <= limb_base() - 1);
        lemma_mul_inequality(s.last() as int, limb_base() - 1, base_pow(n) as int);
        lemma_mul_is_distributive_sub_other_way(base_pow(n) as int, limb_base() as int, 1);
    }
}

/// Splitting a limb sequence at `k` splits its value.
pub proof fn lemma_value_split(s: Seq<u64>, k: int)
    requires
        0 <= k <= s.len(),
    ensures
        limbs_value(s) == limbs_value(s.take(k)) + base_pow(k as nat) * limbs_value(s.skip(k)),
    decreases s.len(),
{
    if s.len() == k {
        assert(s.take(k) =~= s);
        assert(s.skip(k).len() == 0);
        assert(limbs_value(s.skip(k)) == 0);
        lemma_mul_basics(base_pow(k as nat) as int);
    } else {
        let n = (s.len() - 1) as nat;
        let d = s.drop_last();
        lemma_value_split(d, k);
        assert(d.take(k) =~= s.take(k));
        let hi = s.skip(k);
        assert(hi.drop_last() =~= d.skip(k));
        assert(hi.last() == s.last());
        // value(hi) = value(d.skip(k)) + last * B^(n - k)
        lemma_base_pow_add(k as nat, (n - k) as nat);
        assert(limbs_value(hi) == limbs_value(d.skip(k)) + s.last() * base_pow((n - k) as nat));
        lemma_mul_is_distributive_add(
            base_pow(k as nat) as int,
            limbs_value(d.skip(k)) as int,
            s.last() * base_pow((n - k) as nat),
        );
        lemma_mul_is_associative(
            base_pow(k as nat) as int,
            s.last() as int,
            base_pow((n - k) as nat) as int,
        );
        lemma_mul_is_commutative(base_pow(k as nat) as int, s.last() as int);
        lemma_mul_is_associative(
            s.last() as int,
            base_pow(k as nat) as int,
            base_pow((n - k) as nat) as int,
        );
        assert((k as nat + (n - k) as nat) == n);
    }
}

/// The lowest limb plus `2^64` times the rest.
pub proof fn lemma_value_first(s: Seq<u64>)
    requires
        s.len() >= 1,
    ensures
        limbs_value(s) == s[0] + limb_base() * limbs_value(s.drop_first()),
{
    lemma_value_split(s, 1);
    assert(s.take(1).drop_last() =~= s.take(0));
    assert(s.skip(1) =~= s.drop_first());
    assert(base_pow(1) == limb_base() * base_pow(0));
    lemma_mul_basics(limb_base() as int);
    lemma_mul_basics(s[0] as int);
    assert(s.take(1).last() == s[0]);
    assert(limbs_value(s.take(0)) == 0);
}

/// Replacing one limb changes the value by the difference at that position.
pub proof fn lemma_value_update(s: Seq<u64>, i: int, x: u64)
    requires
        0 <= i < s.len(),
    ensures
        limbs_value(s.update(i, x)) + s[i] * base_pow(i as nat) == limbs_value(s) + x
            * base_pow(i as nat),
{
    let u = s.update(i, x);
    lemma_value_split(s, i + 1);
    lemma_value_split(u, i + 1);
    assert(u.skip(i + 1) =~= s.skip(i + 1));
    lemma_value_take_succ(s, i);
    lemma_value_take_succ(u, i);
    assert(u.take(i) =~= s.take(i));
}

/// Two limb sequences of one length with equal limbs above position `i` are
/// ordered as their limbs at `i` when those differ.
pub proof fn lemma_value_lt_at(a: Seq<u64>, b: Seq<u64>, i: int)
    requires
        a.len() == b.len(),
        0 <= i < a.len(),
        a.skip(i + 1) == b.skip(i + 1),
        a[i] < b[i],
    ensures
        limbs_value(a) < limbs_value(b),
{
    let k = i + 1;
    lemma_value_split(a, k);
    lemma_value_split(b, k);
    lemma_value_take_succ(a, i);
    lemma_value_take_succ(b, i);
    lemma_value_bound(a.take(i));
    let p = base_pow(i as nat) as int;
    assert(a.take(i).len() == i);
    // value(a.take(i+1)) < p + a[i]*p <= b[i]*p <= value(b.take(i+1))
    lemma_mul_inequality(a[i] + 1, b[i] as int, p);
    lemma_mul_is_distributive_add_other_way(p, a[i] as int, 1);
}

/// Equal sequences above `i`, equal at `i`: equality extends one step down.
pub proof fn lemma_skip_extend(a: Seq<u64>, b: Seq<u64>, i: int)
    requires
        a.len() == b.len(),
        0 <= i < a.len(),
        a.skip(i + 1) == b.skip(i + 1),
        a[i] == b[i],
    ensures
        a.skip(i) == b.skip(i),
{
    assert(a.skip(i) =~= seq![a[i]] + a.skip(i + 1));
    assert(b.skip(i) =~= seq![b[i]] + b.skip(i + 1));
}

/// Add with carry: `lo + 2^64 * carry_out == a + b + carry_in`.
pub fn adc(a: u64, b: u64, carry: bool) -> (r: (u64, bool))
    ensures
        r.0 + limb_base() * bool_to_nat(r.1) == a + b + bool_to_nat(carry),
{
    let c: u128 = if carry {
        1
    } else {
        0
    };
    let s: u128 = a as u128 + b as u128 + c;
    let lo: u128 = s % 0x1_0000_0000_0000_0000u128;
    let hi: u128 = s / 0x1_0000_0000_0000_0000u128;
    (lo as u64, hi != 0)
}

/// Subtract with borrow: `lo - 2^64 * borrow_out == a - b - borrow_in`.
pub fn sbb(a: u64, b: u64, borrow: bool) -> (r: (u64, bool))
    ensures
        r.0 - limb_base() * bool_to_nat(r.1) == a - b - bool_to_nat(borrow),
{
    let c: u128 = if borrow {
        1
    } else {
        0
    };
    let sub: u128 = b as u128 + c;
    let av: u128 = a as u128;
    if av >= sub {
        ((av - sub) as u64, false)
    } else {
        ((0x1_0000_0000_0000_0000u128 + av - sub) as u64, true)
    }
}

/// Multiply-accumulate: `lo + 2^64 * hi == a * b + carry + add`.
pub fn mac(a: u64, b: u64, carry: u64, add: u64) -> (r: (u64, u64))
    ensures
        r.0 + limb_base() * r.1 == a * b + carry + add,
{
    proof {
        assert(a * b <= 0xffff_ffff_ffff_fffe_0000_0000_0000_0001) by (nonlinear_arith)
            requires
                a <= 0xffff_ffff_ffff_ffff,
                b <= 0xffff_ffff_ffff_ffff,
        ;
    }
    let s: u128 = (a as u128) * (b as u128) + carry as u128 + add as u128;
    let lo: u128 = s % 0x1_0000_0000_0000_0000u128;
    let hi: u128 = s / 0x1_0000_0000_0000_0000u128;
    (lo as u64, hi as u64)
}


pub proof fn lemma_carry_step(
    v_out: int,
    v_a: int,
    v_b: int,
    p: int,
    s: int,
    c_in: int,
    c_out: int,
    x: int,
    y: int,
)
    by (nonlinear_arith)
    requires
        v_out + p * c_in == v_a + v_b,
        s + limb_base() * c_out == x + y + c_in,
    ensures
        (v_out + s * p) + (p * limb_base()) * c_out == (v_a + x * p) + (v_b + y * p),
{
}

pub proof fn lemma_borrow_step(
    v_out: int,
    v_a: int,
    v_b: int,
    p: int,
    s: int,
    c_in: int,
    c_out: int,
    x: int,
    y: int,
)
    by (nonlinear_arith)
    requires
        v_out - p * c_in == v_a - v_b,
        s - limb_base() * c_out == x - y - c_in,
    ensures
        (v_out + s * p) - (p * limb_base()) * c_out == (v_a + x * p) - (v_b + y * p),
{
}

/// The first few powers of the limb radix, spelled out.
pub proof fn lemma_base_pow_small()
    ensures
        base_pow(0) == 1,
        base_pow(1) == 0x1_0000_0000_0000_0000,
        base_pow(2) == 0x1_0000_0000_0000_0000_0000_0000_0000_0000,
        base_pow(3) == 0x1_0000_0000_0000_0000_0000_0000_0000_0000_0000_0000_0000_0000,
        base_pow(4) == 0x1_0000_0000_0000_0000_0000_0000_0000_0000_0000_0000_0000_0000_0000_0000_0000_0000,
        base_pow(5) == 0x1_0000_0000_0000_0000_0000_0000_0000_0000_0000_0000_0000_0000_0000_0000_0000_0000_0000_0000_0000_0000,
        base_pow(6) == 0x1_0000_0000_0000_0000_0000_0000_0000_0000_0000_0000_0000_0000_0000_0000_0000_0000_0000_0000_0000_0000_0000_0000_0000_0000,
{
    reveal_with_fuel(base_pow, 7);
}

/// The value of a four-limb sequence written out.
pub proof fn lemma_value_4(s: Seq<u64>)
    requires
        s.len() == 4,
    ensures
        limbs_value(s) == s[0] + limb_base() * s[1] + base_pow(2) * s[2] + base_pow(3) * s[3],
{
    reveal_with_fuel(limbs_value, 5);
    reveal_with_fuel(base_pow, 4);
    assert(s.drop_last().drop_last().drop_last().drop_last().len() == 0);
    lemma_mul_basics(s[0] as int);
    lemma_mul_basics(limb_base() as int);
    lemma_mul_is_commutative(s[1] as int, limb_base() as int);
    lemma_mul_is_commutative(s[2] as int, base_pow(2) as int);
    lemma_mul_is_commutative(s[3] as int, base_pow(3) as int);
}

/// Little-endian addition of two limb arrays, with the carry out of the top limb.
pub fn add_raw<const N: usize>(a: [u64; N], b: [u64; N]) -> (r: ([u64; N], bool))
    ensures
        limbs_value(r.0@) + base_pow(N as nat) * bool_to_nat(r.1) == limbs_value(a@)
            + limbs_value(b@),
{
    if N == 4 {
        let (result, carry) = add_raw_4([a[0], a[1], a[2], a[3]], [b[0], b[1], b[2], b[3]]);
        let mut out = [0u64; N];
        out[0] = result[0];
        out[1] = result[1];
        out[2] = result[2];
        out[3] = result[3];
        proof {
            assert(out@ =~= result@);
            assert(a@ =~= seq![a[0], a[1], a[2], a[3]]);
            assert(b@ =~= seq![b[0], b[1], b[2], b[3]]);
        }
        return (out, carry);
    }
    let mut out = [0u64; N];
    let mut carry = false;
    let mut i: usize = 0;
    proof {
        assert(limbs_value(out@.take(0)) == 0);
        assert(limbs_value(a@.take(0)) == 0);
        assert(limbs_value(b@.take(0)) == 0);
    }
    while i < N
        invariant
            0 <= i <= N,
            limbs_value(out@.take(i as int)) + base_pow(i as nat) * bool_to_nat(carry)
                == limbs_value(a@.take(i as int)) + limbs_value(b@.take(i as int)),
        decreases N - i,
    {
        let (s, c) = adc(a[i], b[i], carry);
        proof {
            lemma_value_take_succ(a@, i as int);
            lemma_value_take_succ(b@, i as int);
            let o2 = out@.update(i as int, s);
            lemma_value_take_succ(o2, i as int);
            assert(o2.take(i as int) =~= out@.take(i as int));
            lemma_carry_step(
                limbs_value(out@.take(i as int)) as int,
                limbs_value(a@.take(i as int)) as int,
                limbs_value(b@.take(i as int)) as int,
                base_pow(i as nat) as int,
                s as int,
                bool_to_nat(carry) as int,
                bool_to_nat(c) as int,
                a[i as int] as int,
                b[i as int] as int,
            );
            lemma_base_pow_succ(i as nat);
        }
        out[i] = s;
        carry = c;
        i = i + 1;
    }
    proof {
        lemma_value_take_full(out@);
        lemma_value_take_full(a@);
        lemma_value_take_full(b@);
    }
    (out, carry)
}

/// Little-endian subtraction of two limb arrays, with the borrow out of the top limb.
pub fn sub_raw<const N: usize>(a: [u64; N], b: [u64; N]) -> (r: ([u64; N], bool))
    ensures
        limbs_value(r.0@) - base_pow(N as nat) * bool_to_nat(r.1) == limbs_value(a@)
            - limbs_value(b@),
{
    if N == 4 {
        let (result, borrow) = sub_raw_4([a[0], a[1], a[2], a[3]], [b[0], b[1], b[2], b[3]]);
        let mut out = [0u64; N];
        out[0] = result[0];
        out[1] = result[1];
        out[2] = result[2];
        out[3] = result[3];
        proof {
            assert(out@ =~= result@);
            assert(a@ =~= seq![a[0], a[1], a[2], a[3]]);
            assert(b@ =~= seq![b[0], b[1], b[2], b[3]]);
        }
        return (out, borrow);
    }
    let mut out = [0u64; N];
    let mut borrow = false;
    let mut i: usize = 0;
    proof {
        assert(limbs_value(out@.take(0)) == 0);
        assert(limbs_value(a@.take(0)) == 0);
        assert(limbs_value(b@.take(0)) == 0);
    }
    while i < N
        invariant
            0 <= i <= N,
            limbs_value(out@.take(i as int)) - base_pow(i as nat) * bool_to_nat(borrow)
                == limbs_value(a@.take(i as int)) - limbs_value(b@.take(i as int)),
        decreases N - i,
    {
        let (s, c) = sbb(a[i], b[i], borrow);
        proof {
            lemma_value_take_succ(a@, i as int);
            lemma_value_take_succ(b@, i as int);
            let o2 = out@.update(i as int, s);
            lemma_value_take_succ(o2, i as int);
            assert(o2.take(i as int) =~= out@.take(i as int));
            lemma_borrow_step(
                limbs_value(out@.take(i as int)) as int,
                limbs_value(a@.take(i as int)) as int,
                limbs_value(b@.take(i as int)) as int,
                base_pow(i as nat) as int,
                s as int,
                bool_to_nat(borrow) as int,
                bool_to_nat(c) as int,
                a[i as int] as int,
                b[i as int] as int,
            );
            lemma_base_pow_succ(i as nat);
        }
        out[i] = s;
        borrow = c;
        i = i + 1;
    }
    proof {
        lemma_value_take_full(out@);
        lemma_value_take_full(a@);
        lemma_value_take_full(b@);
    }
    (out, borrow)
}

/// Four-limb addition through 128-bit intermediate sums.
pub fn add_raw_4(a: [u64; 4], b: [u64; 4]) -> (r: ([u64; 4], bool))
    ensures
        limbs_value(r.0@) + base_pow(4) * bool_to_nat(r.1) == limbs_value(a@) + limbs_value(b@),
{
    let w: u128 = 0x1_0000_0000_0000_0000u128;
    let sum0: u128 = a[0] as u128 + b[0] as u128;
    let z0: u64 = (sum0 % w) as u64;
    let sum1: u128 = a[1] as u128 + b[1] as u128 + sum0 / w;
    let z1: u64 = (sum1 % w) as u64;
    let sum2: u128 = a[2] as u128 + b[2] as u128 + sum1 / w;
    let z2: u64 = (sum2 % w) as u64;
    let sum3: u128 = a[3] as u128 + b[3] as u128 + sum2 / w;
    let z3: u64 = (sum3 % w) as u64;
    let out = [z0, z1, z2, z3];
    proof {
        lemma_value_4(out@);
        lemma_value_4(a@);
        lemma_value_4(b@);
        lemma_base_pow_small();
    }
    (out, sum3 / w != 0)
}

/// Four-limb subtraction with a borrow chain.
pub fn sub_raw_4(a: [u64; 4], b: [u64; 4]) -> (r: ([u64; 4], bool))
    ensures
        limbs_value(r.0@) - base_pow(4) * bool_to_nat(r.1) == limbs_value(a@) - limbs_value(b@),
{
    let (z0, b0) = sbb(a[0], b[0], false);
    let (z1, b1) = sbb(a[1], b[1], b0);
    let (z2, b2) = sbb(a[2], b[2], b1);
    let (z3, b3) = sbb(a[3], b[3], b2);
    let out = [z0, z1, z2, z3];
    proof {
        lemma_value_4(out@);
        lemma_value_4(a@);
        lemma_value_4(b@);
        lemma_base_pow_small();
    }
    (out, b3)
}


/// Limb sequences of one length with the same value are equal.
pub proof fn lemma_value_injective(a: Seq<u64>, b: Seq<u64>)
    requires
        a.len() == b.len(),
        limbs_value(a) == limbs_value(b),
    ensures
        a == b,
    decreases a.len(),
{
    if a.len() == 0 {
        assert(a =~= b);
    } else {
        let n = (a.len() - 1) as nat;
        let pw = base_pow(n) as int;
        lemma_value_bound(a.drop_last());
        lemma_value_bound(b.drop_last());
        lemma_base_pow_positive(n);
        lemma_mul_is_commutative(a.last() as int, pw);
        lemma_mul_is_commutative(b.last() as int, pw);
        lemma_fundamental_div_mod_converse(
            limbs_value(a) as int,
            pw,
            a.last() as int,
            limbs_value(a.drop_last()) as int,
        );
        lemma_fundamental_div_mod_converse(
            limbs_value(b) as int,
            pw,
            b.last() as int,
            limbs_value(b.drop_last()) as int,
        );
        lemma_value_injective(a.drop_last(), b.drop_last());
        assert(a =~= a.drop_last().push(a.last()));
        assert(b =~= b.drop_last().push(b.last()));
    }
}

/// Compares two limb arrays as little-endian integers.
pub fn cmp_limbs<const N: usize>(a: &[u64; N], b: &[u64; N]) -> (r: Ordering)
    ensures
        (r == Ordering::Less) == (limbs_value(a@) < limbs_value(b@)),
        (r == Ordering::Equal) == (limbs_value(a@) == limbs_value(b@)),
        (r == Ordering::Greater) == (limbs_value(a@) > limbs_value(b@)),
{
    let mut i: usize = N;
    proof {
        assert(a@.skip(idx(i)) =~= b@.skip(idx(i)));
    }
    while i > 0
        invariant
            i <= N,
            a@.skip(idx(i)) == b@.skip(idx(i)),
        decreases i,
    {
        i = i - 1;
        if a[i] < b[i] {
            proof {
                lemma_value_lt_at(a@, b@, idx(i));
            }
            return Ordering::Less;
        }
        if a[i] > b[i] {
            proof {
                lemma_value_lt_at(b@, a@, idx(i));
            }
            return Ordering::Greater;
        }
        proof {
            lemma_skip_extend(a@, b@, idx(i));
        }
    }
    proof {
        assert(a@ =~= a@.skip(0));
        assert(b@ =~= b@.skip(0));
    }
    Ordering::Equal
}


/// The low limb of a product: `(a * b) mod 2^64`.
pub fn mul_lo(a: u64, b: u64) -> (r: u64)
    ensures
        r == (a * b) % (limb_base() as int),
{
    proof {
        assert(a * b <= 0xffff_ffff_ffff_fffe_0000_0000_0000_0001) by (nonlinear_arith)
            requires
                a <= 0xffff_ffff_ffff_ffff,
                b <= 0xffff_ffff_ffff_ffff,
        ;
    }
    let s: u128 = (a as u128) * (b as u128);
    (s % 0x1_0000_0000_0000_0000u128) as u64
}

/// Subtracts the modulus once when the value is not already below it.
pub fn sub_modulus_if_needed<const N: usize>(x: [u64; N], modulus: [u64; N]) -> (r: [u64; N])
    requires
        limbs_value(x@) < 2 * limbs_value(modulus@),
    ensures
        limbs_value(x@) >= limbs_value(modulus@) ==> limbs_value(r@) == limbs_value(x@)
            - limbs_value(modulus@),
        limbs_value(x@) < limbs_value(modulus@) ==> r == x,
        limbs_value(r@) < limbs_value(modulus@),
{
    let c = cmp_limbs(&x, &modulus);
    match c {
        Ordering::Less => x,
        _ => {
            assert(c != Ordering::Less);
            let (d, borrow) = sub_raw(x, modulus);
            proof {
                assert(d@.len() == N);
                lemma_value_bound(d@);
                assert(limbs_value(x@) >= limbs_value(modulus@));
                assert(limbs_value(d@) < base_pow(nat_of(N)));
                lemma_times_bool(base_pow(nat_of(N)), borrow);
                if borrow {
                    assert(false);
                }
            }
            d
        },
    }
}

} // verus!
