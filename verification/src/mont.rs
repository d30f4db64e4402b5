//! Montgomery multiplication and reduction (CIOS form) over `N` limbs.

use crate::limbs::{
    adc, base_pow, bool_to_nat, idx, lemma_base_pow_monotone, lemma_base_pow_positive,
    lemma_base_pow_small, lemma_base_pow_succ, lemma_value_bound, lemma_value_first, lemma_value_split,
    lemma_value_take_full, lemma_value_take_succ, lemma_value_update, limb_base, limbs_value, mac,
    mul_lo, nat_of, sub_modulus_if_needed,
};
use vstd::arithmetic::div_mod::*;
use vstd::arithmetic::mul::*;
use vstd::prelude::*;

verus! {

/// What Montgomery arithmetic needs of a modulus `p` and of `inv`:
/// `p > 1`, `2p <= 2^(64 N)` and `p[0] * inv == -1 (mod 2^64)`.
pub open spec fn mont_modulus_ok(m: Seq<u64>, inv: u64) -> bool {
    &&& m.len() >= 1
    &&& limbs_value(m) > 1
    &&& 2 * limbs_value(m) <= base_pow(m.len())
    &&& (m[0] * inv) % (limb_base() as int) == limb_base() - 1
}

/// Scratch space of `N + 2` limbs used while reducing.
#[derive(Clone, Copy)]
pub struct MontScratch<const N: usize> {
    pub limbs: [u64; N],
    pub extra: [u64; 2],
}

impl<const N: usize> MontScratch<N> {
    /// All `N + 2` limbs, least significant first.
    pub open spec fn words(&self) -> Seq<u64> {
        self.limbs@ + self.extra@
    }

    /// The all-zero scratch.
    pub fn zeroed() -> (r: Self)
        ensures
            r.words().len() == N + 2,
            forall|i: int| 0 <= i < N + 2 ==> r.words()[i] == 0,
            limbs_value(r.words()) == 0,
    {
        let r = Self { limbs: [0u64; N], extra: [0u64; 2] };
        proof {
            vstd::array::axiom_spec_array_fill_for_copy_type::<u64, N>(0u64);
            vstd::array::axiom_spec_array_fill_for_copy_type::<u64, 2>(0u64);
            assert forall|i: int| 0 <= i < N + 2 implies r.words()[i] == 0 by {
                if i < N {
                    assert(r.words()[i] == r.limbs@[i]);
                } else {
                    assert(r.words()[i] == r.extra@[i - N]);
                }
            }
            lemma_value_all_zero(r.words());
        }
        r
    }

    /// Reads limb `index` (the first `N` live in `limbs`, the last two in `extra`).
    pub fn get(&self, index: usize) -> (r: u64)
        requires
            index < N + 2,
        ensures
            r == self.words()[idx(index)],
    {
        if index < N {
            self.limbs[index]
        } else {
            self.extra[index - N]
        }
    }

    /// Writes limb `index`.
    pub fn set(&mut self, index: usize, value: u64)
        requires
            index < N + 2,
        ensures
            final(self).words() == old(self).words().update(idx(index), value),
    {
        if index < N {
            self.limbs[index] = value;
        } else {
            self.extra[index - N] = value;
        }
        proof {
            assert(final(self).words() =~= old(self).words().update(idx(index), value));
        }
    }
}

pub proof fn lemma_value_all_zero(s: Seq<u64>)
    requires
        forall|i: int| 0 <= i < s.len() ==> s[i] == 0,
    ensures
        limbs_value(s) == 0,
    decreases s.len(),
{
    if s.len() > 0 {
        lemma_value_all_zero(s.drop_last());
    }
}

/// Adds `carry * 2^(64 N)` into the two high limbs.
pub fn add_to_high_word<const N: usize>(t: &mut MontScratch<N>, carry: u64)
    requires
        N <= 0x10_0000,
        limbs_value(old(t).words()) + carry * base_pow(nat_of(N)) < base_pow(nat_of(N) + 2),
    ensures
        limbs_value(final(t).words()) == limbs_value(old(t).words()) + carry * base_pow(nat_of(N)),
{
    let ghost total = limbs_value(t.words()) + carry * base_pow(nat_of(N));
    let mut carry = carry;
    let mut k: usize = N;
    while carry != 0
        invariant
            N <= k <= N + 2,
            N <= 0x10_0000,
            t.words().len() == N + 2,
            limbs_value(t.words()) + carry * base_pow(nat_of(k)) == total,
            total < base_pow(nat_of(N) + 2),
        decreases N + 2 - k,
    {
        proof {
            if k == N + 2 {
                lemma_base_pow_monotone(nat_of(N) + 2, nat_of(k));
                lemma_mul_increases(carry as int, base_pow(nat_of(k)) as int);
                assert(false);
            }
        }
        let old_word = t.get(k);
        let (sum, overflow) = adc(old_word, carry, false);
        let ghost before = t.words();
        t.set(k, sum);
        proof {
            lemma_value_update(before, idx(k), sum);
            lemma_base_pow_succ(nat_of(k));
            lemma_high_word_step(
                limbs_value(before) as int,
                limbs_value(t.words()) as int,
                base_pow(nat_of(k)) as int,
                old_word as int,
                sum as int,
                carry as int,
                bool_to_nat(overflow) as int,
            );
        }
        carry = if overflow {
            1
        } else {
            0
        };
        k = k + 1;
    }
    proof {
        lemma_mul_basics(base_pow(nat_of(k)) as int);
    }
}

proof fn lemma_high_word_step(
    before: int,
    after: int,
    p: int,
    old_word: int,
    sum: int,
    carry: int,
    overflow: int,
)
    by (nonlinear_arith)
    requires
        after + old_word * p == before + sum * p,
        sum + limb_base() * overflow == old_word + carry,
    ensures
        after + overflow * (p * limb_base()) == before + carry * p,
{
}

/// Shifts the scratch down by one limb, filling the top with zero.
pub fn shift_scratch<const N: usize>(t: &mut MontScratch<N>)
    requires
        N <= 0x10_0000,
    ensures
        final(t).words() == old(t).words().drop_first().push(0u64),
{
    let ghost orig = t.words();
    let mut j: usize = 0;
    while j <= N
        invariant
            j <= N + 1,
            N <= 0x10_0000,
            t.words().len() == N + 2,
            orig.len() == N + 2,
            forall|i: int| 0 <= i < j ==> t.words()[i] == orig[i + 1],
            forall|i: int| j <= i < N + 2 ==> t.words()[i] == orig[i],
        decreases N + 1 - j,
    {
        let next = t.get(j + 1);
        t.set(j, next);
        j = j + 1;
    }
    t.set(N + 1, 0);
    proof {
        assert(t.words() =~= orig.drop_first().push(0u64));
    }
}

/// A trailing zero limb does not change the value.
pub proof fn lemma_value_push_zero(s: Seq<u64>)
    ensures
        limbs_value(s.push(0u64)) == limbs_value(s),
{
    assert(s.push(0u64).drop_last() =~= s);
    lemma_mul_basics(base_pow(s.len()) as int);
}


proof fn lemma_row_step(vt: int, c: int, p: int, v0: int, x: int, vy: int, lo: int, hi: int, yj: int, tj: int)
    by (nonlinear_arith)
    requires
        vt + c * p == v0 + x * vy,
        lo + limb_base() * hi == x * yj + c + tj,
    ensures
        (vt + lo * p) + hi * (p * limb_base()) == (v0 + tj * p) + x * (vy + yj * p),
{
}

/// `t[0..N] += x * y`; returns the carry out of limb `N - 1` and leaves the two
/// high limbs untouched.
pub fn mul_add_row<const N: usize>(t: &mut MontScratch<N>, x: u64, y: &[u64; N]) -> (carry: u64)
    requires
        N <= 0x10_0000,
    ensures
        final(t).words().len() == N + 2,
        limbs_value(final(t).words()) + carry * base_pow(nat_of(N)) == limbs_value(old(t).words())
            + x * limbs_value(y@),
        final(t).words()[idx(N)] == old(t).words()[idx(N)],
        final(t).words()[idx(N) + 1] == old(t).words()[idx(N) + 1],
{
    let ghost t0 = t.words();
    let mut carry: u64 = 0;
    let mut j: usize = 0;
    proof {
        assert(limbs_value(t.words().take(0)) == 0);
        assert(limbs_value(t0.take(0)) == 0);
        assert(limbs_value(y@.take(0)) == 0);
        lemma_mul_basics(x as int);
    }
    while j < N
        invariant
            j <= N,
            N <= 0x10_0000,
            t.words().len() == N + 2,
            t0.len() == N + 2,
            limbs_value(t.words().take(idx(j))) + carry * base_pow(nat_of(j)) == limbs_value(
                t0.take(idx(j)),
            ) + x * limbs_value(y@.take(idx(j))),
            forall|i: int| idx(j) <= i < N + 2 ==> t.words()[i] == t0[i],
        decreases N - j,
    {
        let tj = t.get(j);
        let (lo, hi) = mac(x, y[j], carry, tj);
        let ghost before = t.words();
        t.set(j, lo);
        proof {
            lemma_value_take_succ(t.words(), idx(j));
            assert(t.words().take(idx(j)) =~= before.take(idx(j)));
            lemma_value_take_succ(t0, idx(j));
            lemma_value_take_succ(y@, idx(j));
            lemma_base_pow_succ(nat_of(j));
            lemma_row_step(
                limbs_value(before.take(idx(j))) as int,
                carry as int,
                base_pow(nat_of(j)) as int,
                limbs_value(t0.take(idx(j))) as int,
                x as int,
                limbs_value(y@.take(idx(j))) as int,
                lo as int,
                hi as int,
                y[idx(j)] as int,
                tj as int,
            );
        }
        carry = hi;
        j = j + 1;
    }
    proof {
        let w = t.words();
        lemma_value_split(w, idx(N));
        lemma_value_split(t0, idx(N));
        assert(w.skip(idx(N)) =~= t0.skip(idx(N)));
        lemma_value_take_full(y@);
        lemma_mul_is_distributive_add(
            base_pow(nat_of(N)) as int,
            limbs_value(w.take(idx(N))) as int,
            limbs_value(w.skip(idx(N))) as int,
        );
    }
    carry
}

/// The value of a limb sequence modulo `2^64` is its lowest limb.
pub proof fn lemma_value_mod_base(s: Seq<u64>)
    requires
        s.len() >= 1,
    ensures
        limbs_value(s) % limb_base() == s[0],
{
    lemma_value_first(s);
    lemma_mod_multiples_vanish(
        limbs_value(s.drop_first()) as int,
        s[0] as int,
        limb_base() as int,
    );
    lemma_small_mod(s[0] as nat, limb_base());
    lemma_mul_is_commutative(limb_base() as int, limbs_value(s.drop_first()) as int);
}

/// With `m = t0 * inv mod 2^64`, adding `m * p` clears the low limb.
pub proof fn lemma_low_limb_cancels(tv: int, t0: int, p: int, p0: int, inv: int, m: int)
    requires
        tv >= 0,
        0 <= t0 < limb_base(),
        tv % (limb_base() as int) == t0,
        p % (limb_base() as int) == p0,
        m == (t0 * inv) % (limb_base() as int),
        (p0 * inv) % (limb_base() as int) == limb_base() - 1,
    ensures
        (tv + m * p) % (limb_base() as int) == 0,
{
    let b = limb_base() as int;
    lemma_add_mod_noop(tv, m * p, b);
    lemma_mul_mod_noop_right(m, p, b);
    lemma_mul_mod_noop_left(t0 * inv, p0, b);
    lemma_mul_is_associative(t0, inv, p0);
    lemma_mul_is_commutative(inv, p0);
    lemma_mul_mod_noop_right(t0, p0 * inv, b);
    // now (m * p) % b == (t0 * (b - 1)) % b
    assert((m * p) % b == (t0 * (b - 1)) % b);
    lemma_mul_is_distributive_sub(t0, b, 1);
    lemma_add_mod_noop(t0, t0 * (b - 1), b);
    lemma_small_mod(t0 as nat, b as nat);
    lemma_mod_multiples_basic(t0, b);
    lemma_mul_is_commutative(t0, b);
}

/// After a shift, the value has been divided by `2^64` exactly.
pub proof fn lemma_shift_value(s: Seq<u64>)
    requires
        s.len() >= 1,
        s[0] == 0,
    ensures
        limbs_value(s.drop_first().push(0u64)) * limb_base() == limbs_value(s),
{
    lemma_value_first(s);
    lemma_value_push_zero(s.drop_first());
    lemma_mul_is_commutative(limb_base() as int, limbs_value(s.drop_first()) as int);
}

proof fn lemma_reduce_step(tv: int, pw: int, t_in: int, k: int, p: int, m: int, t3: int)
    by (nonlinear_arith)
    requires
        tv * pw == t_in + k * p,
        0 <= k < pw,
        0 <= m < limb_base(),
        t3 * limb_base() == tv + m * p,
    ensures
        t3 * (pw * limb_base()) == t_in + (k + m * pw) * p,
        0 <= k + m * pw < pw * limb_base(),
{
}

proof fn lemma_reduce_bound(tv: int, pw: int, t_in: int, k: int, p: int)
    requires
        tv * pw == t_in + k * p,
        0 <= k < pw,
        pw >= 1,
        t_in >= 0,
        p >= 0,
        tv >= 0,
    ensures
        tv <= t_in + p,
{
    if tv > t_in + p {
        assert(tv * pw >= (t_in + p + 1) * pw) by (nonlinear_arith)
            requires
                tv >= t_in + p + 1,
                pw >= 1,
        ;
        assert((t_in + p + 1) * pw >= t_in + p * pw + pw) by (nonlinear_arith)
            requires
                pw >= 1,
                t_in >= 0,
        ;
        assert(k * p <= pw * p) by (nonlinear_arith)
            requires
                k < pw,
                p >= 0,
        ;
    }
}

proof fn lemma_reduce_final_bound(tv: int, pw: int, t_in: int, k: int, p: int)
    by (nonlinear_arith)
    requires
        tv * pw == t_in + k * p,
        0 <= k < pw,
        0 <= t_in < pw * p,
        p >= 1,
    ensures
        tv < 2 * p,
{
}

/// When the value fits below `2^(64 N)`, the two high scratch limbs are zero and
/// the low `N` limbs carry the whole value.
pub proof fn lemma_scratch_low_part<const N: usize>(t: MontScratch<N>)
    requires
        limbs_value(t.words()) < base_pow(nat_of(N)),
    ensures
        limbs_value(t.limbs@) == limbs_value(t.words()),
{
    let w = t.words();
    lemma_value_split(w, idx(N));
    assert(w.take(idx(N)) =~= t.limbs@);
    lemma_base_pow_positive(nat_of(N));
    if limbs_value(w.skip(idx(N))) > 0 {
        lemma_mul_increases(limbs_value(w.skip(idx(N))) as int, base_pow(nat_of(N)) as int);
        lemma_mul_is_commutative(limbs_value(w.skip(idx(N))) as int, base_pow(nat_of(N)) as int);
        assert(false);
    }
    lemma_mul_basics(base_pow(nat_of(N)) as int);
}

/// After the final subtraction, the Montgomery relation holds modulo `p`.
pub proof fn lemma_final_congruence(r: int, tv: int, pw: int, t_in: int, k: int, p: int)
    requires
        p > 0,
        tv * pw == t_in + k * p,
        r == tv || r == tv - p,
    ensures
        (r * pw) % p == t_in % p,
{
    if r == tv {
        lemma_mod_multiples_vanish(k, t_in, p);
        lemma_mul_is_commutative(k, p);
    } else {
        lemma_mul_is_distributive_sub_other_way(pw, tv, p);
        assert(r * pw == t_in + (k - pw) * p) by (nonlinear_arith)
            requires
                tv * pw == t_in + k * p,
                r == tv - p,
        ;
        lemma_mod_multiples_vanish(k - pw, t_in, p);
        lemma_mul_is_commutative(k - pw, p);
    }
}

/// Montgomery reduction of the scratch value `T`: returns `r < p` with
/// `r * 2^(64 N) == T (mod p)`.
pub fn mont_reduce_scratch<const N: usize>(t: MontScratch<N>, modulus: [u64; N], mont_inv: u64) -> (r: [u64; N])
    requires
        N <= 0x10_0000,
        mont_modulus_ok(modulus@, mont_inv),
        limbs_value(t.words()) < base_pow(nat_of(N) + 1),
        limbs_value(t.words()) < base_pow(nat_of(N)) * limbs_value(modulus@),
    ensures
        limbs_value(r@) < limbs_value(modulus@),
        (limbs_value(r@) * base_pow(nat_of(N))) % limbs_value(modulus@) == limbs_value(t.words())
            % limbs_value(modulus@),
{
    let ghost p = limbs_value(modulus@) as int;
    let ghost t_in = limbs_value(t.words()) as int;
    let ghost mut k: int = 0;
    let mut t = t;
    let mut i: usize = 0;
    proof {
        lemma_mul_basics(t_in);
        lemma_mul_basics(p);
        assert(base_pow(0) == 1);
    }
    while i < N
        invariant
            i <= N,
            N <= 0x10_0000,
            mont_modulus_ok(modulus@, mont_inv),
            p == limbs_value(modulus@),
            t.words().len() == N + 2,
            0 <= t_in < base_pow(nat_of(N) + 1),
            t_in < base_pow(nat_of(N)) * p,
            limbs_value(t.words()) * base_pow(nat_of(i)) == t_in + k * p,
            0 <= k < base_pow(nat_of(i)),
        decreases N - i,
    {
        let ghost tv = limbs_value(t.words()) as int;
        proof {
            lemma_base_pow_positive(nat_of(i));
            lemma_reduce_bound(tv, base_pow(nat_of(i)) as int, t_in, k, p);
        }
        let t0 = t.get(0);
        let m = mul_lo(t0, mont_inv);
        proof {
            lemma_value_mod_base(t.words());
            // m * p < 2^64 * 2^(64 N) / 2 and tv <= t_in + p, so the sum fits N + 2 limbs
            lemma_base_pow_succ(nat_of(N));
            lemma_base_pow_succ(nat_of(N) + 1);
            assert(m * p <= (limb_base() - 1) * p) by (nonlinear_arith)
                requires
                    m < limb_base(),
                    p >= 0,
            ;
            assert((limb_base() - 1) * p <= limb_base() * p) by (nonlinear_arith)
                requires
                    p >= 0,
            ;
            assert(limb_base() * (2 * p) <= limb_base() * base_pow(nat_of(N))) by (nonlinear_arith)
                requires
                    2 * p <= base_pow(nat_of(N)),
            ;
        }
        let carry = mul_add_row(&mut t, m, &modulus);
        proof {
            assert(limbs_value(t.words()) + carry * base_pow(nat_of(N)) == tv + m * p);
        }
        add_to_high_word(&mut t, carry);
        proof {
            let w0 = t.words()[0];
            lemma_value_mod_base(t.words());
            lemma_value_mod_base(modulus@);
            // the row added m * p to tv, whose low limb was t0
            let before_words = t.words();
            assert(t0 == (tv % (limb_base() as int)));
            lemma_low_limb_cancels(tv, t0 as int, p, modulus[0] as int, mont_inv as int, m as int);
            assert(w0 == 0);
        }
        let ghost t2 = t.words();
        shift_scratch(&mut t);
        proof {
            lemma_shift_value(t2);
            lemma_reduce_step(
                tv,
                base_pow(nat_of(i)) as int,
                t_in,
                k,
                p,
                m as int,
                limbs_value(t.words()) as int,
            );
            lemma_base_pow_succ(nat_of(i));
            k = k + m * base_pow(nat_of(i));
        }
        i = i + 1;
    }
    proof {
        let tv = limbs_value(t.words()) as int;
        lemma_reduce_final_bound(tv, base_pow(nat_of(N)) as int, t_in, k, p);
        lemma_scratch_low_part(t);
    }
    let result = sub_modulus_if_needed(t.limbs, modulus);
    proof {
        lemma_final_congruence(
            limbs_value(result@) as int,
            limbs_value(t.words()) as int,
            base_pow(nat_of(N)) as int,
            t_in,
            k,
            p,
        );
    }
    result
}


proof fn lemma_mul_step(tv: int, pw: int, va: int, vb: int, k: int, p: int, ai: int, m: int, t3: int)
    requires
        tv * pw == va * vb + k * p,
        0 <= k < pw,
        0 <= m < limb_base(),
        t3 * limb_base() == tv + ai * vb + m * p,
    ensures
        t3 * (pw * limb_base()) == (va + ai * pw) * vb + (k + m * pw) * p,
        0 <= k + m * pw < pw * limb_base(),
{
    let b = limb_base() as int;
    assert(t3 * (pw * b) == (t3 * b) * pw) by (nonlinear_arith);
    assert((tv + ai * vb + m * p) * pw == tv * pw + (ai * pw) * vb + (m * pw) * p)
        by (nonlinear_arith);
    assert((va + ai * pw) * vb + (k + m * pw) * p == va * vb + k * p + (ai * pw) * vb + (m * pw)
        * p) by (nonlinear_arith);
    assert(m * pw <= (b - 1) * pw) by (nonlinear_arith)
        requires
            m <= b - 1,
            pw >= 0,
    ;
    assert((b - 1) * pw + pw == pw * b) by (nonlinear_arith);
    assert(m * pw >= 0) by (nonlinear_arith)
        requires
            m >= 0,
            pw >= 0,
    ;
}

proof fn lemma_mul_bound(tv: int, pw: int, va: int, vb: int, k: int, p: int)
    requires
        tv * pw == va * vb + k * p,
        0 <= k < pw,
        0 <= va < pw,
        0 <= vb < p,
        tv >= 0,
    ensures
        tv < vb + p,
{
    if tv >= vb + p {
        assert(tv * pw >= (vb + p) * pw) by (nonlinear_arith)
            requires
                tv >= vb + p,
                pw >= 1,
        ;
        assert(va * vb <= pw * vb) by (nonlinear_arith)
            requires
                va < pw,
                vb >= 0,
        ;
        assert(k * p < pw * p) by (nonlinear_arith)
            requires
                k < pw,
                p >= 1,
        ;
        assert((vb + p) * pw == pw * vb + pw * p) by (nonlinear_arith);
    }
}

/// Montgomery product over `N` limbs: `r < p` and `r * 2^(64 N) == a * b (mod p)`.
pub fn mont_mul_generic<const N: usize>(
    a: [u64; N],
    b: [u64; N],
    modulus: [u64; N],
    mont_inv: u64,
) -> (r: [u64; N])
    requires
        N <= 0x10_0000,
        mont_modulus_ok(modulus@, mont_inv),
        limbs_value(b@) < limbs_value(modulus@),
    ensures
        limbs_value(r@) < limbs_value(modulus@),
        (limbs_value(r@) * base_pow(nat_of(N))) % limbs_value(modulus@) == (limbs_value(a@)
            * limbs_value(b@)) % limbs_value(modulus@),
{
    let ghost p = limbs_value(modulus@) as int;
    let ghost vb = limbs_value(b@) as int;
    let ghost mut k: int = 0;
    let mut t = MontScratch::<N>::zeroed();
    let mut i: usize = 0;
    proof {
        assert(limbs_value(a@.take(0)) == 0);
        lemma_mul_basics(vb);
        lemma_mul_basics(p);
        assert(base_pow(0) == 1);
    }
    while i < N
        invariant
            i <= N,
            N <= 0x10_0000,
            mont_modulus_ok(modulus@, mont_inv),
            p == limbs_value(modulus@),
            vb == limbs_value(b@),
            vb < p,
            t.words().len() == N + 2,
            limbs_value(t.words()) * base_pow(nat_of(i)) == limbs_value(a@.take(idx(i))) * vb + k * p,
            0 <= k < base_pow(nat_of(i)),
        decreases N - i,
    {
        let ghost tv = limbs_value(t.words()) as int;
        let ghost va = limbs_value(a@.take(idx(i))) as int;
        proof {
            lemma_base_pow_positive(nat_of(i));
            lemma_value_bound(a@.take(idx(i)));
            lemma_mul_bound(tv, base_pow(nat_of(i)) as int, va, vb, k, p);
            lemma_base_pow_succ(nat_of(N));
            lemma_base_pow_succ(nat_of(N) + 1);
            assert(a[idx(i)] * vb <= (limb_base() - 1) * p) by (nonlinear_arith)
                requires
                    a[idx(i)] < limb_base(),
                    0 <= vb < p,
            ;
            assert(limb_base() * (2 * p) <= limb_base() * base_pow(nat_of(N))) by (nonlinear_arith)
                requires
                    2 * p <= base_pow(nat_of(N)),
            ;
            assert((limb_base() - 1) * p + (limb_base() - 1) * p + 2 * p == limb_base() * (2 * p))
                by (nonlinear_arith);
        }
        let ai = a[i];
        let carry = mul_add_row(&mut t, ai, &b);
        add_to_high_word(&mut t, carry);
        let ghost t1 = limbs_value(t.words()) as int;
        let t0 = t.get(0);
        let m = mul_lo(t0, mont_inv);
        proof {
            lemma_value_mod_base(t.words());
            assert(m * p <= (limb_base() - 1) * p) by (nonlinear_arith)
                requires
                    m < limb_base(),
                    p >= 0,
            ;
        }
        let carry = mul_add_row(&mut t, m, &modulus);
        add_to_high_word(&mut t, carry);
        proof {
            lemma_value_mod_base(modulus@);
            lemma_low_limb_cancels(t1, t0 as int, p, modulus[0] as int, mont_inv as int, m as int);
            lemma_value_mod_base(t.words());
        }
        let ghost t2 = t.words();
        shift_scratch(&mut t);
        proof {
            lemma_shift_value(t2);
            lemma_value_take_succ(a@, idx(i));
            lemma_mul_step(
                tv,
                base_pow(nat_of(i)) as int,
                va,
                vb,
                k,
                p,
                ai as int,
                m as int,
                limbs_value(t.words()) as int,
            );
            lemma_base_pow_succ(nat_of(i));
            k = k + m * base_pow(nat_of(i));
        }
        i = i + 1;
    }
    proof {
        let tv = limbs_value(t.words()) as int;
        lemma_value_take_full(a@);
        lemma_value_bound(a@);
        lemma_mul_bound(tv, base_pow(nat_of(N)) as int, limbs_value(a@) as int, vb, k, p);
        lemma_scratch_low_part(t);
    }
    let result = sub_modulus_if_needed(t.limbs, modulus);
    proof {
        lemma_final_congruence(
            limbs_value(result@) as int,
            limbs_value(t.words()) as int,
            base_pow(nat_of(N)) as int,
            limbs_value(a@) * vb,
            k,
            p,
        );
    }
    result
}

/// Four-limb Montgomery product: `r < p` and `r * 2^256 == a * b (mod p)`.
pub fn mont_mul_4(a: [u64; 4], b: [u64; 4], modulus: [u64; 4], mont_inv: u64) -> (r: [u64; 4])
    requires
        mont_modulus_ok(modulus@, mont_inv),
        limbs_value(b@) < limbs_value(modulus@),
    ensures
        limbs_value(r@) < limbs_value(modulus@),
        (limbs_value(r@) * base_pow(4)) % limbs_value(modulus@) == (limbs_value(a@)
            * limbs_value(b@)) % limbs_value(modulus@),
{
    let ghost p = limbs_value(modulus@) as int;
    let ghost vb = limbs_value(b@) as int;
    let ghost mut k: int = 0;
    let mut t = MontScratch::<4>::zeroed();
    let mut i: usize = 0;
    proof {
        assert(limbs_value(a@.take(0)) == 0);
        lemma_mul_basics(vb);
        lemma_mul_basics(p);
        assert(base_pow(0) == 1);
    }
    while i < 4
        invariant
            i <= 4,
                mont_modulus_ok(modulus@, mont_inv),
            p == limbs_value(modulus@),
            vb == limbs_value(b@),
            vb < p,
            t.words().len() == 6,
            limbs_value(t.words()) * base_pow(nat_of(i)) == limbs_value(a@.take(idx(i))) * vb + k * p,
            0 <= k < base_pow(nat_of(i)),
        decreases 4 - i,
    {
        let ghost tv = limbs_value(t.words()) as int;
        let ghost va = limbs_value(a@.take(idx(i))) as int;
        proof {
            lemma_base_pow_positive(nat_of(i));
            lemma_value_bound(a@.take(idx(i)));
            lemma_mul_bound(tv, base_pow(nat_of(i)) as int, va, vb, k, p);
            lemma_base_pow_succ(4);
            lemma_base_pow_succ(4 + 1);
            assert(a[idx(i)] * vb <= (limb_base() - 1) * p) by (nonlinear_arith)
                requires
                    a[idx(i)] < limb_base(),
                    0 <= vb < p,
            ;
            assert(limb_base() * (2 * p) <= limb_base() * base_pow(4)) by (nonlinear_arith)
                requires
                    2 * p <= base_pow(4),
            ;
            assert((limb_base() - 1) * p + (limb_base() - 1) * p + 2 * p == limb_base() * (2 * p))
                by (nonlinear_arith);
        }
        let ai = a[i];
        let carry = mul_add_row(&mut t, ai, &b);
        add_to_high_word_4(&mut t, carry);
        let ghost t1 = limbs_value(t.words()) as int;
        let t0 = t.get(0);
        let m = mul_lo(t0, mont_inv);
        proof {
            lemma_value_mod_base(t.words());
            assert(m * p <= (limb_base() - 1) * p) by (nonlinear_arith)
                requires
                    m < limb_base(),
                    p >= 0,
            ;
        }
        let carry = mul_add_row(&mut t, m, &modulus);
        add_to_high_word_4(&mut t, carry);
        proof {
            lemma_value_mod_base(modulus@);
            lemma_low_limb_cancels(t1, t0 as int, p, modulus[0] as int, mont_inv as int, m as int);
            lemma_value_mod_base(t.words());
        }
        let ghost t2 = t.words();
        shift_scratch(&mut t);
        proof {
            lemma_shift_value(t2);
            lemma_value_take_succ(a@, idx(i));
            lemma_mul_step(
                tv,
                base_pow(nat_of(i)) as int,
                va,
                vb,
                k,
                p,
                ai as int,
                m as int,
                limbs_value(t.words()) as int,
            );
            lemma_base_pow_succ(nat_of(i));
            k = k + m * base_pow(nat_of(i));
        }
        i = i + 1;
    }
    proof {
        let tv = limbs_value(t.words()) as int;
        lemma_value_take_full(a@);
        lemma_value_bound(a@);
        lemma_mul_bound(tv, base_pow(4) as int, limbs_value(a@) as int, vb, k, p);
        lemma_scratch_low_part(t);
    }
    let result = sub_modulus_if_needed(t.limbs, modulus);
    proof {
        lemma_final_congruence(
            limbs_value(result@) as int,
            limbs_value(t.words()) as int,
            base_pow(4) as int,
            limbs_value(a@) * vb,
            k,
            p,
        );
    }
    result
}

/// Montgomery reduction of an `N`-limb value: `r < p` and `r * 2^(64 N) == a (mod p)`.
pub fn mont_reduce_generic<const N: usize>(a: [u64; N], modulus: [u64; N], mont_inv: u64) -> (r: [u64; N])
    requires
        N <= 0x10_0000,
        mont_modulus_ok(modulus@, mont_inv),
    ensures
        limbs_value(r@) < limbs_value(modulus@),
        (limbs_value(r@) * base_pow(nat_of(N))) % limbs_value(modulus@) == limbs_value(a@)
            % limbs_value(modulus@),
{
    let mut t = MontScratch::<N>::zeroed();
    let ghost z = t.words();
    t.limbs = a;
    proof {
        let w = t.words();
        let hi = w.skip(idx(N));
        assert forall|i: int| 0 <= i < hi.len() implies #[trigger] hi[i] == 0 by {
            assert(w.skip(idx(N))[i] == t.extra@[i]);
            assert(z[N + i] == t.extra@[i]);
        }
        lemma_value_split(w, idx(N));
        assert(w.take(idx(N)) =~= a@);
        lemma_value_all_zero(w.skip(idx(N)));
        lemma_mul_basics(base_pow(nat_of(N)) as int);
        lemma_value_bound(a@);
        lemma_base_pow_succ(nat_of(N));
        lemma_base_pow_positive(nat_of(N));
        lemma_mul_increases(limb_base() as int, base_pow(nat_of(N)) as int);
        lemma_mul_strict_inequality(1, limbs_value(modulus@) as int, base_pow(nat_of(N)) as int);
        lemma_mul_is_commutative(limbs_value(modulus@) as int, base_pow(nat_of(N)) as int);
    }
    mont_reduce_scratch(t, modulus, mont_inv)
}

/// Montgomery product of a single limb `a` with `b`.
pub fn mont_mul_limb<const N: usize>(a: u64, b: [u64; N], modulus: [u64; N], mont_inv: u64) -> (r: [u64; N])
    requires
        N <= 0x10_0000,
        mont_modulus_ok(modulus@, mont_inv),
        limbs_value(b@) < limbs_value(modulus@),
    ensures
        limbs_value(r@) < limbs_value(modulus@),
        (limbs_value(r@) * base_pow(nat_of(N))) % limbs_value(modulus@) == ((a as nat) * limbs_value(b@))
            % limbs_value(modulus@),
{
    if a == 0 {
        let z = [0u64; N];
        proof {
            lemma_value_all_zero(z@);
            lemma_mul_basics(base_pow(nat_of(N)) as int);
            lemma_mul_basics(limbs_value(b@) as int);
        }
        return z;
    }
    let mut t = MontScratch::<N>::zeroed();
    let carry = mul_add_row(&mut t, a, &b);
    proof {
        let p = limbs_value(modulus@) as int;
        let vb = limbs_value(b@) as int;
        lemma_base_pow_succ(nat_of(N));
        lemma_base_pow_succ(nat_of(N) + 1);
        lemma_base_pow_positive(nat_of(N));
        assert(a * vb < limb_base() * base_pow(nat_of(N))) by (nonlinear_arith)
            requires
                a < limb_base(),
                0 <= vb,
                2 * vb < base_pow(nat_of(N)),
        ;
        assert(limb_base() * base_pow(nat_of(N)) < limb_base() * (limb_base() * base_pow(
            nat_of(N),
        ))) by (nonlinear_arith)
            requires
                base_pow(nat_of(N)) >= 1,
        ;
        assert(base_pow(nat_of(N)) * base_pow(1) == base_pow(nat_of(N)) * limb_base()) by {
            assert(base_pow(1) == limb_base() * base_pow(0));
            lemma_mul_basics(limb_base() as int);
        }
        assert(a * vb < base_pow(nat_of(N)) * p) by (nonlinear_arith)
            requires
                a < limb_base(),
                0 <= vb < p,
                limb_base() <= base_pow(nat_of(N)),
        ;
        if N == 0 {
            assert(false);
        }
        lemma_base_pow_monotone(1, nat_of(N));
    }
    add_to_high_word(&mut t, carry);
    mont_reduce_scratch(t, modulus, mont_inv)
}

/// Montgomery product, dispatching to the unrolled four-limb code when `N == 4`.
pub fn mont_mul<const N: usize>(a: [u64; N], b: [u64; N], modulus: [u64; N], mont_inv: u64) -> (r: [u64; N])
    requires
        N <= 0x10_0000,
        mont_modulus_ok(modulus@, mont_inv),
        limbs_value(b@) < limbs_value(modulus@),
    ensures
        limbs_value(r@) < limbs_value(modulus@),
        (limbs_value(r@) * base_pow(nat_of(N))) % limbs_value(modulus@) == (limbs_value(a@)
            * limbs_value(b@)) % limbs_value(modulus@),
{
    if N == 4 {
        let a4 = [a[0], a[1], a[2], a[3]];
        let b4 = [b[0], b[1], b[2], b[3]];
        let modulus4 = [modulus[0], modulus[1], modulus[2], modulus[3]];
        proof {
            assert(a@ =~= a4@);
            assert(b@ =~= b4@);
            assert(modulus@ =~= modulus4@);
        }
        let result4 = mont_mul_4(a4, b4, modulus4, mont_inv);
        let mut out = [0u64; N];
        out[0] = result4[0];
        out[1] = result4[1];
        out[2] = result4[2];
        out[3] = result4[3];
        proof {
            assert(out@ =~= result4@);
        }
        return out;
    }
    mont_mul_generic(a, b, modulus, mont_inv)
}

/// Montgomery reduction, dispatching to the four-limb code when `N == 4`.
pub fn mont_reduce<const N: usize>(a: [u64; N], modulus: [u64; N], mont_inv: u64) -> (r: [u64; N])
    requires
        N <= 0x10_0000,
        mont_modulus_ok(modulus@, mont_inv),
    ensures
        limbs_value(r@) < limbs_value(modulus@),
        (limbs_value(r@) * base_pow(nat_of(N))) % limbs_value(modulus@) == limbs_value(a@)
            % limbs_value(modulus@),
{
    if N == 4 {
        let a4 = [a[0], a[1], a[2], a[3]];
        let modulus4 = [modulus[0], modulus[1], modulus[2], modulus[3]];
        proof {
            assert(a@ =~= a4@);
            assert(modulus@ =~= modulus4@);
        }
        let result4 = mont_reduce_4(a4, modulus4, mont_inv);
        let mut out = [0u64; N];
        out[0] = result4[0];
        out[1] = result4[1];
        out[2] = result4[2];
        out[3] = result4[3];
        proof {
            assert(out@ =~= result4@);
        }
        return out;
    }
    mont_reduce_generic(a, modulus, mont_inv)
}


/// Four-limb Montgomery reduction: `r < p` and `r * 2^256 == a (mod p)`.
pub fn mont_reduce_4(a: [u64; 4], modulus: [u64; 4], mont_inv: u64) -> (r: [u64; 4])
    requires
        mont_modulus_ok(modulus@, mont_inv),
    ensures
        limbs_value(r@) < limbs_value(modulus@),
        (limbs_value(r@) * base_pow(4)) % limbs_value(modulus@) == limbs_value(a@)
            % limbs_value(modulus@),
{
    let mut t = MontScratch::<4> { limbs: a, extra: [0u64, 0u64] };
    proof {
        let w = t.words();
        lemma_value_split(w, 4);
        assert(w.take(4) =~= a@);
        let hi = w.skip(4);
        assert forall|i: int| 0 <= i < hi.len() implies #[trigger] hi[i] == 0 by {
            assert(hi[i] == t.extra@[i]);
        }
        lemma_value_all_zero(hi);
        lemma_mul_basics(base_pow(4) as int);
        lemma_value_bound(a@);
        lemma_base_pow_small();
        lemma_mul_strict_inequality(1, limbs_value(modulus@) as int, base_pow(4) as int);
        lemma_mul_is_commutative(limbs_value(modulus@) as int, base_pow(4) as int);
    }
    let ghost p = limbs_value(modulus@) as int;
    let ghost t_in = limbs_value(t.words()) as int;
    let ghost mut k: int = 0;
    let mut i: usize = 0;
    proof {
        lemma_mul_basics(t_in);
        lemma_mul_basics(p);
        assert(base_pow(0) == 1);
    }
    while i < 4
        invariant
            i <= 4,
            mont_modulus_ok(modulus@, mont_inv),
            p == limbs_value(modulus@),
            t.words().len() == 6,
            0 <= t_in < base_pow(4 + 1),
            t_in < base_pow(4) * p,
            limbs_value(t.words()) * base_pow(nat_of(i)) == t_in + k * p,
            0 <= k < base_pow(nat_of(i)),
        decreases 4 - i,
    {
        let ghost tv = limbs_value(t.words()) as int;
        proof {
            lemma_base_pow_positive(nat_of(i));
            lemma_reduce_bound(tv, base_pow(nat_of(i)) as int, t_in, k, p);
        }
        let t0 = t.get(0);
        let m = mul_lo(t0, mont_inv);
        proof {
            lemma_value_mod_base(t.words());
            // m * p < 2^64 * 2^(64 N) / 2 and tv <= t_in + p, so the sum fits 6 limbs
            lemma_base_pow_succ(4);
            lemma_base_pow_succ(4 + 1);
            assert(m * p <= (limb_base() - 1) * p) by (nonlinear_arith)
                requires
                    m < limb_base(),
                    p >= 0,
            ;
            assert((limb_base() - 1) * p <= limb_base() * p) by (nonlinear_arith)
                requires
                    p >= 0,
            ;
            assert(limb_base() * (2 * p) <= limb_base() * base_pow(4)) by (nonlinear_arith)
                requires
                    2 * p <= base_pow(4),
            ;
        }
        let carry = mul_add_row(&mut t, m, &modulus);
        proof {
            assert(limbs_value(t.words()) + carry * base_pow(4) == tv + m * p);
        }
        add_to_high_word_4(&mut t, carry);
        proof {
            let w0 = t.words()[0];
            lemma_value_mod_base(t.words());
            lemma_value_mod_base(modulus@);
            // the row added m * p to tv, whose low limb was t0
            let before_words = t.words();
            assert(t0 == (tv % (limb_base() as int)));
            lemma_low_limb_cancels(tv, t0 as int, p, modulus[0] as int, mont_inv as int, m as int);
            assert(w0 == 0);
        }
        let ghost t2 = t.words();
        shift_scratch(&mut t);
        proof {
            lemma_shift_value(t2);
            lemma_reduce_step(
                tv,
                base_pow(nat_of(i)) as int,
                t_in,
                k,
                p,
                m as int,
                limbs_value(t.words()) as int,
            );
            lemma_base_pow_succ(nat_of(i));
            k = k + m * base_pow(nat_of(i));
        }
        i = i + 1;
    }
    proof {
        let tv = limbs_value(t.words()) as int;
        lemma_reduce_final_bound(tv, base_pow(4) as int, t_in, k, p);
        lemma_scratch_low_part(t);
    }
    let result = sub_modulus_if_needed(t.limbs, modulus);
    proof {
        lemma_final_congruence(
            limbs_value(result@) as int,
            limbs_value(t.words()) as int,
            base_pow(4) as int,
            t_in,
            k,
            p,
        );
    }
    result
}


/// Adds `carry * 2^256` into limbs 4 and 5 of a four-limb scratch.
pub fn add_to_high_word_4(t: &mut MontScratch<4>, carry: u64)
    requires
        limbs_value(old(t).words()) + carry * base_pow(4) < base_pow(6),
    ensures
        limbs_value(final(t).words()) == limbs_value(old(t).words()) + carry * base_pow(4),
{
    let ghost w = t.words();
    proof {
        lemma_base_pow_small();
        lemma_value_split(w, 5);
        lemma_value_take_succ(w, 4);
        lemma_value_first(w.skip(5));
        assert(w.skip(5).drop_first().len() == 0);
        assert(w.skip(5)[0] == w[5]);
    }
    let old4 = t.get(4);
    let (sum, overflow) = adc(old4, carry, false);
    t.set(4, sum);
    proof {
        lemma_value_update(w, 4, sum);
        assert(old4 == w[4]);
        assert(limbs_value(t.words()) + old4 * base_pow(4) == limbs_value(w) + sum * base_pow(4));
        assert(sum + limb_base() * bool_to_nat(overflow) == old4 + carry);
    }
    if overflow {
        let ghost w1 = t.words();
        let old5 = t.get(5);
        proof {
            assert(old5 == w[5]);
            if old5 == 0xffff_ffff_ffff_ffff {
                assert(limbs_value(w.take(4)) >= 0);
                assert(false);
            }
        }
        let (sum5, overflow5) = adc(old5, 1, false);
        t.set(5, sum5);
        proof {
            assert(!overflow5);
            lemma_value_update(w1, 5, sum5);
            assert(limbs_value(t.words()) + old5 * base_pow(5) == limbs_value(w1) + sum5 * base_pow(5));
        }
    } else {
        assert(sum == old4 + carry);
    }
}

} // verus!
