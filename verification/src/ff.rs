//! A prime field in Montgomery form over `N` little-endian `u64` limbs.

use std::cmp::Ordering;
use std::marker::PhantomData;

use crate::bits::reduce_limbs;
use crate::field_math::{
    lemma_mont_add_value, lemma_mont_mul_value, lemma_mont_new_value, lemma_mont_reduce_value,
    lemma_mont_sub_value, lemma_r_inv, mont_value,
};
use crate::limbs::{
    add_raw, base_pow, bool_to_nat, cmp_limbs, lemma_base_pow_small, lemma_times_bool,
    lemma_value_4, lemma_value_bound, limb_base, limbs_value, nat_of, sub_raw,
};
use crate::modular::{high_limbs_are_zero, mont_inv, mont_r, mont_r2};
use crate::mont::{lemma_value_mod_base, mont_modulus_ok, mont_mul, mont_mul_limb, mont_reduce};
use vstd::arithmetic::div_mod::*;
use vstd::arithmetic::power::*;
use vstd::arithmetic::power2::*;
use vstd::prelude::*;

verus! {

/// What a field modulus must satisfy: an odd number above two whose double
/// still fits in the limbs (the top bit is free).
pub open spec fn field_modulus_ok(m: Seq<u64>) -> bool {
    &&& 1 <= m.len() <= 0x10_0000
    &&& limbs_value(m) >= 3
    &&& limbs_value(m) % 2 == 1
    &&& 2 * limbs_value(m) <= base_pow(m.len())
}

/// Configuration for a Montgomery prime field over `N` little-endian `u64` limbs.
pub trait FpConfig<const N: usize>: Sized {
    /// Little-endian limbs of the prime modulus.
    spec fn modulus_spec() -> Seq<u64>;

    /// A multiplicative generator, in canonical little-endian limbs.
    spec fn generator_spec() -> Seq<u64>;

    /// Little-endian limbs of the prime modulus.
    fn modulus() -> (r: [u64; N])
        ensures
            r@ == Self::modulus_spec(),
    ;

    /// A multiplicative generator, in canonical little-endian limbs.
    fn generator() -> (r: [u64; N])
        ensures
            r@ == Self::generator_spec(),
    ;

    /// The modulus is usable for Montgomery arithmetic and the generator is reduced.
    proof fn lemma_config_ok()
        ensures
            Self::modulus_spec().len() == N,
            field_modulus_ok(Self::modulus_spec()),
            limbs_value(Self::generator_spec()) < limbs_value(Self::modulus_spec()),
    ;
}

/// The field of integers modulo `2^255 - 19`.
#[derive(Debug, Clone, Copy, PartialEq, Eq)]
pub struct F25519Config;

/// The modulus `2^255 - 19` as a number.
pub open spec fn p25519() -> nat {
    0x7fff_ffff_ffff_ffff_ffff_ffff_ffff_ffff_ffff_ffff_ffff_ffff_ffff_ffff_ffff_ffednat
}

impl FpConfig<4> for F25519Config {
    open spec fn modulus_spec() -> Seq<u64> {
        seq![0xffffffffffffffed, 0xffffffffffffffff, 0xffffffffffffffff, 0x7fffffffffffffff]
    }

    open spec fn generator_spec() -> Seq<u64> {
        seq![2, 0, 0, 0]
    }

    fn modulus() -> (r: [u64; 4]) {
        let r = [0xffffffffffffffed, 0xffffffffffffffff, 0xffffffffffffffff, 0x7fffffffffffffff];
        proof {
            assert(r@ =~= Self::modulus_spec());
        }
        r
    }

    fn generator() -> (r: [u64; 4]) {
        let r = [2, 0, 0, 0];
        proof {
            assert(r@ =~= Self::generator_spec());
        }
        r
    }

    proof fn lemma_config_ok() {
        lemma_base_pow_small();
        lemma_value_4(Self::modulus_spec());
        lemma_value_4(Self::generator_spec());
        assert(limbs_value(Self::modulus_spec()) == p25519());
    }
}

/// Number of 64-bit limbs used by [`Fp25519`].
pub const NUM_LIMBS: usize = 4;

/// Little-endian limbs of the modulus `2^255 - 19`.
pub const MODULUS_LIMBS: [u64; NUM_LIMBS] = [
    0xffffffffffffffed,
    0xffffffffffffffff,
    0xffffffffffffffff,
    0x7fffffffffffffff,
];

/// An element of the prime field described by `C`, stored as its Montgomery
/// representative `x * 2^(64 N) mod p`.
#[derive(Debug)]
pub struct Fp<C: FpConfig<N>, const N: usize> {
    limbs: [u64; N],
    _config: PhantomData<C>,
}

impl<C: FpConfig<N>, const N: usize> Copy for Fp<C, N> {

}

impl<C: FpConfig<N>, const N: usize> Clone for Fp<C, N> {
    fn clone(&self) -> (r: Self)
        ensures
            r == *self,
    {
        *self
    }
}

/// The field of integers modulo `2^255 - 19`.
pub type Fp25519 = Fp<F25519Config, 4>;

/// The limbs, modulus and Montgomery constant that every operation needs.
pub struct MontParams<const N: usize> {
    pub modulus: [u64; N],
    pub mont_inv: u64,
}

impl<C: FpConfig<N>, const N: usize> Fp<C, N> {
    /// The modulus `p` as a number.
    pub open spec fn modulus_value() -> nat {
        limbs_value(C::modulus_spec())
    }

    /// The Montgomery representative is reduced below `p`.
    pub closed spec fn wf(&self) -> bool {
        limbs_value(self.limbs@) < Self::modulus_value()
    }

    /// The field element as a number in `[0, p)`.
    pub closed spec fn value(&self) -> nat {
        mont_value(limbs_value(self.limbs@), Self::modulus_value(), nat_of(N))
    }

    /// The raw Montgomery representative.
    pub closed spec fn raw(&self) -> Seq<u64> {
        self.limbs@
    }

    pub proof fn lemma_value_bound(&self)
        ensures
            self.value() < Self::modulus_value(),
            Self::modulus_value() >= 3,
    {
        C::lemma_config_ok();
        lemma_mod_bound(
            (limbs_value(self.limbs@) * crate::field_math::r_inv(Self::modulus_value(), nat_of(N))) as int,
            Self::modulus_value() as int,
        );
    }

    /// A reduced element is determined by its value.
    pub proof fn lemma_value_determines(a: Self, b: Self)
        requires
            a.wf(),
            b.wf(),
            a.value() == b.value(),
        ensures
            a == b,
    {
        Self::lemma_params_ok();
        crate::field_math::lemma_mont_value_injective(
            limbs_value(a.limbs@),
            limbs_value(b.limbs@),
            Self::modulus_value(),
            nat_of(N),
        );
        crate::limbs::lemma_value_injective(a.limbs@, b.limbs@);
        assert(a.limbs =~= b.limbs);
    }

    /// The reduced element congruent to `v`.
    pub open spec fn with_value(v: int) -> Self {
        choose|r: Self| r.wf() && r.value() as int == v % (Self::modulus_value() as int)
    }

    /// Two elements with the same representative are equal.
    pub proof fn lemma_raw_determines(a: Self, b: Self)
        requires
            a.raw() == b.raw(),
        ensures
            a == b,
    {
        assert(a.limbs =~= b.limbs);
    }

    /// `with_value` picks exactly the reduced element of that value.
    pub proof fn lemma_with_value(r: Self, v: int)
        requires
            r.wf(),
            r.value() as int == v % (Self::modulus_value() as int),
        ensures
            Self::with_value(v) == r,
    {
        let w = Self::with_value(v);
        assert(w.wf() && w.value() as int == v % (Self::modulus_value() as int));
        Self::lemma_value_determines(w, r);
    }

    proof fn lemma_params_ok()
        ensures
            C::modulus_spec().len() == N,
            field_modulus_ok(C::modulus_spec()),
            Self::modulus_value() > 1,
            Self::modulus_value() % 2 == 1,
            1 <= N <= 0x10_0000,
    {
        C::lemma_config_ok();
    }

    /// The modulus and its Montgomery constant.
    fn params() -> (r: MontParams<N>)
        ensures
            r.modulus@ == C::modulus_spec(),
            mont_modulus_ok(r.modulus@, r.mont_inv),
            field_modulus_ok(r.modulus@),
            1 <= N <= 0x10_0000,
    {
        let modulus = C::modulus();
        proof {
            C::lemma_config_ok();
            lemma_value_mod_base(modulus@);
            lemma_mod_mod(limbs_value(modulus@) as int, 2, 0x8000_0000_0000_0000int);
            assert(limb_base() == 2 * 0x8000_0000_0000_0000nat);
        }
        let mont_inv = mont_inv(modulus);
        MontParams { modulus, mont_inv }
    }

    /// Wraps a Montgomery representative as it is.
    pub fn from_raw_montgomery(limbs: [u64; N]) -> (r: Self)
        ensures
            r.raw() == limbs@,
            r.wf() == (limbs_value(limbs@) < Self::modulus_value()),
            r.value() == mont_value(limbs_value(limbs@), Self::modulus_value(), nat_of(N)),
    {
        Self { limbs, _config: PhantomData }
    }

    /// The element `x mod p`.
    pub fn new(x: [u64; N]) -> (r: Self)
        ensures
            r.wf(),
            r.value() == limbs_value(x@) % Self::modulus_value(),
    {
        let params = Self::params();
        let reduced = reduce_limbs(x, params.modulus);
        let r2 = mont_r2(params.modulus);
        let limbs = mont_mul(reduced, r2, params.modulus, params.mont_inv);
        proof {
            Self::lemma_params_ok();
            lemma_mont_new_value(
                limbs_value(limbs@),
                limbs_value(x@),
                limbs_value(r2@),
                Self::modulus_value(),
                nat_of(N),
            );
        }
        Self::from_raw_montgomery(limbs)
    }

    /// The element `0`.
    pub fn zero() -> (r: Self)
        ensures
            r.wf(),
            r.value() == 0,
    {
        let limbs = [0u64; N];
        proof {
            Self::lemma_params_ok();
            vstd::array::axiom_spec_array_fill_for_copy_type::<u64, N>(0u64);
            crate::mont::lemma_value_all_zero(limbs@);
            lemma_small_mod(0, Self::modulus_value());
        }
        Self::from_raw_montgomery(limbs)
    }

    /// The element `1`.
    pub fn one() -> (r: Self)
        ensures
            r.wf(),
            r.value() == 1,
    {
        let params = Self::params();
        let limbs = mont_r(params.modulus);
        proof {
            Self::lemma_params_ok();
            lemma_r_inv(Self::modulus_value(), nat_of(N));
            lemma_mod_twice(base_pow(nat_of(N)) as int, Self::modulus_value() as int);
            crate::field_math::lemma_cong_mul(
                limbs_value(limbs@) as int,
                base_pow(nat_of(N)) as int,
                crate::field_math::r_inv(Self::modulus_value(), nat_of(N)) as int,
                Self::modulus_value() as int,
            );
        }
        Self::from_raw_montgomery(limbs)
    }

    /// The element `x mod p`.
    pub fn from_u64(x: u64) -> (r: Self)
        ensures
            r.wf(),
            r.value() == (x as nat) % Self::modulus_value(),
    {
        if x == 0 {
            proof {
                Self::lemma_params_ok();
                lemma_small_mod(0, Self::modulus_value());
            }
            return Self::zero();
        }
        if x == 1 {
            proof {
                Self::lemma_params_ok();
                lemma_small_mod(1, Self::modulus_value());
            }
            return Self::one();
        }
        let params = Self::params();
        let mut limbs = [0u64; N];
        limbs[0] = x;
        proof {
            crate::limbs::lemma_value_first(limbs@);
            crate::mont::lemma_value_all_zero(limbs@.drop_first());
            vstd::arithmetic::mul::lemma_mul_basics(limb_base() as int);
        }
        let reduced = reduce_limbs(limbs, params.modulus);
        let r2 = mont_r2(params.modulus);
        if high_limbs_are_zero(&reduced) {
            let out = mont_mul_limb(reduced[0], r2, params.modulus, params.mont_inv);
            proof {
                Self::lemma_params_ok();
                lemma_mont_new_value(
                    limbs_value(out@),
                    x as nat,
                    limbs_value(r2@),
                    Self::modulus_value(),
                    nat_of(N),
                );
            }
            Self::from_raw_montgomery(out)
        } else {
            let out = mont_mul(reduced, r2, params.modulus, params.mont_inv);
            proof {
                Self::lemma_params_ok();
                lemma_mont_new_value(
                    limbs_value(out@),
                    x as nat,
                    limbs_value(r2@),
                    Self::modulus_value(),
                    nat_of(N),
                );
            }
            Self::from_raw_montgomery(out)
        }
    }

    /// The canonical little-endian limbs of the element, out of Montgomery form.
    pub fn to_limbs(self) -> (r: [u64; N])
        requires
            self.wf(),
        ensures
            limbs_value(r@) == self.value(),
    {
        let params = Self::params();
        let out = mont_reduce(self.limbs, params.modulus, params.mont_inv);
        proof {
            Self::lemma_params_ok();
            lemma_mont_reduce_value(
                limbs_value(out@),
                limbs_value(self.limbs@),
                Self::modulus_value(),
                nat_of(N),
            );
        }
        out
    }

    /// `self * rhs`.
    pub fn mul(self, rhs: Self) -> (r: Self)
        requires
            self.wf(),
            rhs.wf(),
        ensures
            r.wf(),
            r.value() == (self.value() * rhs.value()) % Self::modulus_value(),
    {
        let params = Self::params();
        let out = mont_mul(self.limbs, rhs.limbs, params.modulus, params.mont_inv);
        proof {
            Self::lemma_params_ok();
            lemma_mont_mul_value(
                limbs_value(out@),
                limbs_value(self.limbs@),
                limbs_value(rhs.limbs@),
                Self::modulus_value(),
                nat_of(N),
            );
        }
        Self::from_raw_montgomery(out)
    }

    /// `self + rhs`.
    pub fn add(self, rhs: Self) -> (r: Self)
        requires
            self.wf(),
            rhs.wf(),
        ensures
            r.wf(),
            r.value() == (self.value() + rhs.value()) % Self::modulus_value(),
    {
        let params = Self::params();
        let (mut sum, carry) = add_raw(self.limbs, rhs.limbs);
        let ghost s0 = limbs_value(sum@);
        let reduce = carry || match cmp_limbs(&sum, &params.modulus) {
            Ordering::Less => false,
            _ => true,
        };
        if reduce {
            let (d, borrow) = sub_raw(sum, params.modulus);
            proof {
                lemma_value_bound(d@);
                lemma_times_bool(base_pow(nat_of(N)), borrow);
                lemma_times_bool(base_pow(nat_of(N)), carry);
                lemma_add_reduces(
                    limbs_value(self.limbs@),
                    limbs_value(rhs.limbs@),
                    Self::modulus_value(),
                    base_pow(nat_of(N)),
                    s0,
                    carry,
                    limbs_value(d@),
                    borrow,
                );
            }
            sum = d;
        } else {
            proof {
                lemma_times_bool(base_pow(nat_of(N)), carry);
                lemma_small_mod(s0, Self::modulus_value());
            }
        }
        proof {
            Self::lemma_params_ok();
            lemma_mont_add_value(
                limbs_value(sum@),
                limbs_value(self.limbs@),
                limbs_value(rhs.limbs@),
                Self::modulus_value(),
                nat_of(N),
            );
        }
        Self::from_raw_montgomery(sum)
    }

    /// `self - rhs`.
    pub fn sub(self, rhs: Self) -> (r: Self)
        requires
            self.wf(),
            rhs.wf(),
        ensures
            r.wf(),
            r.value() as int == (self.value() - rhs.value()) % (Self::modulus_value() as int),
    {
        let params = Self::params();
        let (mut diff, borrow) = sub_raw(self.limbs, rhs.limbs);
        let ghost d0 = limbs_value(diff@);
        let ghost mut carry_out = false;
        proof {
            lemma_value_bound(diff@);
            lemma_times_bool(base_pow(nat_of(N)), borrow);
        }
        if borrow {
            let (d, carry) = add_raw(diff, params.modulus);
            proof {
                lemma_value_bound(d@);
                lemma_times_bool(base_pow(nat_of(N)), carry);
                carry_out = carry;
            }
            diff = d;
        }
        proof {
            Self::lemma_params_ok();
            lemma_sub_reduces(
                limbs_value(self.limbs@),
                limbs_value(rhs.limbs@),
                Self::modulus_value(),
                base_pow(nat_of(N)),
                d0,
                borrow,
                limbs_value(diff@),
                carry_out,
            );
            lemma_mont_sub_value(
                limbs_value(diff@),
                limbs_value(self.limbs@),
                limbs_value(rhs.limbs@),
                Self::modulus_value(),
                nat_of(N),
            );
        }
        Self::from_raw_montgomery(diff)
    }

    /// `2 * self`.
    pub fn double(self) -> (r: Self)
        requires
            self.wf(),
        ensures
            r.wf(),
            r.value() == (2 * self.value()) % Self::modulus_value(),
    {
        self.add(self)
    }

    /// `-self`.
    pub fn neg(self) -> (r: Self)
        requires
            self.wf(),
        ensures
            r.wf(),
            r.value() as int == (0 - self.value()) % (Self::modulus_value() as int),
    {
        if self.is_zero() {
            proof {
                Self::lemma_params_ok();
                lemma_small_mod(0, Self::modulus_value());
            }
            self
        } else {
            let params = Self::params();
            let (d, borrow) = sub_raw(params.modulus, self.limbs);
            proof {
                Self::lemma_params_ok();
                lemma_value_bound(d@);
                lemma_times_bool(base_pow(nat_of(N)), borrow);
                crate::field_math::lemma_mont_value_zero(
                    limbs_value(self.limbs@),
                    Self::modulus_value(),
                    nat_of(N),
                );
                lemma_neg_reduces(limbs_value(self.limbs@), Self::modulus_value(), limbs_value(d@));
                lemma_mont_sub_value(
                    limbs_value(d@),
                    0,
                    limbs_value(self.limbs@),
                    Self::modulus_value(),
                    nat_of(N),
                );
                crate::mont::lemma_value_all_zero(seq![]);
                crate::field_math::lemma_mont_value_zero(0, Self::modulus_value(), nat_of(N));
            }
            Self::from_raw_montgomery(d)
        }
    }

    /// Whether the representative is reduced below `p`.
    pub fn is_reduced(&self) -> (r: bool)
        ensures
            r == self.wf(),
    {
        let params = Self::params();
        match cmp_limbs(&self.limbs, &params.modulus) {
            Ordering::Less => true,
            Ordering::Equal => false,
            Ordering::Greater => false,
        }
    }

    /// Whether the element is `0`.
    pub fn is_zero(&self) -> (r: bool)
        requires
            self.wf(),
        ensures
            r == (self.value() == 0),
    {
        let r = self.is_zero_montgomery();
        proof {
            Self::lemma_params_ok();
            crate::field_math::lemma_mont_value_zero(
                limbs_value(self.limbs@),
                Self::modulus_value(),
                nat_of(N),
            );
        }
        r
    }

    /// Whether every limb of the representative is zero.
    fn is_zero_montgomery(&self) -> (r: bool)
        ensures
            r == (limbs_value(self.limbs@) == 0),
    {
        let mut i: usize = 0;
        while i < N
            invariant
                i <= N,
                forall|j: int| 0 <= j < i ==> self.limbs@[j] == 0,
            decreases N - i,
        {
            if self.limbs[i] != 0 {
                proof {
                    lemma_nonzero_limb(self.limbs@, crate::limbs::idx(i));
                }
                return false;
            }
            i = i + 1;
        }
        proof {
            crate::mont::lemma_value_all_zero(self.limbs@);
        }
        true
    }

    /// Whether the element is `1`.
    pub fn is_one(&self) -> (r: bool)
        requires
            self.wf(),
        ensures
            r == (self.value() == 1),
    {
        let one = Self::one();
        let r = self.limbs_eq(&one);
        proof {
            Self::lemma_params_ok();
            if !r && self.value() == 1 {
                crate::field_math::lemma_mont_value_injective(
                    limbs_value(self.limbs@),
                    limbs_value(one.limbs@),
                    Self::modulus_value(),
                    nat_of(N),
                );
                crate::limbs::lemma_value_injective(self.limbs@, one.limbs@);
            }
        }
        r
    }

    /// Whether two representatives have the same limbs.
    fn limbs_eq(&self, other: &Self) -> (r: bool)
        ensures
            r == (self.limbs@ == other.limbs@),
    {
        let mut i: usize = 0;
        while i < N
            invariant
                i <= N,
                forall|j: int| 0 <= j < i ==> self.limbs@[j] == other.limbs@[j],
            decreases N - i,
        {
            if self.limbs[i] != other.limbs[i] {
                return false;
            }
            i = i + 1;
        }
        proof {
            assert(self.limbs@ =~= other.limbs@);
        }
        true
    }

    /// `self^exp`, with `exp` given as little-endian `u64` limbs.
    pub fn pow(self, exp: &[u64]) -> (r: Self)
        requires
            self.wf(),
        ensures
            r.wf(),
            r.value() as int == pow(self.value() as int, limbs_value(exp@)) % (
            Self::modulus_value() as int),
    {
        let ghost v = self.value() as int;
        let ghost p = Self::modulus_value() as int;
        let mut result = Self::one();
        let mut base = self;
        let mut j: usize = 0;
        proof {
            Self::lemma_params_ok();
            assert(limbs_value(exp@.take(0)) == 0);
            reveal(pow);
            lemma_small_mod(1, p as nat);
            assert(base_pow(0) == 1);
            self.lemma_value_bound();
            lemma_small_mod(v as nat, p as nat);
            assert(pow(v, 1) == v * pow(v, 0));
        }
        while j < exp.len()
            invariant
                j <= exp.len(),
                p == Self::modulus_value(),
                p > 1,
                v == self.value(),
                v >= 0,
                result.wf(),
                base.wf(),
                result.value() as int == pow(v, limbs_value(exp@.take(crate::limbs::idx(j)))) % p,
                base.value() as int == pow(v, base_pow(nat_of(j))) % p,
            decreases exp.len() - j,
        {
            let limb = exp[j];
            let mut bits = limb;
            let mut t: usize = 0;
            let ghost e = limbs_value(exp@.take(crate::limbs::idx(j)));
            let ghost pw = base_pow(nat_of(j));
            let ghost ln = limb as nat;
            proof {
                lemma2_to64();
                lemma_small_mod(0, 1);
                assert(ln % pow2(0) == 0);
                vstd::arithmetic::mul::lemma_mul_basics(pw as int);
                assert(ln / pow2(0) == limb);
            }
            while t < 64
                invariant
                    t <= 64,
                    p == Self::modulus_value(),
                    p > 1,
                    v >= 0,
                    result.wf(),
                    base.wf(),
                    bits as nat == ln / pow2(nat_of(t)),
                    result.value() as int == pow(v, e + (ln % pow2(nat_of(t))) * pw) % p,
                    base.value() as int == pow(v, pw * pow2(nat_of(t))) % p,
                decreases 64 - t,
            {
                let ghost r0 = result.value();
                let ghost b0 = base.value();
                let bit = bits & 1 == 1;
                proof {
                    assert((bits & 1 == 1) == (bits % 2 == 1)) by (bit_vector);
                    crate::bits::lemma_mod_pow2_step(limb as nat, nat_of(t));
                    lemma_pow2_unfold(nat_of(t) + 1);
                }
                if bit {
                    result = result.mul(base);
                }
                base = base.square();
                proof {
                    assert((bits >> 1) == bits / 2) by (bit_vector);
                    lemma_pow2_pos(nat_of(t));
                    vstd::arithmetic::div_mod::lemma_div_denominator(
                        limb as int,
                        pow2(nat_of(t)) as int,
                        2,
                    );
                    lemma_pow_step(
                        v,
                        e,
                        (ln % pow2(nat_of(t))) as nat,
                        pw,
                        pow2(nat_of(t)),
                        p,
                        r0 as int,
                        b0 as int,
                        result.value() as int,
                        base.value() as int,
                        bit,
                    );
                }
                let ghost old_bits = bits;
                let ghost old_t = nat_of(t);
                bits = bits >> 1;
                t = t + 1;
                proof {
                    lemma_bits_step(ln, old_t, old_bits as nat, bit);
                }
            }
            proof {
                lemma2_to64_rest();
                lemma_small_mod(ln, pow2(64));
                crate::limbs::lemma_value_take_succ(exp@, crate::limbs::idx(j));
                crate::limbs::lemma_base_pow_succ(nat_of(j));
                vstd::arithmetic::mul::lemma_mul_is_commutative(limb as int, pw as int);
            }
            j = j + 1;
        }
        proof {
            crate::limbs::lemma_value_take_full(exp@);
        }
        result
    }

    /// `self^(p - 2)`, the inverse when `p` is prime; `None` for zero.
    pub fn inverse(self) -> (r: Option<Self>)
        requires
            self.wf(),
        ensures
            (r is None) == (self.value() == 0),
            r matches Some(x) ==> x.wf() && x.value() as int == pow(
                self.value() as int,
                (Self::modulus_value() - 2) as nat,
            ) % (Self::modulus_value() as int),
    {
        if self.is_zero() {
            None
        } else {
            let params = Self::params();
            let exp = crate::modular::modulus_minus_two(params.modulus);
            Some(self.pow(exp.as_slice()))
        }
    }

    /// `out[i] = lhs[i] * rhs[i]` for every index.
    pub fn mul_batch(lhs: &[Self], rhs: &[Self], out: &mut [Self])
        requires
            lhs.len() == rhs.len(),
            lhs.len() == old(out).len(),
            forall|i: int| 0 <= i < lhs.len() ==> (#[trigger] lhs[i]).wf(),
            forall|i: int| 0 <= i < rhs.len() ==> (#[trigger] rhs[i]).wf(),
        ensures
            final(out).len() == old(out).len(),
            forall|i: int|
                0 <= i < lhs.len() ==> (#[trigger] final(out)[i]).wf() && final(out)[i].value() == (
                lhs[i].value() * rhs[i].value()) % Self::modulus_value(),
    {
        let mut i: usize = 0;
        while i < out.len()
            invariant
                i <= out.len(),
                out.len() == lhs.len(),
                lhs.len() == rhs.len(),
                forall|k: int| 0 <= k < lhs.len() ==> (#[trigger] lhs[k]).wf(),
                forall|k: int| 0 <= k < rhs.len() ==> (#[trigger] rhs[k]).wf(),
                forall|k: int|
                    0 <= k < i ==> (#[trigger] out[k]).wf() && out[k].value() == (lhs[k].value()
                        * rhs[k].value()) % Self::modulus_value(),
            decreases out.len() - i,
        {
            out[i] = lhs[i].mul(rhs[i]);
            i = i + 1;
        }
    }

    /// `self + rhs` as the reduced element of that value.
    pub fn add_in_field(self, rhs: Self) -> (r: Self)
        requires
            self.wf(),
            rhs.wf(),
        ensures
            r == Self::with_value((self.value() + rhs.value()) as int),
            r.wf(),
    {
        let r = self.add(rhs);
        proof {
            Self::lemma_with_value(r, (self.value() + rhs.value()) as int);
        }
        r
    }

    /// `self - rhs` as the reduced element of that value.
    pub fn sub_in_field(self, rhs: Self) -> (r: Self)
        requires
            self.wf(),
            rhs.wf(),
        ensures
            r == Self::with_value(self.value() - rhs.value()),
            r.wf(),
    {
        let r = self.sub(rhs);
        proof {
            Self::lemma_with_value(r, self.value() - rhs.value());
        }
        r
    }

    /// `self * rhs` as the reduced element of that value.
    pub fn mul_in_field(self, rhs: Self) -> (r: Self)
        requires
            self.wf(),
            rhs.wf(),
        ensures
            r == Self::with_value((self.value() * rhs.value()) as int),
            r.wf(),
    {
        let r = self.mul(rhs);
        proof {
            Self::lemma_with_value(r, (self.value() * rhs.value()) as int);
        }
        r
    }

    /// `self / rhs`, that is `self * rhs^(p - 2)`; `rhs` must not be zero.
    pub fn div_in_field(self, rhs: Self) -> (r: Self)
        requires
            self.wf(),
            rhs.wf(),
            rhs.value() != 0,
        ensures
            r == Self::with_value(
                self.value() * pow(rhs.value() as int, (Self::modulus_value() - 2) as nat),
            ),
            r.wf(),
    {
        let inv = rhs.inverse();
        match inv {
            Some(inv) => {
                let r = self.mul(inv);
                proof {
                    let p = Self::modulus_value() as int;
                    let e = pow(rhs.value() as int, (Self::modulus_value() - 2) as nat);
                    vstd::arithmetic::div_mod::lemma_mul_mod_noop_right(self.value() as int, e, p);
                    Self::lemma_with_value(r, self.value() * e);
                }
                r
            },
            None => {
                proof {
                    assert(false);
                }
                self
            },
        }
    }

    /// The element whose low limbs are the two halves of `value` (only the low
    /// half when there is a single limb), reduced.
    fn from_u128_limbs(value: u128) -> (r: Self)
        ensures
            r.wf(),
            r.value() as int == (if N > 1 {
                value as int
            } else {
                (value % 0x1_0000_0000_0000_0000) as int
            }) % (Self::modulus_value() as int),
    {
        proof {
            Self::lemma_params_ok();
        }
        let mut limbs = [0u64; N];
        let lo = (value % 0x1_0000_0000_0000_0000u128) as u64;
        let hi = (value / 0x1_0000_0000_0000_0000u128) as u64;
        limbs[0] = lo;
        if N > 1 {
            limbs[1] = hi;
        }
        let r = Self::new(limbs);
        proof {
            lemma_two_limb_value(limbs@, lo, hi, N > 1);
        }
        r
    }

    /// `self * self`.
    pub fn square(self) -> (r: Self)
        requires
            self.wf(),
        ensures
            r.wf(),
            r.value() == (self.value() * self.value()) % Self::modulus_value(),
    {
        self.mul(self)
    }
}


proof fn lemma_add_reduces(a: nat, b: nat, p: nat, big: nat, s0: nat, carry: bool, d: nat, borrow: bool)
    requires
        a < p,
        b < p,
        2 * p <= big,
        s0 + big * bool_to_nat(carry) == a + b,
        d - big * bool_to_nat(borrow) == s0 - p,
        d < big,
        carry || s0 >= p,
        big * bool_to_nat(carry) == if carry {
            big
        } else {
            0
        },
        big * bool_to_nat(borrow) == if borrow {
            big
        } else {
            0
        },
    ensures
        d < p,
        d == (a + b) % p,
        d % p == (a + b) % p,
{
    lemma_fundamental_div_mod_converse((a + b) as int, p as int, 1, d as int);
    lemma_small_mod(d, p);
}

proof fn lemma_sub_reduces(a: nat, b: nat, p: nat, big: nat, d0: nat, borrow: bool, d: nat, carry: bool)
    requires
        a < p,
        b < p,
        2 * p <= big,
        d0 < big,
        d < big,
        d0 - (if borrow {
            big
        } else {
            0
        }) == a - b,
        borrow ==> d + (if carry {
            big
        } else {
            0
        }) == d0 + p,
        !borrow ==> d == d0,
    ensures
        d < p,
        (d as int) % (p as int) == (a - b) % (p as int),
{
    if a >= b {
        assert(d == a - b);
        lemma_small_mod(d, p);
        lemma_small_mod((a - b) as nat, p);
    } else {
        assert(d == a - b + p);
        lemma_small_mod(d, p);
        lemma_fundamental_div_mod_converse(a - b, p as int, -1, d as int);
    }
}

proof fn lemma_neg_reduces(a: nat, p: nat, d: nat)
    requires
        0 < a < p,
        d == p - a,
    ensures
        d < p,
        (d as int) % (p as int) == (0 - a) % (p as int),
{
    lemma_small_mod(d, p);
    lemma_fundamental_div_mod_converse(0 - a, p as int, -1, d as int);
}

proof fn lemma_nonzero_limb(s: Seq<u64>, i: int)
    requires
        0 <= i < s.len(),
        s[i] != 0,
    ensures
        limbs_value(s) != 0,
{
    crate::limbs::lemma_value_split(s, i + 1);
    crate::limbs::lemma_value_take_succ(s, i);
    crate::limbs::lemma_base_pow_positive(i as nat);
    vstd::arithmetic::mul::lemma_mul_increases(s[i] as int, base_pow(i as nat) as int);
    vstd::arithmetic::mul::lemma_mul_nonnegative(
        base_pow((i + 1) as nat) as int,
        limbs_value(s.skip(i + 1)) as int,
    );
}


proof fn lemma_pow_step(
    v: int,
    e: nat,
    lo: nat,
    pw: nat,
    q: nat,
    p: int,
    r0: int,
    b0: int,
    r1: int,
    b1: int,
    bit: bool,
)
    requires
        v >= 0,
        p > 1,
        r0 == pow(v, e + lo * pw) % p,
        b0 == pow(v, pw * q) % p,
        r1 == if bit {
            (r0 * b0) % p
        } else {
            r0
        },
        b1 == (b0 * b0) % p,
    ensures
        r1 == pow(v, e + (if bit {
            lo + q
        } else {
            lo
        }) * pw) % p,
        b1 == pow(v, pw * (2 * q)) % p,
{
    lemma_mul_mod_noop(pow(v, pw * q), pow(v, pw * q), p);
    lemma_pow_adds(v, pw * q, pw * q);
    assert(pw * q + pw * q == pw * (2 * q)) by (nonlinear_arith);
    if bit {
        lemma_mul_mod_noop(pow(v, e + lo * pw), pow(v, pw * q), p);
        lemma_pow_adds(v, e + lo * pw, pw * q);
        assert(e + lo * pw + pw * q == e + (lo + q) * pw) by (nonlinear_arith);
    }
}


proof fn lemma_bits_step(ln: nat, t: nat, bits: nat, bit: bool)
    requires
        bits == ln / pow2(t),
        bit == (bits % 2 == 1),
    ensures
        bits / 2 == ln / pow2(t + 1),
        ln % pow2(t + 1) == (ln % pow2(t)) + if bit {
            pow2(t)
        } else {
            0
        },
{
    lemma_pow2_pos(t);
    lemma_pow2_unfold(t + 1);
    lemma_div_denominator(ln as int, pow2(t) as int, 2);
    assert(pow2(t) * 2 == pow2(t + 1));
    crate::bits::lemma_mod_pow2_step(ln, t);
}



impl<C: FpConfig<N>, const N: usize> vstd::std_specs::ops::AddSpecImpl for Fp<C, N> {
    open spec fn obeys_add_spec() -> bool {
        true
    }

    open spec fn add_req(self, rhs: Self) -> bool {
        self.wf() && rhs.wf()
    }

    open spec fn add_spec(self, rhs: Self) -> Self {
        Self::with_value((self.value() + rhs.value()) as int)
    }
}

impl<C: FpConfig<N>, const N: usize> core::ops::Add for Fp<C, N> {
    type Output = Self;

    fn add(self, rhs: Self) -> (r: Self) {
        Fp::add_in_field(self, rhs)
    }
}

impl<'a, C: FpConfig<N>, const N: usize> vstd::std_specs::ops::AddSpecImpl<&'a Fp<C, N>> for Fp<C, N> {
    open spec fn obeys_add_spec() -> bool {
        true
    }

    open spec fn add_req(self, rhs: &'a Self) -> bool {
        self.wf() && rhs.wf()
    }

    open spec fn add_spec(self, rhs: &'a Self) -> Self {
        Self::with_value((self.value() + rhs.value()) as int)
    }
}

impl<'a, C: FpConfig<N>, const N: usize> core::ops::Add<&'a Fp<C, N>> for Fp<C, N> {
    type Output = Self;

    fn add(self, rhs: &'a Self) -> (r: Self) {
        Fp::add_in_field(self, *rhs)
    }
}

impl<C: FpConfig<N>, const N: usize> vstd::std_specs::ops::SubSpecImpl for Fp<C, N> {
    open spec fn obeys_sub_spec() -> bool {
        true
    }

    open spec fn sub_req(self, rhs: Self) -> bool {
        self.wf() && rhs.wf()
    }

    open spec fn sub_spec(self, rhs: Self) -> Self {
        Self::with_value(self.value() - rhs.value())
    }
}

impl<C: FpConfig<N>, const N: usize> core::ops::Sub for Fp<C, N> {
    type Output = Self;

    fn sub(self, rhs: Self) -> (r: Self) {
        Fp::sub_in_field(self, rhs)
    }
}

impl<'a, C: FpConfig<N>, const N: usize> vstd::std_specs::ops::SubSpecImpl<&'a Fp<C, N>> for Fp<C, N> {
    open spec fn obeys_sub_spec() -> bool {
        true
    }

    open spec fn sub_req(self, rhs: &'a Self) -> bool {
        self.wf() && rhs.wf()
    }

    open spec fn sub_spec(self, rhs: &'a Self) -> Self {
        Self::with_value(self.value() - rhs.value())
    }
}

impl<'a, C: FpConfig<N>, const N: usize> core::ops::Sub<&'a Fp<C, N>> for Fp<C, N> {
    type Output = Self;

    fn sub(self, rhs: &'a Self) -> (r: Self) {
        Fp::sub_in_field(self, *rhs)
    }
}

impl<C: FpConfig<N>, const N: usize> vstd::std_specs::ops::MulSpecImpl for Fp<C, N> {
    open spec fn obeys_mul_spec() -> bool {
        true
    }

    open spec fn mul_req(self, rhs: Self) -> bool {
        self.wf() && rhs.wf()
    }

    open spec fn mul_spec(self, rhs: Self) -> Self {
        Self::with_value((self.value() * rhs.value()) as int)
    }
}

impl<C: FpConfig<N>, const N: usize> core::ops::Mul for Fp<C, N> {
    type Output = Self;

    fn mul(self, rhs: Self) -> (r: Self) {
        Fp::mul_in_field(self, rhs)
    }
}

impl<'a, C: FpConfig<N>, const N: usize> vstd::std_specs::ops::MulSpecImpl<&'a Fp<C, N>> for Fp<C, N> {
    open spec fn obeys_mul_spec() -> bool {
        true
    }

    open spec fn mul_req(self, rhs: &'a Self) -> bool {
        self.wf() && rhs.wf()
    }

    open spec fn mul_spec(self, rhs: &'a Self) -> Self {
        Self::with_value((self.value() * rhs.value()) as int)
    }
}

impl<'a, C: FpConfig<N>, const N: usize> core::ops::Mul<&'a Fp<C, N>> for Fp<C, N> {
    type Output = Self;

    fn mul(self, rhs: &'a Self) -> (r: Self) {
        Fp::mul_in_field(self, *rhs)
    }
}

impl<C: FpConfig<N>, const N: usize> vstd::std_specs::ops::DivSpecImpl for Fp<C, N> {
    open spec fn obeys_div_spec() -> bool {
        true
    }

    open spec fn div_req(self, rhs: Self) -> bool {
        self.wf() && rhs.wf() && rhs.value() != 0
    }

    open spec fn div_spec(self, rhs: Self) -> Self {
        Self::with_value(self.value() * pow(rhs.value() as int, (Self::modulus_value() - 2) as nat))
    }
}

impl<C: FpConfig<N>, const N: usize> core::ops::Div for Fp<C, N> {
    type Output = Self;

    fn div(self, rhs: Self) -> (r: Self) {
        Fp::div_in_field(self, rhs)
    }
}

impl<'a, C: FpConfig<N>, const N: usize> vstd::std_specs::ops::DivSpecImpl<&'a Fp<C, N>> for Fp<C, N> {
    open spec fn obeys_div_spec() -> bool {
        true
    }

    open spec fn div_req(self, rhs: &'a Self) -> bool {
        self.wf() && rhs.wf() && rhs.value() != 0
    }

    open spec fn div_spec(self, rhs: &'a Self) -> Self {
        Self::with_value(self.value() * pow(rhs.value() as int, (Self::modulus_value() - 2) as nat))
    }
}

impl<'a, C: FpConfig<N>, const N: usize> core::ops::Div<&'a Fp<C, N>> for Fp<C, N> {
    type Output = Self;

    fn div(self, rhs: &'a Self) -> (r: Self) {
        Fp::div_in_field(self, *rhs)
    }
}

impl<C: FpConfig<N>, const N: usize> core::ops::AddAssign for Fp<C, N> {
    fn add_assign(&mut self, rhs: Self)
        requires
            old(self).wf(),
            rhs.wf(),
        ensures
            *final(self) == Self::with_value((old(self).value() + rhs.value()) as int),
    {
        *self = Fp::add_in_field(*self, rhs);
    }
}

impl<'a, C: FpConfig<N>, const N: usize> core::ops::AddAssign<&'a Fp<C, N>> for Fp<C, N> {
    fn add_assign(&mut self, rhs: &'a Self)
        requires
            old(self).wf(),
            rhs.wf(),
        ensures
            *final(self) == Self::with_value((old(self).value() + rhs.value()) as int),
    {
        *self = Fp::add_in_field(*self, *rhs);
    }
}

impl<C: FpConfig<N>, const N: usize> core::ops::SubAssign for Fp<C, N> {
    fn sub_assign(&mut self, rhs: Self)
        requires
            old(self).wf(),
            rhs.wf(),
        ensures
            *final(self) == Self::with_value(old(self).value() - rhs.value()),
    {
        *self = Fp::sub_in_field(*self, rhs);
    }
}

impl<'a, C: FpConfig<N>, const N: usize> core::ops::SubAssign<&'a Fp<C, N>> for Fp<C, N> {
    fn sub_assign(&mut self, rhs: &'a Self)
        requires
            old(self).wf(),
            rhs.wf(),
        ensures
            *final(self) == Self::with_value(old(self).value() - rhs.value()),
    {
        *self = Fp::sub_in_field(*self, *rhs);
    }
}

impl<C: FpConfig<N>, const N: usize> core::ops::MulAssign for Fp<C, N> {
    fn mul_assign(&mut self, rhs: Self)
        requires
            old(self).wf(),
            rhs.wf(),
        ensures
            *final(self) == Self::with_value((old(self).value() * rhs.value()) as int),
    {
        *self = Fp::mul_in_field(*self, rhs);
    }
}

impl<'a, C: FpConfig<N>, const N: usize> core::ops::MulAssign<&'a Fp<C, N>> for Fp<C, N> {
    fn mul_assign(&mut self, rhs: &'a Self)
        requires
            old(self).wf(),
            rhs.wf(),
        ensures
            *final(self) == Self::with_value((old(self).value() * rhs.value()) as int),
    {
        *self = Fp::mul_in_field(*self, *rhs);
    }
}

impl<C: FpConfig<N>, const N: usize> core::ops::DivAssign for Fp<C, N> {
    fn div_assign(&mut self, rhs: Self)
        requires
            old(self).wf(),
            rhs.wf(),
            rhs.value() != 0,
        ensures
            *final(self) == Self::with_value(old(self).value() * pow(rhs.value() as int, (Self::modulus_value() - 2) as nat)),
    {
        *self = Fp::div_in_field(*self, rhs);
    }
}

impl<'a, C: FpConfig<N>, const N: usize> core::ops::DivAssign<&'a Fp<C, N>> for Fp<C, N> {
    fn div_assign(&mut self, rhs: &'a Self)
        requires
            old(self).wf(),
            rhs.wf(),
            rhs.value() != 0,
        ensures
            *final(self) == Self::with_value(old(self).value() * pow(rhs.value() as int, (Self::modulus_value() - 2) as nat)),
    {
        *self = Fp::div_in_field(*self, *rhs);
    }
}

impl<C: FpConfig<N>, const N: usize> vstd::std_specs::ops::NegSpecImpl for Fp<C, N> {
    open spec fn obeys_neg_spec() -> bool {
        true
    }

    open spec fn neg_req(self) -> bool {
        self.wf()
    }

    open spec fn neg_spec(self) -> Self {
        Self::with_value(0 - self.value())
    }
}

impl<C: FpConfig<N>, const N: usize> core::ops::Neg for Fp<C, N> {
    type Output = Self;

    fn neg(self) -> (r: Self) {
        let r = Fp::neg(self);
        proof {
            Self::lemma_with_value(r, 0 - self.value());
        }
        r
    }
}

impl<C: FpConfig<N>, const N: usize> Default for Fp<C, N> {
    fn default() -> (r: Self)
        ensures
            r.wf(),
            r.value() == 0,
    {
        Self::zero()
    }
}

impl<C: FpConfig<N>, const N: usize> PartialEq for Fp<C, N> {
    fn eq(&self, other: &Self) -> (r: bool) {
        self.limbs_eq(other)
    }
}

impl<C: FpConfig<N>, const N: usize> vstd::std_specs::cmp::PartialEqSpecImpl for Fp<C, N> {
    open spec fn obeys_eq_spec() -> bool {
        true
    }

    open spec fn eq_spec(&self, other: &Self) -> bool {
        self.raw() == other.raw()
    }
}

impl<C: FpConfig<N>, const N: usize> Eq for Fp<C, N> {

}

impl<C: FpConfig<N>, const N: usize> vstd::std_specs::convert::FromSpecImpl<u64> for Fp<C, N> {
    open spec fn obeys_from_spec() -> bool {
        true
    }

    open spec fn from_spec(v: u64) -> Self {
        Self::with_value(v as int)
    }
}

impl<C: FpConfig<N>, const N: usize> From<u64> for Fp<C, N> {
    fn from(value: u64) -> (r: Self) {
        let r = Self::from_u64(value);
        proof {
            Self::lemma_with_value(r, value as int);
        }
        r
    }
}

impl<C: FpConfig<N>, const N: usize> vstd::std_specs::convert::FromSpecImpl<u32> for Fp<C, N> {
    open spec fn obeys_from_spec() -> bool {
        true
    }

    open spec fn from_spec(v: u32) -> Self {
        Self::with_value(v as int)
    }
}

impl<C: FpConfig<N>, const N: usize> From<u32> for Fp<C, N> {
    fn from(value: u32) -> (r: Self) {
        let r = Self::from_u64(value as u64);
        proof {
            Self::lemma_with_value(r, value as int);
        }
        r
    }
}

impl<C: FpConfig<N>, const N: usize> vstd::std_specs::convert::FromSpecImpl<u16> for Fp<C, N> {
    open spec fn obeys_from_spec() -> bool {
        true
    }

    open spec fn from_spec(v: u16) -> Self {
        Self::with_value(v as int)
    }
}

impl<C: FpConfig<N>, const N: usize> From<u16> for Fp<C, N> {
    fn from(value: u16) -> (r: Self) {
        let r = Self::from_u64(value as u64);
        proof {
            Self::lemma_with_value(r, value as int);
        }
        r
    }
}

impl<C: FpConfig<N>, const N: usize> vstd::std_specs::convert::FromSpecImpl<u8> for Fp<C, N> {
    open spec fn obeys_from_spec() -> bool {
        true
    }

    open spec fn from_spec(v: u8) -> Self {
        Self::with_value(v as int)
    }
}

impl<C: FpConfig<N>, const N: usize> From<u8> for Fp<C, N> {
    fn from(value: u8) -> (r: Self) {
        let r = Self::from_u64(value as u64);
        proof {
            Self::lemma_with_value(r, value as int);
        }
        r
    }
}

impl<C: FpConfig<N>, const N: usize> vstd::std_specs::convert::FromSpecImpl<bool> for Fp<C, N> {
    open spec fn obeys_from_spec() -> bool {
        true
    }

    open spec fn from_spec(v: bool) -> Self {
        Self::with_value(if v {
            1int
        } else {
            0int
        })
    }
}

impl<C: FpConfig<N>, const N: usize> From<bool> for Fp<C, N> {
    fn from(value: bool) -> (r: Self) {
        let x: u64 = if value {
            1
        } else {
            0
        };
        let r = Self::from_u64(x);
        proof {
            Self::lemma_with_value(r, x as int);
        }
        r
    }
}

impl<C: FpConfig<N>, const N: usize> vstd::std_specs::convert::FromSpecImpl<u128> for Fp<C, N> {
    open spec fn obeys_from_spec() -> bool {
        true
    }

    open spec fn from_spec(v: u128) -> Self {
        Self::with_value(if N > 1 {
            v as int
        } else {
            (v % 0x1_0000_0000_0000_0000) as int
        })
    }
}

impl<C: FpConfig<N>, const N: usize> From<u128> for Fp<C, N> {
    fn from(value: u128) -> (r: Self) {
        let r = Self::from_u128_limbs(value);
        proof {
            Self::lemma_with_value(r, if N > 1 {
                value as int
            } else {
                (value % 0x1_0000_0000_0000_0000) as int
            });
        }
        r
    }
}

impl<C: FpConfig<N>, const N: usize> vstd::std_specs::convert::FromSpecImpl<i128> for Fp<C, N> {
    open spec fn obeys_from_spec() -> bool {
        true
    }

    open spec fn from_spec(v: i128) -> Self {
        Self::with_value(signed_wide_value(v, N > 1))
    }
}

impl<C: FpConfig<N>, const N: usize> From<i128> for Fp<C, N> {
    fn from(value: i128) -> (r: Self) {
        let magnitude: u128 = if value >= 0 {
            value as u128
        } else {
            ((-(value + 1)) as u128) + 1
        };
        let abs = Self::from_u128_limbs(magnitude);
        proof {
            Self::lemma_params_ok();
        }
        if value < 0 {
            let r = Fp::neg(abs);
            proof {
                abs.lemma_value_bound();
                lemma_neg_of_magnitude(
                    abs.value() as int,
                    wide_magnitude(magnitude, N > 1),
                    signed_wide_value(value, N > 1),
                    Self::modulus_value() as int,
                );
                Self::lemma_with_value(r, signed_wide_value(value, N > 1));
            }
            r
        } else {
            proof {
                Self::lemma_with_value(abs, signed_wide_value(value, N > 1));
            }
            abs
        }
    }
}

impl<C: FpConfig<N>, const N: usize> vstd::std_specs::convert::FromSpecImpl<i64> for Fp<C, N> {
    open spec fn obeys_from_spec() -> bool {
        true
    }

    open spec fn from_spec(v: i64) -> Self {
        Self::with_value(v as int)
    }
}

impl<C: FpConfig<N>, const N: usize> From<i64> for Fp<C, N> {
    fn from(value: i64) -> (r: Self) {
        let magnitude: u64 = if value >= 0 {
            value as u64
        } else {
            ((-(value + 1)) as u64) + 1
        };
        let abs = Self::from_u64(magnitude);
        proof {
            Self::lemma_params_ok();
        }
        if value < 0 {
            let r = Fp::neg(abs);
            proof {
                abs.lemma_value_bound();
                lemma_neg_of_magnitude(abs.value() as int, magnitude as int, value as int, Self::modulus_value() as int);
                Self::lemma_with_value(r, value as int);
            }
            r
        } else {
            proof {
                Self::lemma_with_value(abs, value as int);
            }
            abs
        }
    }
}

impl<C: FpConfig<N>, const N: usize> vstd::std_specs::convert::FromSpecImpl<i32> for Fp<C, N> {
    open spec fn obeys_from_spec() -> bool {
        true
    }

    open spec fn from_spec(v: i32) -> Self {
        Self::with_value(v as int)
    }
}

impl<C: FpConfig<N>, const N: usize> From<i32> for Fp<C, N> {
    fn from(value: i32) -> (r: Self) {
        let magnitude: u32 = if value >= 0 {
            value as u32
        } else {
            ((-(value + 1)) as u32) + 1
        };
        let abs = Self::from_u64(magnitude as u64);
        proof {
            Self::lemma_params_ok();
        }
        if value < 0 {
            let r = Fp::neg(abs);
            proof {
                abs.lemma_value_bound();
                lemma_neg_of_magnitude(abs.value() as int, magnitude as int, value as int, Self::modulus_value() as int);
                Self::lemma_with_value(r, value as int);
            }
            r
        } else {
            proof {
                Self::lemma_with_value(abs, value as int);
            }
            abs
        }
    }
}

impl<C: FpConfig<N>, const N: usize> vstd::std_specs::convert::FromSpecImpl<i16> for Fp<C, N> {
    open spec fn obeys_from_spec() -> bool {
        true
    }

    open spec fn from_spec(v: i16) -> Self {
        Self::with_value(v as int)
    }
}

impl<C: FpConfig<N>, const N: usize> From<i16> for Fp<C, N> {
    fn from(value: i16) -> (r: Self) {
        let magnitude: u16 = if value >= 0 {
            value as u16
        } else {
            ((-(value + 1)) as u16) + 1
        };
        let abs = Self::from_u64(magnitude as u64);
        proof {
            Self::lemma_params_ok();
        }
        if value < 0 {
            let r = Fp::neg(abs);
            proof {
                abs.lemma_value_bound();
                lemma_neg_of_magnitude(abs.value() as int, magnitude as int, value as int, Self::modulus_value() as int);
                Self::lemma_with_value(r, value as int);
            }
            r
        } else {
            proof {
                Self::lemma_with_value(abs, value as int);
            }
            abs
        }
    }
}

impl<C: FpConfig<N>, const N: usize> vstd::std_specs::convert::FromSpecImpl<i8> for Fp<C, N> {
    open spec fn obeys_from_spec() -> bool {
        true
    }

    open spec fn from_spec(v: i8) -> Self {
        Self::with_value(v as int)
    }
}

impl<C: FpConfig<N>, const N: usize> From<i8> for Fp<C, N> {
    fn from(value: i8) -> (r: Self) {
        let magnitude: u8 = if value >= 0 {
            value as u8
        } else {
            ((-(value + 1)) as u8) + 1
        };
        let abs = Self::from_u64(magnitude as u64);
        proof {
            Self::lemma_params_ok();
        }
        if value < 0 {
            let r = Fp::neg(abs);
            proof {
                abs.lemma_value_bound();
                lemma_neg_of_magnitude(abs.value() as int, magnitude as int, value as int, Self::modulus_value() as int);
                Self::lemma_with_value(r, value as int);
            }
            r
        } else {
            proof {
                Self::lemma_with_value(abs, value as int);
            }
            abs
        }
    }
}

proof fn lemma_two_limb_value(s: Seq<u64>, lo: u64, hi: u64, two: bool)
    requires
        s.len() >= 1,
        s[0] == lo,
        two ==> s.len() >= 2 && s[1] == hi,
        forall|i: int| (if two {
            2int
        } else {
            1int
        }) <= i < s.len() ==> s[i] == 0,
    ensures
        limbs_value(s) == if two {
            lo + limb_base() * hi
        } else {
            lo as int
        },
{
    crate::limbs::lemma_value_first(s);
    let t = s.drop_first();
    if two {
        crate::limbs::lemma_value_first(t);
        assert forall|i: int| 0 <= i < t.drop_first().len() implies #[trigger] t.drop_first()[i]
            == 0 by {
            assert(t.drop_first()[i] == s[i + 2]);
        }
        crate::mont::lemma_value_all_zero(t.drop_first());
        vstd::arithmetic::mul::lemma_mul_basics(limb_base() as int);
    } else {
        assert forall|i: int| 0 <= i < t.len() implies #[trigger] t[i] == 0 by {
            assert(t[i] == s[i + 1]);
        }
        crate::mont::lemma_value_all_zero(t);
        vstd::arithmetic::mul::lemma_mul_basics(limb_base() as int);
    }
}

/// The magnitude that a 128-bit conversion keeps: all of it with two or more
/// limbs, its low 64 bits with one.
pub open spec fn wide_magnitude(m: u128, two_limbs: bool) -> int {
    if two_limbs {
        m as int
    } else {
        (m % 0x1_0000_0000_0000_0000) as int
    }
}

/// The signed value that a 128-bit conversion keeps.
pub open spec fn signed_wide_value(v: i128, two_limbs: bool) -> int {
    let m: u128 = if v >= 0 {
        v as u128
    } else {
        ((-(v + 1)) as u128 + 1) as u128
    };
    if v < 0 {
        0 - wide_magnitude(m, two_limbs)
    } else {
        wide_magnitude(m, two_limbs)
    }
}

proof fn lemma_neg_of_magnitude(a: int, m: int, v: int, p: int)
    requires
        p > 1,
        a == m % p,
        m >= 0,
        v == -m,
    ensures
        (0 - a) % p == v % p,
{
    vstd::arithmetic::div_mod::lemma_sub_mod_noop(0, m, p);
    vstd::arithmetic::div_mod::lemma_small_mod(0, p as nat);
    vstd::arithmetic::div_mod::lemma_mod_twice(0 - m, p);
    vstd::arithmetic::div_mod::lemma_sub_mod_noop(0, a, p);
    vstd::arithmetic::div_mod::lemma_mod_twice(m, p);
}

} // verus!
