//! Unsigned integer types as words of a bitmap.

use crate::positions::{
    lemma_lowest_one_at_unique, lemma_lowest_set_bit, lemma_lowest_set_bit_fits, lowest_one_at,
    lowest_set_bit,
};
use vstd::arithmetic::div_mod::{lemma_fundamental_div_mod, lemma_mod_multiples_basic};
use vstd::arithmetic::power2::{lemma2_to64, lemma_pow2_pos, lemma_pow2_unfold, pow2};
use vstd::bits::{
    lemma_u128_shr_is_div, lemma_u16_pow2_no_overflow, lemma_u16_shl_is_mul, lemma_u16_shr_is_div,
    lemma_u32_pow2_no_overflow, lemma_u32_shl_is_mul, lemma_u32_shr_is_div,
    lemma_u64_pow2_no_overflow, lemma_u64_shl_is_mul, lemma_u64_shr_is_div,
    lemma_u8_pow2_no_overflow, lemma_u8_shl_is_mul, lemma_u8_shr_is_div,
};
use vstd::layout::unsigned_int_max_values;
use vstd::prelude::*;
use vstd::std_specs::bits::{
    axiom_u16_trailing_zeros, axiom_u32_trailing_zeros, axiom_u64_trailing_zeros,
    axiom_u8_trailing_zeros, u16_trailing_zeros, u32_trailing_zeros, u64_trailing_zeros,
    u8_trailing_zeros,
};

verus! {

/// An unsigned integer type whose values serve as words of a bitmap.
///
/// Implemented for [`u8`], [`u16`], [`u32`], [`u64`], [`u128`] and
/// [`usize`].
pub trait Uint: Copy + Sized {
    /// The number of bits of the type.
    spec fn width() -> nat;

    /// The number that a value stands for.
    spec fn value(self) -> nat;

    /// The width is positive and at most 128 bits.
    proof fn lemma_width()
        ensures
            0 < Self::width() <= 128,
    ;

    /// Every value fits in the type's width.
    proof fn lemma_value_fits(self)
        ensures
            0 < Self::width() <= 128,
            self.value() < pow2(Self::width()),
    ;

    /// The number of bits of the type.
    fn bits() -> (r: usize)
        ensures
            r == Self::width(),
    ;

    /// The value `0`.
    fn zero() -> (r: Self)
        ensures
            r.value() == 0,
    ;

    /// Whether the value is `0`.
    fn is_zero(self) -> (r: bool)
        ensures
            r == (self.value() == 0),
    ;

    /// The number of trailing zero bits: the position of the lowest one
    /// bit, or the width for `0`.
    fn trailing_zeros(self) -> (r: Self)
        ensures
            r.value() == if self.value() == 0 {
                Self::width()
            } else {
                lowest_set_bit(self.value())
            },
    ;

    /// The value with its lowest one bit cleared.
    fn clear_lowest_set_bit(self) -> (r: Self)
        requires
            self.value() != 0,
        ensures
            r.value() == self.value() - pow2(lowest_set_bit(self.value())),
    ;

    /// The value as a `usize`.
    fn to_usize(self) -> (r: usize)
        requires
            self.value() <= usize::MAX,
        ensures
            r == self.value(),
    ;
}

/// The numbers that a sequence of words stands for.
pub open spec fn word_values<U: Uint>(words: Seq<U>) -> Seq<nat> {
    words.map_values(|w: U| w.value())
}

/// A sequence of words read as bit positions.
pub open spec fn position_values<U: Uint>(positions: Seq<U>) -> Seq<int> {
    positions.map_values(|p: U| p.value() as int)
}

/// The lowest one bit of a nonzero `u8` is at `trailing_zeros`, and
/// `v & (v - 1)` clears it.
proof fn lemma_u8_lowest_set_bit(v: u8)
    requires
        v != 0,
    ensures
        u8_trailing_zeros(v) as nat == lowest_set_bit(v as nat),
        (v & vstd::prelude::sub(v, 1)) as nat == v - pow2(lowest_set_bit(v as nat)),
{
    axiom_u8_trailing_zeros(v);
    let t = u8_trailing_zeros(v) as u8;
    assert(v == (v >> t) << t) by (bit_vector)
        requires
            t < 8,
            v << vstd::prelude::sub(8, t) == 0,
    ;
    assert((v >> t) % 2 == 1 && v & vstd::prelude::sub(v, 1) == vstd::prelude::sub(v, 1u8 << t)
        && (1u8 << t) <= v) by (bit_vector)
        requires
            t < 8,
            (v >> t) & 1 == 1,
            v == (v >> t) << t,
    ;
    lemma2_to64();
    lemma_u8_pow2_no_overflow(t as nat);
    lemma_u8_shl_is_mul(1, t);
    lemma_u8_shr_is_div(v, t);
    let q = v >> t;
    lemma_fundamental_div_mod(v as int, pow2(t as nat) as int);
    lemma_u8_shl_is_mul(q, t);
    lemma_mod_multiples_basic(q as int, pow2(t as nat) as int);
    assert(lowest_one_at(v as nat, t as nat));
    lemma_lowest_one_at_unique(v as nat, t as nat);
}

/// The lowest one bit of a nonzero `u16` is at `trailing_zeros`, and
/// `v & (v - 1)` clears it.
proof fn lemma_u16_lowest_set_bit(v: u16)
    requires
        v != 0,
    ensures
        u16_trailing_zeros(v) as nat == lowest_set_bit(v as nat),
        (v & vstd::prelude::sub(v, 1)) as nat == v - pow2(lowest_set_bit(v as nat)),
{
    axiom_u16_trailing_zeros(v);
    let t = u16_trailing_zeros(v) as u16;
    assert(v == (v >> t) << t) by (bit_vector)
        requires
            t < 16,
            v << vstd::prelude::sub(16, t) == 0,
    ;
    assert((v >> t) % 2 == 1 && v & vstd::prelude::sub(v, 1) == vstd::prelude::sub(v, 1u16 << t)
        && (1u16 << t) <= v) by (bit_vector)
        requires
            t < 16,
            (v >> t) & 1 == 1,
            v == (v >> t) << t,
    ;
    lemma2_to64();
    lemma_u16_pow2_no_overflow(t as nat);
    lemma_u16_shl_is_mul(1, t);
    lemma_u16_shr_is_div(v, t);
    let q = v >> t;
    lemma_fundamental_div_mod(v as int, pow2(t as nat) as int);
    lemma_u16_shl_is_mul(q, t);
    lemma_mod_multiples_basic(q as int, pow2(t as nat) as int);
    assert(lowest_one_at(v as nat, t as nat));
    lemma_lowest_one_at_unique(v as nat, t as nat);
}

/// The lowest one bit of a nonzero `u32` is at `trailing_zeros`, and
/// `v & (v - 1)` clears it.
proof fn lemma_u32_lowest_set_bit(v: u32)
    requires
        v != 0,
    ensures
        u32_trailing_zeros(v) as nat == lowest_set_bit(v as nat),
        (v & vstd::prelude::sub(v, 1)) as nat == v - pow2(lowest_set_bit(v as nat)),
{
    axiom_u32_trailing_zeros(v);
    let t = u32_trailing_zeros(v) as u32;
    assert(v == (v >> t) << t) by (bit_vector)
        requires
            t < 32,
            v << vstd::prelude::sub(32, t) == 0,
    ;
    assert((v >> t) % 2 == 1 && v & vstd::prelude::sub(v, 1) == vstd::prelude::sub(v, 1u32 << t)
        && (1u32 << t) <= v) by (bit_vector)
        requires
            t < 32,
            (v >> t) & 1 == 1,
            v == (v >> t) << t,
    ;
    lemma2_to64();
    lemma_u32_pow2_no_overflow(t as nat);
    lemma_u32_shl_is_mul(1, t);
    lemma_u32_shr_is_div(v, t);
    let q = v >> t;
    lemma_fundamental_div_mod(v as int, pow2(t as nat) as int);
    lemma_u32_shl_is_mul(q, t);
    lemma_mod_multiples_basic(q as int, pow2(t as nat) as int);
    assert(lowest_one_at(v as nat, t as nat));
    lemma_lowest_one_at_unique(v as nat, t as nat);
}

/// The lowest one bit of a nonzero `u64` is at `trailing_zeros`, and
/// `v & (v - 1)` clears it.
proof fn lemma_u64_lowest_set_bit(v: u64)
    requires
        v != 0,
    ensures
        u64_trailing_zeros(v) as nat == lowest_set_bit(v as nat),
        (v & vstd::prelude::sub(v, 1)) as nat == v - pow2(lowest_set_bit(v as nat)),
{
    axiom_u64_trailing_zeros(v);
    let t = u64_trailing_zeros(v) as u64;
    assert(v == (v >> t) << t) by (bit_vector)
        requires
            t < 64,
            v << vstd::prelude::sub(64, t) == 0,
    ;
    assert((v >> t) % 2 == 1 && v & vstd::prelude::sub(v, 1) == vstd::prelude::sub(v, 1u64 << t)
        && (1u64 << t) <= v) by (bit_vector)
        requires
            t < 64,
            (v >> t) & 1 == 1,
            v == (v >> t) << t,
    ;
    lemma2_to64();
    lemma_u64_pow2_no_overflow(t as nat);
    lemma_u64_shl_is_mul(1, t);
    lemma_u64_shr_is_div(v, t);
    let q = v >> t;
    lemma_fundamental_div_mod(v as int, pow2(t as nat) as int);
    lemma_u64_shl_is_mul(q, t);
    lemma_mod_multiples_basic(q as int, pow2(t as nat) as int);
    assert(lowest_one_at(v as nat, t as nat));
    lemma_lowest_one_at_unique(v as nat, t as nat);
}

impl Uint for u8 {
    open spec fn width() -> nat {
        8
    }

    open spec fn value(self) -> nat {
        self as nat
    }

    proof fn lemma_width() {
        lemma2_to64();
    }

    proof fn lemma_value_fits(self) {
        lemma2_to64();
    }

    fn bits() -> (r: usize) {
        8
    }

    fn zero() -> (r: Self) {
        0
    }

    fn is_zero(self) -> (r: bool) {
        self == 0
    }

    fn trailing_zeros(self) -> (r: Self) {
        proof {
            axiom_u8_trailing_zeros(self);
            if self != 0 {
                lemma_u8_lowest_set_bit(self);
            }
        }
        u8::trailing_zeros(self) as u8
    }

    fn clear_lowest_set_bit(self) -> (r: Self) {
        proof {
            lemma_u8_lowest_set_bit(self);
        }
        self & (self - 1)
    }

    fn to_usize(self) -> (r: usize) {
        self as usize
    }
}

impl Uint for u16 {
    open spec fn width() -> nat {
        16
    }

    open spec fn value(self) -> nat {
        self as nat
    }

    proof fn lemma_width() {
        lemma2_to64();
    }

    proof fn lemma_value_fits(self) {
        lemma2_to64();
    }

    fn bits() -> (r: usize) {
        16
    }

    fn zero() -> (r: Self) {
        0
    }

    fn is_zero(self) -> (r: bool) {
        self == 0
    }

    fn trailing_zeros(self) -> (r: Self) {
        proof {
            axiom_u16_trailing_zeros(self);
            if self != 0 {
                lemma_u16_lowest_set_bit(self);
            }
        }
        u16::trailing_zeros(self) as u16
    }

    fn clear_lowest_set_bit(self) -> (r: Self) {
        proof {
            lemma_u16_lowest_set_bit(self);
        }
        self & (self - 1)
    }

    fn to_usize(self) -> (r: usize) {
        self as usize
    }
}

impl Uint for u32 {
    open spec fn width() -> nat {
        32
    }

    open spec fn value(self) -> nat {
        self as nat
    }

    proof fn lemma_width() {
        lemma2_to64();
    }

    proof fn lemma_value_fits(self) {
        lemma2_to64();
    }

    fn bits() -> (r: usize) {
        32
    }

    fn zero() -> (r: Self) {
        0
    }

    fn is_zero(self) -> (r: bool) {
        self == 0
    }

    fn trailing_zeros(self) -> (r: Self) {
        proof {
            axiom_u32_trailing_zeros(self);
            if self != 0 {
                lemma_u32_lowest_set_bit(self);
            }
        }
        u32::trailing_zeros(self) as u32
    }

    fn clear_lowest_set_bit(self) -> (r: Self) {
        proof {
            lemma_u32_lowest_set_bit(self);
        }
        self & (self - 1)
    }

    fn to_usize(self) -> (r: usize) {
        self as usize
    }
}

impl Uint for u64 {
    open spec fn width() -> nat {
        64
    }

    open spec fn value(self) -> nat {
        self as nat
    }

    proof fn lemma_width() {
        lemma2_to64();
    }

    proof fn lemma_value_fits(self) {
        lemma2_to64();
    }

    fn bits() -> (r: usize) {
        64
    }

    fn zero() -> (r: Self) {
        0
    }

    fn is_zero(self) -> (r: bool) {
        self == 0
    }

    fn trailing_zeros(self) -> (r: Self) {
        proof {
            axiom_u64_trailing_zeros(self);
            if self != 0 {
                lemma_u64_lowest_set_bit(self);
            }
        }
        u64::trailing_zeros(self) as u64
    }

    fn clear_lowest_set_bit(self) -> (r: Self) {
        proof {
            lemma_u64_lowest_set_bit(self);
        }
        self & (self - 1)
    }

    fn to_usize(self) -> (r: usize) {
        self as usize
    }
}


/// Relies on `u128::trailing_zeros`: the number of zero bits below the lowest
/// one bit, which is 128 for zero.
#[verifier::external_body]
fn u128_trailing_zeros(v: u128) -> (r: u32)
    ensures
        r == if v == 0 {
            128
        } else {
            lowest_set_bit(v as nat)
        },
{
    v.trailing_zeros()
}

/// Shifting a `u128` left by `t` multiplies it by `2^t` while the product
/// fits.
proof fn lemma_u128_shl_is_mul(x: u128, t: u128)
    requires
        t < 128,
        x * pow2(t as nat) <= u128::MAX,
    ensures
        (x << t) as nat == x * pow2(t as nat),
    decreases t,
{
    unsigned_int_max_values();
    if t == 0 {
        assert(x << 0 == x) by (bit_vector);
        lemma2_to64();
    } else {
        let tp = (t - 1) as u128;
        lemma_pow2_unfold(t as nat);
        lemma_pow2_pos(tp as nat);
        assert(x * pow2(tp as nat) <= u128::MAX) by (nonlinear_arith)
            requires
                x * (2 * pow2(tp as nat)) <= u128::MAX,
                pow2(tp as nat) > 0,
        ;
        lemma_u128_shl_is_mul(x, tp);
        let y = x << tp;
        assert(2 * (y as int) <= u128::MAX) by (nonlinear_arith)
            requires
                y == x * pow2(tp as nat),
                x * (2 * pow2(tp as nat)) <= u128::MAX,
        ;
        assert(x << t == (y as int) + (y as int)) by (bit_vector)
            requires
                0 < t < 128,
                tp == t - 1,
                y == x << tp,
                2 * (y as int) <= u128::MAX,
        ;
        assert(x * pow2(t as nat) == 2 * (x * pow2(tp as nat))) by (nonlinear_arith)
            requires
                pow2(t as nat) == 2 * pow2(tp as nat),
        ;
    }
}

/// `v & (v - 1)` clears the lowest one bit of a nonzero `u128`.
proof fn lemma_u128_clear_lowest_set_bit(v: u128)
    requires
        v != 0,
    ensures
        (v & vstd::prelude::sub(v, 1)) as nat == v - pow2(lowest_set_bit(v as nat)),
{
    unsigned_int_max_values();
    lemma_lowest_set_bit(v as nat);
    let tn = lowest_set_bit(v as nat);
    lemma_lowest_set_bit_fits(v as nat, 128);
    let t = tn as u128;
    lemma_u128_shr_is_div(v, t);
    let q = v >> t;
    lemma_pow2_pos(tn);
    lemma_fundamental_div_mod(v as int, pow2(tn) as int);
    assert(q * pow2(tn) == v && pow2(tn) <= v) by (nonlinear_arith)
        requires
            v == pow2(tn) * (v as nat / pow2(tn)) + v as nat % pow2(tn),
            v as nat % pow2(tn) == 0,
            q == v as nat / pow2(tn),
            q % 2 == 1,
    ;
    lemma_u128_shl_is_mul(q, t);
    lemma_u128_shl_is_mul(1, t);
    assert(v & vstd::prelude::sub(v, 1) == vstd::prelude::sub(v, 1u128 << t) && (1u128 << t) <= v)
        by (bit_vector)
        requires
            t < 128,
            (v >> t) % 2 == 1,
            v == (v >> t) << t,
    ;
}

impl Uint for u128 {
    open spec fn width() -> nat {
        128
    }

    open spec fn value(self) -> nat {
        self as nat
    }

    proof fn lemma_width() {
        unsigned_int_max_values();
    }

    proof fn lemma_value_fits(self) {
        unsigned_int_max_values();
    }

    fn bits() -> (r: usize) {
        128
    }

    fn zero() -> (r: Self) {
        0
    }

    fn is_zero(self) -> (r: bool) {
        self == 0
    }

    fn trailing_zeros(self) -> (r: Self) {
        u128_trailing_zeros(self) as u128
    }

    fn clear_lowest_set_bit(self) -> (r: Self) {
        proof {
            lemma_u128_clear_lowest_set_bit(self);
        }
        self & (self - 1)
    }

    fn to_usize(self) -> (r: usize) {
        self as usize
    }
}

impl Uint for usize {
    open spec fn width() -> nat {
        usize::BITS as nat
    }

    open spec fn value(self) -> nat {
        self as nat
    }

    proof fn lemma_width() {
        unsigned_int_max_values();
    }

    proof fn lemma_value_fits(self) {
        unsigned_int_max_values();
    }

    fn bits() -> (r: usize) {
        usize::BITS as usize
    }

    fn zero() -> (r: Self) {
        0
    }

    fn is_zero(self) -> (r: bool) {
        self == 0
    }

    fn trailing_zeros(self) -> (r: Self) {
        if self == 0 {
            usize::BITS as usize
        } else {
            proof {
                lemma_u64_lowest_set_bit(self as u64);
            }
            (self as u64).trailing_zeros() as usize
        }
    }

    fn clear_lowest_set_bit(self) -> (r: Self) {
        let v = self as u64;
        proof {
            lemma_u64_lowest_set_bit(v);
            assert(v & vstd::prelude::sub(v, 1) == (self & vstd::prelude::sub(self, 1)) as u64)
                by (bit_vector)
                requires
                    v == self as u64,
            ;
        }
        self & (self - 1)
    }

    fn to_usize(self) -> (r: usize) {
        self
    }
}

} // verus!
