//! Lengths in pixels: single-precision numbers, carried as their bit patterns.
use vstd::arithmetic::power2::{lemma2_to64, lemma_pow2_adds, lemma_pow2_pos, pow2};
use vstd::prelude::*;

use crate::arith::{add_parts, divide_parts, multiply_parts, parts, round, rounded_below, subtract_parts};
use crate::num::{magnitude, nan, negative, unsigned, Num, INFINITE};

verus! {

/// 2^23, the weight of the lowest exponent bit.
pub const SMALL_STEP: u32 = 0x80_0000;

/// The sign bit.
pub const SMALL_SIGN: u32 = 0x8000_0000;

/// The pattern of positive infinity.
pub const SMALL_INFINITE: u32 = 0x7f80_0000;

/// The pattern that stands for "not a number".
pub const SMALL_NAN: u32 = 0x7fc0_0000;

/// A length in pixels, as the bit pattern of a single-precision number.
#[derive(Debug, Clone, Copy, PartialEq, Eq, Structural)]
pub struct Px {
    pub bits: u32,
}

/// Whether the sign bit is set.
pub open spec fn px_negative(b: u32) -> bool {
    b >= SMALL_SIGN
}

/// The pattern without its sign.
pub open spec fn px_unsigned(b: u32) -> nat {
    if b >= SMALL_SIGN {
        (b - SMALL_SIGN) as nat
    } else {
        b as nat
    }
}

/// Whether `b` is not a number.
pub open spec fn px_nan(b: u32) -> bool {
    px_unsigned(b) > SMALL_INFINITE
}

/// Whether `b` is infinite.
pub open spec fn px_infinite(b: u32) -> bool {
    px_unsigned(b) == SMALL_INFINITE
}

/// The place of `b` in the order of the numbers.
pub open spec fn px_rank(b: u32) -> int {
    if px_negative(b) {
        -(px_unsigned(b) as int)
    } else {
        px_unsigned(b) as int
    }
}

/// `a < b`.
pub open spec fn px_less(a: u32, b: u32) -> bool {
    !px_nan(a) && !px_nan(b) && px_rank(a) < px_rank(b)
}

/// Whether two lengths are equal as numbers.
pub open spec fn same_length(a: Px, b: Px) -> bool {
    !px_nan(a.bits) && !px_nan(b.bits) && px_rank(a.bits) == px_rank(b.bits)
}

/// The power of two by which the significand is scaled.
pub open spec fn px_shift(m: nat) -> nat {
    if m < SMALL_STEP {
        0
    } else {
        (m / SMALL_STEP as nat - 1) as nat
    }
}

/// The significand with its leading bit.
pub open spec fn px_significand(m: nat) -> nat {
    if m < SMALL_STEP {
        m
    } else {
        SMALL_STEP as nat + m % SMALL_STEP as nat
    }
}

/// The magnitude of an unsigned pattern, in units of 2^-149.
pub open spec fn px_magnitude(m: nat) -> nat {
    px_significand(m) * pow2(px_shift(m))
}

/// The value of a finite length, in units of 2^-149.
pub open spec fn px_value(b: u32) -> int {
    if px_negative(b) {
        -(px_magnitude(px_unsigned(b)) as int)
    } else {
        px_magnitude(px_unsigned(b)) as int
    }
}

/// The unsigned pattern of the length nearest to `n / d` units of 2^-149.
pub open spec fn px_nearest(n: nat, d: nat) -> u32 {
    rounded_below(n, d, SMALL_STEP as nat, SMALL_INFINITE as nat) as u32
}

/// The pattern with the sign `neg`.
pub open spec fn px_signed(neg: bool, m: u32) -> u32 {
    if neg && m < SMALL_SIGN {
        (m + SMALL_SIGN) as u32
    } else {
        m
    }
}

/// `a + b`.
pub open spec fn px_sum(a: u32, b: u32) -> u32 {
    if px_nan(a) || px_nan(b) {
        SMALL_NAN
    } else if px_infinite(a) {
        if px_infinite(b) && a != b {
            SMALL_NAN
        } else {
            a
        }
    } else if px_infinite(b) {
        b
    } else {
        let v: int = px_value(a) + px_value(b);
        if v > 0 {
            px_nearest(v as nat, 1)
        } else if v < 0 {
            px_signed(true, px_nearest((-v) as nat, 1))
        } else if px_negative(a) && px_negative(b) {
            SMALL_SIGN
        } else {
            0
        }
    }
}

/// `b` with the other sign.
pub open spec fn px_opposite(b: u32) -> u32 {
    if b >= SMALL_SIGN {
        (b - SMALL_SIGN) as u32
    } else {
        (b + SMALL_SIGN) as u32
    }
}

/// `a - b`.
pub open spec fn px_difference(a: u32, b: u32) -> u32 {
    if px_nan(a) || px_nan(b) {
        SMALL_NAN
    } else {
        px_sum(a, px_opposite(b))
    }
}

/// `a * b`.
pub open spec fn px_product(a: u32, b: u32) -> u32 {
    let neg: bool = px_negative(a) != px_negative(b);
    if px_nan(a) || px_nan(b) {
        SMALL_NAN
    } else if px_infinite(a) || px_infinite(b) {
        if px_unsigned(a) == 0 || px_unsigned(b) == 0 {
            SMALL_NAN
        } else {
            px_signed(neg, SMALL_INFINITE)
        }
    } else {
        px_signed(
            neg,
            px_nearest(px_magnitude(px_unsigned(a)) * px_magnitude(px_unsigned(b)), pow2(149)),
        )
    }
}

/// `a / b`.
pub open spec fn px_quotient(a: u32, b: u32) -> u32 {
    let neg: bool = px_negative(a) != px_negative(b);
    if px_nan(a) || px_nan(b) {
        SMALL_NAN
    } else if px_infinite(a) {
        if px_infinite(b) {
            SMALL_NAN
        } else {
            px_signed(neg, SMALL_INFINITE)
        }
    } else if px_infinite(b) {
        px_signed(neg, 0)
    } else if px_unsigned(b) == 0 {
        if px_unsigned(a) == 0 {
            SMALL_NAN
        } else {
            px_signed(neg, SMALL_INFINITE)
        }
    } else {
        px_signed(
            neg,
            px_nearest(px_magnitude(px_unsigned(a)) * pow2(149), px_magnitude(px_unsigned(b))),
        )
    }
}

/// The larger of two lengths; "not a number" gives way.
pub open spec fn px_larger(a: u32, b: u32) -> u32 {
    if px_nan(a) || px_less(a, b) {
        b
    } else {
        a
    }
}

/// The smaller of two lengths; "not a number" gives way.
pub open spec fn px_smaller(a: u32, b: u32) -> u32 {
    if px_nan(a) || px_less(b, a) {
        b
    } else {
        a
    }
}

/// The length nearest to the integer `v`.
pub open spec fn px_whole(v: nat) -> u32 {
    px_nearest(v * pow2(149), 1)
}

/// The least integer that is not below `b`, as far as it fits 32 bits; "not a
/// number" gives zero.
pub open spec fn px_ceiling(b: u32) -> nat {
    if px_nan(b) || px_negative(b) {
        0
    } else if px_infinite(b) {
        u32::MAX as nat
    } else {
        let unit: nat = pow2(149);
        let m: nat = px_magnitude(px_unsigned(b));
        let up: nat = (m + unit - 1) as nat / unit;
        if up > u32::MAX {
            u32::MAX as nat
        } else {
            up
        }
    }
}

/// The single-precision number nearest to the double-precision number `b`.
pub open spec fn narrowed(b: u64) -> u32 {
    if nan(b) {
        SMALL_NAN
    } else if unsigned(b) == INFINITE {
        px_signed(negative(b), SMALL_INFINITE)
    } else {
        px_signed(negative(b), px_nearest(magnitude(unsigned(b)), pow2(925)))
    }
}

/// The powers of two of the format.
proof fn lemma_small_powers()
    ensures
        pow2(23) == SMALL_STEP,
        pow2(24) == 2 * SMALL_STEP,
{
    lemma2_to64();
}

/// The larger pattern has the larger magnitude.
pub proof fn lemma_px_magnitude_grows(a: nat, b: nat)
    requires
        a < b,
    ensures
        px_magnitude(a) < px_magnitude(b),
    decreases b - a,
{
    if a + 1 < b {
        lemma_px_magnitude_grows(a, (b - 1) as nat);
        lemma_px_magnitude_grows((b - 1) as nat, b);
    } else {
        let e: nat = px_shift(a);
        lemma_pow2_pos(e);
        let p: int = pow2(e) as int;
        let sa: int = px_significand(a) as int;
        assert(sa * p < (sa + 1) * p) by (nonlinear_arith)
            requires
                p > 0,
        ;
        if b < SMALL_STEP || a < SMALL_STEP {
            assert(px_shift(b) == 0 && px_shift(a) == 0);
            assert(px_significand(b) == sa + 1);
        } else if a % SMALL_STEP as nat == SMALL_STEP - 1 {
            assert(b % SMALL_STEP as nat == 0 && b / SMALL_STEP as nat == a / SMALL_STEP as nat
                + 1);
            assert(px_shift(b) == e + 1);
            vstd::arithmetic::power2::lemma_pow2_unfold(e + 1);
            assert(px_significand(b) == SMALL_STEP);
            assert((2 * SMALL_STEP - 1) * p < SMALL_STEP * (2 * p)) by (nonlinear_arith)
                requires
                    p > 0,
            ;
        } else {
            assert(b % SMALL_STEP as nat == a % SMALL_STEP as nat + 1 && b / SMALL_STEP as nat
                == a / SMALL_STEP as nat);
            assert(px_shift(b) == e);
            assert(px_significand(b) == sa + 1);
        }
    }
}

/// The pattern zero has the magnitude zero.
pub proof fn lemma_px_zero()
    ensures
        px_magnitude(0) == 0,
{
    assert(0 * pow2(0) == 0);
}

/// The significand and the shift of an unsigned pattern below infinity.
fn px_parts(m: u32) -> (r: (u64, u32))
    requires
        m < SMALL_INFINITE,
    ensures
        r.0 == px_significand(m as nat),
        r.1 == px_shift(m as nat),
        r.0 < 2 * SMALL_STEP,
        r.1 <= 253,
        r.1 > 0 ==> r.0 >= SMALL_STEP,
        m > 0 ==> r.0 > 0,
{
    if m < SMALL_STEP {
        (m as u64, 0)
    } else {
        (SMALL_STEP as u64 + (m % SMALL_STEP) as u64, m / SMALL_STEP - 1)
    }
}

fn signed(neg: bool, m: u64) -> (r: Px)
    requires
        m <= SMALL_INFINITE,
    ensures
        r.bits == px_signed(neg, m as u32),
{
    if neg {
        Px { bits: m as u32 + SMALL_SIGN }
    } else {
        Px { bits: m as u32 }
    }
}

impl Px {
    /// The pattern without its sign.
    pub fn unsigned_bits(self) -> (m: u32)
        ensures
            m == px_unsigned(self.bits),
    {
        if self.bits >= SMALL_SIGN {
            self.bits - SMALL_SIGN
        } else {
            self.bits
        }
    }

    /// Whether the length is not a number.
    pub fn is_nan(self) -> (r: bool)
        ensures
            r == px_nan(self.bits),
    {
        self.unsigned_bits() > SMALL_INFINITE
    }

    /// Whether two lengths are equal as numbers.
    pub fn equals(self, other: Px) -> (r: bool)
        ensures
            r == same_length(self, other),
    {
        !self.is_nan() && !other.is_nan() && (self.bits == other.bits || (self.unsigned_bits() == 0
            && other.unsigned_bits() == 0))
    }

    /// `self < other`.
    pub fn lt(self, other: Px) -> (r: bool)
        ensures
            r == px_less(self.bits, other.bits),
    {
        if self.is_nan() || other.is_nan() {
            return false;
        }
        let a: u32 = self.unsigned_bits();
        let b: u32 = other.unsigned_bits();
        match (self.bits >= SMALL_SIGN, other.bits >= SMALL_SIGN) {
            (false, false) => a < b,
            (true, true) => b < a,
            (true, false) => a > 0 || b > 0,
            (false, true) => false,
        }
    }

    /// The larger of two lengths.
    pub fn max(self, other: Px) -> (r: Px)
        ensures
            r.bits == px_larger(self.bits, other.bits),
    {
        if self.is_nan() || self.lt(other) {
            other
        } else {
            self
        }
    }

    /// The smaller of two lengths.
    pub fn min(self, other: Px) -> (r: Px)
        ensures
            r.bits == px_smaller(self.bits, other.bits),
    {
        if self.is_nan() || other.lt(self) {
            other
        } else {
            self
        }
    }

    /// `self + other`.
    pub fn plus(self, other: Px) -> (r: Px)
        ensures
            r.bits == px_sum(self.bits, other.bits),
    {
        if self.is_nan() || other.is_nan() {
            return Px { bits: SMALL_NAN };
        }
        let a: u32 = self.unsigned_bits();
        let b: u32 = other.unsigned_bits();
        if a == SMALL_INFINITE {
            if b == SMALL_INFINITE && self.bits != other.bits {
                return Px { bits: SMALL_NAN };
            }
            return self;
        }
        if b == SMALL_INFINITE {
            return other;
        }
        proof {
            lemma_small_powers();
            lemma_px_zero();
            if a > 0 {
                lemma_px_magnitude_grows(0, a as nat);
            }
            if b > 0 {
                lemma_px_magnitude_grows(0, b as nat);
            }
            if a < b {
                lemma_px_magnitude_grows(a as nat, b as nat);
            }
            if b < a {
                lemma_px_magnitude_grows(b as nat, a as nat);
            }
        }
        let (ma, sa) = px_parts(a);
        let (mb, sb) = px_parts(b);
        let neg: bool = self.bits >= SMALL_SIGN;
        let other_neg: bool = other.bits >= SMALL_SIGN;
        if neg == other_neg {
            if a == 0 && b == 0 {
                return self;
            }
            let m: u64 = if b <= a {
                add_parts(ma, sa, mb, sb, 23, 254, 0x7f80_0000)
            } else {
                add_parts(mb, sb, ma, sa, 23, 254, 0x7f80_0000)
            };
            signed(neg, m)
        } else if a == b {
            Px { bits: 0 }
        } else if b < a {
            signed(neg, subtract_parts(ma, sa, mb, sb, 23, 254, 0x7f80_0000))
        } else {
            signed(other_neg, subtract_parts(mb, sb, ma, sa, 23, 254, 0x7f80_0000))
        }
    }

    /// `self - other`.
    pub fn minus(self, other: Px) -> (r: Px)
        ensures
            r.bits == px_difference(self.bits, other.bits),
    {
        if self.is_nan() || other.is_nan() {
            return Px { bits: SMALL_NAN };
        }
        let turned: u32 = if other.bits >= SMALL_SIGN {
            other.bits - SMALL_SIGN
        } else {
            other.bits + SMALL_SIGN
        };
        self.plus(Px { bits: turned })
    }

    /// `self * other`.
    pub fn times(self, other: Px) -> (r: Px)
        ensures
            r.bits == px_product(self.bits, other.bits),
    {
        if self.is_nan() || other.is_nan() {
            return Px { bits: SMALL_NAN };
        }
        let neg: bool = (self.bits >= SMALL_SIGN) != (other.bits >= SMALL_SIGN);
        let a: u32 = self.unsigned_bits();
        let b: u32 = other.unsigned_bits();
        if a == SMALL_INFINITE || b == SMALL_INFINITE {
            if a == 0 || b == 0 {
                return Px { bits: SMALL_NAN };
            }
            return signed(neg, SMALL_INFINITE as u64);
        }
        proof {
            lemma_small_powers();
        }
        let (ma, sa) = px_parts(a);
        let (mb, sb) = px_parts(b);
        signed(neg, multiply_parts(ma, sa, mb, sb, 149, 23, 254, 0x7f80_0000))
    }

    /// `self / other`.
    pub fn over(self, other: Px) -> (r: Px)
        ensures
            r.bits == px_quotient(self.bits, other.bits),
    {
        if self.is_nan() || other.is_nan() {
            return Px { bits: SMALL_NAN };
        }
        let neg: bool = (self.bits >= SMALL_SIGN) != (other.bits >= SMALL_SIGN);
        let a: u32 = self.unsigned_bits();
        let b: u32 = other.unsigned_bits();
        if a == SMALL_INFINITE {
            if b == SMALL_INFINITE {
                return Px { bits: SMALL_NAN };
            }
            return signed(neg, SMALL_INFINITE as u64);
        }
        if b == SMALL_INFINITE {
            return signed(neg, 0);
        }
        if b == 0 {
            if a == 0 {
                return Px { bits: SMALL_NAN };
            }
            return signed(neg, SMALL_INFINITE as u64);
        }
        proof {
            lemma_small_powers();
            lemma_px_zero();
            lemma_px_magnitude_grows(0, b as nat);
        }
        if a == 0 {
            proof {
                assert(0 * pow2(149) == 0);
                crate::arith::lemma_rounded_zero(px_magnitude(b as nat), SMALL_STEP as nat);
            }
            return signed(neg, 0);
        }
        let (ma, sa) = px_parts(a);
        let (mb, sb) = px_parts(b);
        signed(neg, divide_parts(ma, sa, mb, sb, 149, 23, 254, 0x7f80_0000))
    }

    /// The length nearest to `v`.
    pub fn of_u64(v: u64) -> (r: Px)
        ensures
            r.bits == px_whole(v as nat),
    {
        let ghost n: nat = v as nat * pow2(149);
        if v == 0 {
            proof {
                assert(n == 0) by (nonlinear_arith)
                    requires
                        n == 0 * pow2(149),
                ;
                crate::arith::lemma_rounded_zero(1, SMALL_STEP as nat);
            }
            return Px { bits: 0 };
        }
        proof {
            crate::arith::lemma_powers();
            lemma_small_powers();
            lemma_pow2_pos(149);
        }
        let x: u128 = v as u128 * 0x80_0000_0000_0000;
        proof {
            let unit: int = pow2(149) as int;
            assert(n * pow2(55) == 1 * unit * x) by (nonlinear_arith)
                requires
                    n == v * unit,
                    x == v * 0x80_0000_0000_0000,
                    pow2(55) == 0x80_0000_0000_0000,
            ;
        }
        signed(
            false,
            round(
                x,
                false,
                94,
                23,
                254,
                0x7f80_0000,
                Ghost(n),
                Ghost(1),
                Ghost(55),
                Ghost(0),
            ),
        )
    }
}

/// Rounding up does not change when both sides are scaled.
proof fn lemma_ceiling_scaled(f: nat, p: nat, s: nat)
    requires
        p > 0,
        s > 0,
    ensures
        (f * s + p * s - 1) as nat / (p * s) == (f + p - 1) as nat / p,
        p * s > 0,
{
    let q: int = (f + p - 1) / p as int;
    let r: int = (f + p - 1) % p as int;
    vstd::arithmetic::div_mod::lemma_fundamental_div_mod((f + p - 1) as int, p as int);
    let w: int = (p * s) as int;
    let rest: int = f * s + w - 1 - q * w;
    assert(w > 0 && 0 <= rest < w) by (nonlinear_arith)
        requires
            f + p - 1 == p * q + r,
            0 <= r < p,
            w == p * s,
            rest == f * s + w - 1 - q * w,
            s > 0,
            p > 0,
    ;
    vstd::arithmetic::div_mod::lemma_fundamental_div_mod_converse(f * s + w - 1, w, q, rest);
}

impl Px {
    /// The least integer that is not below the length, as far as it fits 32
    /// bits.
    pub fn ceiling(self) -> (r: u32)
        ensures
            r == px_ceiling(self.bits),
    {
        if self.is_nan() || self.bits >= SMALL_SIGN {
            return 0;
        }
        if self.bits == SMALL_INFINITE {
            return u32::MAX;
        }
        let (frac, shift) = px_parts(self.bits);
        let ghost unit: nat = pow2(149);
        let ghost m: nat = px_magnitude(self.bits as nat);
        proof {
            lemma2_to64();
            lemma_pow2_pos(149);
            lemma_pow2_pos(shift as nat);
        }
        if shift >= 149 {
            let k: u32 = shift - 149;
            let ghost p: nat = pow2(k as nat);
            proof {
                vstd::arithmetic::power2::lemma_pow2_adds(149, k as nat);
                lemma_pow2_pos(k as nat);
                assert(m == (frac * p) * unit) by (nonlinear_arith)
                    requires
                        m == frac * pow2(shift as nat),
                        pow2(shift as nat) == unit * p,
                ;
                let v: int = frac * p;
                assert((m + unit - 1) as nat / unit == v) by {
                    assert(v * unit + unit - 1 == v * unit + (unit - 1));
                    vstd::arithmetic::div_mod::lemma_fundamental_div_mod_converse(
                        v * unit + unit - 1,
                        unit as int,
                        v,
                        unit - 1,
                    );
                }
            }
            if k >= 9 {
                proof {
                    if k > 9 {
                        vstd::arithmetic::power2::lemma_pow2_strictly_increases(9, k as nat);
                    }
                    assert(frac * p >= 0x80_0000 * 512) by (nonlinear_arith)
                        requires
                            frac >= 0x80_0000,
                            p >= 512,
                    ;
                }
                return u32::MAX;
            }
            proof {
                if k < 9 {
                    vstd::arithmetic::power2::lemma_pow2_strictly_increases(k as nat, 9);
                }
                assert(frac * p <= 0x100_0000 * 512) by (nonlinear_arith)
                    requires
                        frac <= 0x100_0000,
                        p <= 512,
                ;
            }
            let v: u128 = frac as u128 * crate::arith::power(k);
            if v > u32::MAX as u128 {
                u32::MAX
            } else {
                v as u32
            }
        } else {
            let k: u32 = 149 - shift;
            let ghost p: nat = pow2(k as nat);
            proof {
                vstd::arithmetic::power2::lemma_pow2_adds(k as nat, shift as nat);
                lemma_pow2_pos(k as nat);
                lemma_ceiling_scaled(frac as nat, p, pow2(shift as nat));
            }
            if k >= 25 {
                proof {
                    if k > 25 {
                        vstd::arithmetic::power2::lemma_pow2_strictly_increases(25, k as nat);
                    }
                    if frac == 0 {
                        vstd::arithmetic::div_mod::lemma_basic_div(p - 1, p as int);
                    } else {
                        vstd::arithmetic::div_mod::lemma_fundamental_div_mod_converse(
                            frac + p - 1,
                            p as int,
                            1,
                            frac - 1,
                        );
                    }
                }
                if frac == 0 {
                    0
                } else {
                    1
                }
            } else {
                proof {
                    vstd::arithmetic::power2::lemma_pow2_strictly_increases(k as nat, 25);
                    vstd::arithmetic::div_mod::lemma_div_is_ordered_by_denominator(
                        frac + p - 1,
                        1,
                        p as int,
                    );
                }
                let d: u128 = crate::arith::power(k);
                ((frac as u128 + d - 1) / d) as u32
            }
        }
    }

    /// The single-precision number nearest to `v`.
    pub fn of_num(v: Num) -> (r: Px)
        ensures
            r.bits == narrowed(v.bits),
    {
        if v.is_nan() {
            return Px { bits: SMALL_NAN };
        }
        let m: u64 = v.unsigned_bits();
        if m == INFINITE {
            return signed(v.is_negative(), SMALL_INFINITE as u64);
        }
        let (frac, shift) = parts(m);
        let ghost n: nat = magnitude(m as nat);
        let ghost d: nat = pow2(925);
        proof {
            crate::arith::lemma_powers();
            lemma_small_powers();
            lemma_pow2_pos(925);
            lemma_pow2_pos(shift as nat);
            assert(n * d == d * pow2(shift as nat) * frac) by (nonlinear_arith)
                requires
                    n == frac * pow2(shift as nat),
            ;
            assert(d * pow2(shift as nat) > 0) by (nonlinear_arith)
                requires
                    d > 0,
                    pow2(shift as nat) > 0,
            ;
        }
        let r: u64 = round(
            frac as u128,
            false,
            shift as i32 - 925,
            23,
            254,
            0x7f80_0000,
            Ghost(n),
            Ghost(d),
            Ghost(925),
            Ghost(0),
        );
        signed(v.is_negative(), r)
    }
}

/// The whole part of `b`, as far as it fits 32 bits; "not a number" and
/// negative numbers give zero.
pub open spec fn px_truncated(b: u32) -> nat {
    if px_nan(b) || px_negative(b) {
        0
    } else if px_infinite(b) {
        u32::MAX as nat
    } else {
        let v: nat = px_magnitude(px_unsigned(b)) / pow2(149);
        if v > u32::MAX {
            u32::MAX as nat
        } else {
            v
        }
    }
}

impl Px {
    /// The whole part, as far as it fits 32 bits.
    pub fn truncated(self) -> (r: u32)
        ensures
            r == px_truncated(self.bits),
    {
        if self.is_nan() || self.bits >= SMALL_SIGN {
            return 0;
        }
        if self.bits == SMALL_INFINITE {
            return u32::MAX;
        }
        let (frac, shift) = px_parts(self.bits);
        let ghost unit: nat = pow2(149);
        let ghost m: nat = px_magnitude(self.bits as nat);
        proof {
            lemma2_to64();
            lemma_pow2_pos(149);
            lemma_pow2_pos(shift as nat);
        }
        if shift >= 149 {
            let k: u32 = shift - 149;
            let ghost p: nat = pow2(k as nat);
            proof {
                vstd::arithmetic::power2::lemma_pow2_adds(149, k as nat);
                lemma_pow2_pos(k as nat);
                assert(m == (frac * p) * unit + 0) by (nonlinear_arith)
                    requires
                        m == frac * pow2(shift as nat),
                        pow2(shift as nat) == unit * p,
                ;
                vstd::arithmetic::div_mod::lemma_fundamental_div_mod_converse(
                    m as int,
                    unit as int,
                    frac * p,
                    0,
                );
            }
            if k >= 9 {
                proof {
                    if k > 9 {
                        vstd::arithmetic::power2::lemma_pow2_strictly_increases(9, k as nat);
                    }
                    assert(frac * p >= 0x80_0000 * 512) by (nonlinear_arith)
                        requires
                            frac >= 0x80_0000,
                            p >= 512,
                    ;
                }
                return u32::MAX;
            }
            proof {
                vstd::arithmetic::power2::lemma_pow2_strictly_increases(k as nat, 9);
                assert(frac * p <= 0x100_0000 * 512) by (nonlinear_arith)
                    requires
                        frac <= 0x100_0000,
                        p <= 512,
                ;
            }
            let v: u128 = frac as u128 * crate::arith::power(k);
            if v > u32::MAX as u128 {
                u32::MAX
            } else {
                v as u32
            }
        } else {
            let k: u32 = 149 - shift;
            let ghost p: nat = pow2(k as nat);
            proof {
                vstd::arithmetic::power2::lemma_pow2_adds(k as nat, shift as nat);
                lemma_pow2_pos(k as nat);
                let s: int = pow2(shift as nat) as int;
                vstd::arithmetic::div_mod::lemma_div_multiples_vanish_quotient(
                    s,
                    frac as int,
                    p as int,
                );
                assert(s * frac == frac * s) by (nonlinear_arith);
                assert(s * p == p * s) by (nonlinear_arith);
            }
            if k >= 25 {
                proof {
                    if k > 25 {
                        vstd::arithmetic::power2::lemma_pow2_strictly_increases(25, k as nat);
                    }
                    vstd::arithmetic::div_mod::lemma_basic_div(frac as int, p as int);
                }
                0
            } else {
                proof {
                    vstd::arithmetic::div_mod::lemma_div_is_ordered_by_denominator(
                        frac as int,
                        1,
                        p as int,
                    );
                }
                (frac as u128 / crate::arith::power(k)) as u32
            }
        }
    }
}

/// A pattern whose significand is `v` times a power of two that its shift makes up
/// to the unit is the number `v`.
pub proof fn lemma_px_whole_number(b: u32, v: nat, k: nat)
    requires
        !px_negative(b),
        px_significand(b as nat) == v * pow2(k),
        k + px_shift(b as nat) == 149,
    ensures
        px_value(b) == v * pow2(149),
{
    lemma_pow2_adds(k, px_shift(b as nat));
    let a: nat = pow2(k);
    let c: nat = pow2(px_shift(b as nat));
    assert(v * a * c == v * (a * c)) by (nonlinear_arith);
}

/// The whole part of a number that is not negative and fits 32 bits is the integer
/// at or below it.
pub proof fn lemma_px_truncated(b: u32)
    requires
        !px_negative(b),
        !px_nan(b),
        !px_infinite(b),
        px_value(b) < 0x1_0000_0000 * pow2(149),
    ensures
        px_truncated(b) * pow2(149) <= px_value(b) < (px_truncated(b) + 1) * pow2(149),
{
    let unit: int = pow2(149) as int;
    let m: int = px_value(b);
    lemma_pow2_pos(149);
    vstd::arithmetic::div_mod::lemma_fundamental_div_mod(m, unit);
    let q: int = m / unit;
    let r: int = m % unit;
    assert(q * unit <= m < (q + 1) * unit) by (nonlinear_arith)
        requires
            m == unit * q + r,
            0 <= r < unit,
    ;
    assert(q < 0x1_0000_0000) by (nonlinear_arith)
        requires
            q * unit <= m,
            m < 0x1_0000_0000 * unit,
            unit > 0,
    ;
    assert(q >= 0) by (nonlinear_arith)
        requires
            m >= 0,
            m < (q + 1) * unit,
            unit > 0,
    ;
}

} // verus!
