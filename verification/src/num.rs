//! Binary floating-point numbers, carried as their 64-bit patterns.
//!
//! A [`Num`] holds the IEEE 754 double-precision pattern of a number. The
//! model of a finite number is an integer: its value counted in units of the
//! smallest positive number, 2^-1074. Every operation of this module and of
//! [`crate::arith`] is integer arithmetic on the pattern.
use vstd::prelude::*;
use vstd::arithmetic::power2::{lemma_pow2_pos, lemma_pow2_unfold, pow2};

verus! {

/// 2^52, the weight of the lowest exponent bit.
pub const STEP: u64 = 0x10_0000_0000_0000;

/// The sign bit, which is also the pattern of negative zero.
pub const SIGN: u64 = 0x8000_0000_0000_0000;

/// The pattern of positive infinity.
pub const INFINITE: u64 = 0x7ff0_0000_0000_0000;

/// The pattern that stands for "not a number".
pub const NAN: u64 = 0x7ff8_0000_0000_0000;

/// A double-precision number, as its bit pattern.
#[derive(Clone, Copy, Debug, PartialEq, Eq, Structural)]
pub struct Num {
    pub bits: u64,
}

/// Whether the sign bit of `b` is set.
pub open spec fn negative(b: u64) -> bool {
    b >= SIGN
}

/// The pattern of `b` without its sign.
pub open spec fn unsigned(b: u64) -> nat {
    if b >= SIGN {
        (b - SIGN) as nat
    } else {
        b as nat
    }
}

/// Whether `b` is not a number.
pub open spec fn nan(b: u64) -> bool {
    unsigned(b) > INFINITE
}

/// Whether `b` is one of the two infinities.
pub open spec fn infinite(b: u64) -> bool {
    unsigned(b) == INFINITE
}

/// Whether `b` is neither infinite nor "not a number".
pub open spec fn finite(b: u64) -> bool {
    unsigned(b) < INFINITE
}

/// The power of two by which the significand of the pattern `m` is scaled.
pub open spec fn shift_of(m: nat) -> nat {
    if m < STEP {
        0
    } else {
        (m / STEP as nat - 1) as nat
    }
}

/// The significand of the pattern `m`, with its implicit leading bit.
pub open spec fn significand(m: nat) -> nat {
    if m < STEP {
        m
    } else {
        STEP as nat + m % STEP as nat
    }
}

/// The magnitude of the unsigned pattern `m`, in units of 2^-1074.
pub open spec fn magnitude(m: nat) -> nat {
    significand(m) * pow2(shift_of(m))
}

/// The value of the finite number `b`, in units of 2^-1074.
pub open spec fn value(b: u64) -> int {
    if negative(b) {
        -(magnitude(unsigned(b)) as int)
    } else {
        magnitude(unsigned(b)) as int
    }
}

/// The place of `b` in the order of the numbers that are not "not a number".
pub open spec fn rank(b: u64) -> int {
    if negative(b) {
        -(unsigned(b) as int)
    } else {
        unsigned(b) as int
    }
}

/// `a < b`; false where either side is not a number.
pub open spec fn less(a: u64, b: u64) -> bool {
    !nan(a) && !nan(b) && rank(a) < rank(b)
}

/// `a == b` as numbers: zero equals negative zero, nothing equals "not a number".
pub open spec fn same(a: u64, b: u64) -> bool {
    !nan(a) && !nan(b) && rank(a) == rank(b)
}

/// `b` with every pattern of "not a number" replaced by [`NAN`].
pub open spec fn settled(b: u64) -> u64 {
    if nan(b) {
        NAN
    } else {
        b
    }
}

/// `b` without its sign.
pub open spec fn absolute(b: u64) -> u64 {
    unsigned(b) as u64
}

/// `b` with its sign turned round.
pub open spec fn opposite(b: u64) -> u64 {
    if b >= SIGN {
        (b - SIGN) as u64
    } else {
        (b + SIGN) as u64
    }
}

/// `b` kept between the bounds `low` and `high`; "not a number" stays.
pub open spec fn clamped(b: u64, low: u64, high: u64) -> u64 {
    if less(b, low) {
        low
    } else if less(high, b) {
        high
    } else {
        b
    }
}

/// The larger unsigned pattern has the larger magnitude.
pub proof fn lemma_magnitude_grows(a: nat, b: nat)
    requires
        a < b,
    ensures
        magnitude(a) < magnitude(b),
    decreases b - a,
{
    if a + 1 < b {
        lemma_magnitude_grows(a, (b - 1) as nat);
        lemma_magnitude_grows((b - 1) as nat, b);
    } else {
        let e: nat = shift_of(a);
        lemma_pow2_pos(e);
        let p: int = pow2(e) as int;
        let sa: int = significand(a) as int;
        if b < STEP {
            assert(shift_of(b) == 0 && shift_of(a) == 0);
            assert(sa * p < (sa + 1) * p) by (nonlinear_arith)
                requires
                    p > 0,
            ;
        } else if a < STEP {
            assert(b == STEP);
            assert(shift_of(b) == 0 && shift_of(a) == 0);
            assert(significand(b) == sa + 1);
            assert(sa * p < (sa + 1) * p) by (nonlinear_arith)
                requires
                    p > 0,
            ;
        } else if a % STEP as nat == STEP - 1 {
            assert(b % STEP as nat == 0 && b / STEP as nat == a / STEP as nat + 1);
            assert(shift_of(b) == e + 1);
            lemma_pow2_unfold(e + 1);
            assert(pow2(e + 1) == 2 * p);
            assert(sa == 2 * STEP - 1);
            assert(significand(b) == STEP);
            assert((2 * STEP - 1) * p < STEP * (2 * p)) by (nonlinear_arith)
                requires
                    p > 0,
            ;
        } else {
            assert(b % STEP as nat == a % STEP as nat + 1 && b / STEP as nat == a / STEP as nat);
            assert(shift_of(b) == e);
            assert(significand(b) == sa + 1);
            assert(sa * p < (sa + 1) * p) by (nonlinear_arith)
                requires
                    p > 0,
            ;
        }
    }
}

/// The pattern zero has the magnitude zero.
pub proof fn lemma_zero_magnitude()
    ensures
        magnitude(0) == 0,
{
    assert(0 * pow2(0) == 0);
}

/// The order of finite numbers is the order of their values.
pub proof fn lemma_order_is_value_order(a: u64, b: u64)
    requires
        finite(a),
        finite(b),
    ensures
        less(a, b) <==> value(a) < value(b),
        same(a, b) <==> value(a) == value(b),
{
    let m: nat = unsigned(a);
    let n: nat = unsigned(b);
    if m < n {
        lemma_magnitude_grows(m, n);
    }
    if n < m {
        lemma_magnitude_grows(n, m);
    }
    if m > 0 {
        lemma_magnitude_grows(0, m);
    }
    if n > 0 {
        lemma_magnitude_grows(0, n);
    }
    lemma_zero_magnitude();
}

/// Clamping keeps a number that is one within its bounds.
pub proof fn lemma_clamped_within(b: u64, low: u64, high: u64)
    requires
        !nan(b),
        !nan(low),
        !nan(high),
        !less(high, low),
    ensures
        !nan(clamped(b, low, high)),
        !less(clamped(b, low, high), low),
        !less(high, clamped(b, low, high)),
{
}

impl Num {
    /// The number whose pattern is `bits`, with every "not a number" made one.
    pub fn of_bits(bits: u64) -> (r: Num)
        ensures
            r.bits == settled(bits),
    {
        let n = Num { bits };
        if n.is_nan() {
            Num { bits: NAN }
        } else {
            n
        }
    }

    /// The pattern without its sign.
    pub fn unsigned_bits(self) -> (m: u64)
        ensures
            m == unsigned(self.bits),
    {
        if self.bits >= SIGN {
            self.bits - SIGN
        } else {
            self.bits
        }
    }

    /// Whether the sign bit is set.
    pub fn is_negative(self) -> (r: bool)
        ensures
            r == negative(self.bits),
    {
        self.bits >= SIGN
    }

    /// Whether the number is "not a number".
    pub fn is_nan(self) -> (r: bool)
        ensures
            r == nan(self.bits),
    {
        self.unsigned_bits() > INFINITE
    }

    /// Whether the number is neither infinite nor "not a number".
    pub fn is_finite(self) -> (r: bool)
        ensures
            r == finite(self.bits),
    {
        self.unsigned_bits() < INFINITE
    }

    /// `self < other`.
    pub fn lt(self, other: Num) -> (r: bool)
        ensures
            r == less(self.bits, other.bits),
    {
        if self.is_nan() || other.is_nan() {
            false
        } else {
            let a: u64 = self.unsigned_bits();
            let b: u64 = other.unsigned_bits();
            match (self.is_negative(), other.is_negative()) {
                (false, false) => a < b,
                (true, true) => b < a,
                (true, false) => a > 0 || b > 0,
                (false, true) => false,
            }
        }
    }

    /// `self == other`.
    pub fn equals(self, other: Num) -> (r: bool)
        ensures
            r == same(self.bits, other.bits),
    {
        if self.is_nan() || other.is_nan() {
            false
        } else {
            self.bits == other.bits || (self.unsigned_bits() == 0 && other.unsigned_bits() == 0)
        }
    }

    /// `self <= other`.
    pub fn le(self, other: Num) -> (r: bool)
        ensures
            r == (less(self.bits, other.bits) || same(self.bits, other.bits)),
    {
        self.lt(other) || self.equals(other)
    }

    /// The absolute value.
    pub fn abs(self) -> (r: Num)
        ensures
            r.bits == absolute(self.bits),
    {
        Num { bits: self.unsigned_bits() }
    }

    /// The number with the other sign.
    pub fn neg(self) -> (r: Num)
        ensures
            r.bits == opposite(self.bits),
    {
        if self.bits >= SIGN {
            Num { bits: self.bits - SIGN }
        } else {
            Num { bits: self.bits + SIGN }
        }
    }

    /// The number kept within `low` and `high`.
    pub fn clamp(self, low: Num, high: Num) -> (r: Num)
        ensures
            r.bits == clamped(self.bits, low.bits, high.bits),
    {
        if self.lt(low) {
            low
        } else if high.lt(self) {
            high
        } else {
            self
        }
    }
}

} // verus!
