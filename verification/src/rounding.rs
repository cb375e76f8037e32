//! Rounding keeps the order of the numbers, and with it the operations do.
use vstd::arithmetic::div_mod::lemma_fundamental_div_mod;
use vstd::arithmetic::power2::{lemma2_to64, lemma_pow2_adds, lemma_pow2_pos, lemma_pow2_strictly_increases, lemma_pow2_unfold, pow2};
use vstd::prelude::*;

use crate::arith::{half_even, lemma_half_even_bounds, lemma_powers, lemma_rounded_zero, lemma_scale_unique, product, quotient, rounded, scale_of, whole};
use crate::num::{lemma_magnitude_grows, lemma_zero_magnitude, magnitude, INFINITE, STEP};
use crate::single::{lemma_px_magnitude_grows, lemma_px_zero, narrowed, px_magnitude, px_nearest, px_product, px_quotient, px_shift, px_significand, px_sum, px_whole, SMALL_INFINITE, SMALL_STEP};

verus! {

/// The larger quotient is not rounded to the smaller integer.
proof fn lemma_half_even_grows(n: nat, d: nat, m: nat, e: nat)
    requires
        d > 0,
        e > 0,
        n * e <= m * d,
    ensures
        half_even(n, d) <= half_even(m, e),
{
    let q: int = n as int / d as int;
    let r: int = n as int % d as int;
    let p: int = m as int / e as int;
    let t: int = m as int % e as int;
    lemma_fundamental_div_mod(n as int, d as int);
    lemma_fundamental_div_mod(m as int, e as int);
    assert(q * (d * e) + r * e <= p * (d * e) + t * d) by (nonlinear_arith)
        requires
            n == d * q + r,
            m == e * p + t,
            n * e <= m * d,
    ;
    assert(q <= p) by (nonlinear_arith)
        requires
            q * (d * e) + r * e <= p * (d * e) + t * d,
            0 <= r,
            t < e,
            d > 0,
            e > 0,
    ;
    if q == p {
        assert(r * e <= t * d);
        if half_even(n, d) == q + 1 {
            assert(2 * r >= d);
            assert(2 * t >= e) by (nonlinear_arith)
                requires
                    r * e <= t * d,
                    2 * r >= d,
                    d > 0,
                    e > 0,
            ;
            if 2 * t == e {
                assert(2 * r <= d) by (nonlinear_arith)
                    requires
                        r * e <= t * d,
                        2 * t == e,
                        e > 0,
                ;
            }
        }
    }
}

/// The larger integer is scaled down at least as far.
pub proof fn lemma_scale_grows(q: nat, p: nat, step: nat)
    requires
        q <= p,
    ensures
        scale_of(q, step) <= scale_of(p, step),
    decreases p,
{
    if p != 0 && p >= 2 * step && q != 0 && q >= 2 * step {
        lemma_scale_grows(q / 2, p / 2, step);
    }
}

/// An integer that is scaled down is as large as one that fits just so.
pub proof fn lemma_scale_fits(q: nat, step: nat)
    requires
        step > 0,
    ensures
        q < 2 * step * pow2(scale_of(q, step)),
        scale_of(q, step) > 0 ==> q >= step * pow2(scale_of(q, step)),
    decreases q,
{
    lemma2_to64();
    if q == 0 || q < 2 * step {
        assert(2 * step * 1 == 2 * step);
    } else {
        let s: nat = scale_of(q / 2, step);
        lemma_scale_fits(q / 2, step);
        lemma_pow2_unfold(s + 1);
        let p: int = pow2(s) as int;
        assert(2 * step * (2 * p) == 2 * (2 * step * p)) by (nonlinear_arith);
        assert(step * (2 * p) == 2 * (step * p)) by (nonlinear_arith);
        if s == 0 {
            assert(step * 1 == step);
        }
    }
}

/// What a quotient lies between, once its scale is known.
pub proof fn lemma_quotient_fits(n: nat, d: nat, step: nat)
    requires
        d > 0,
        step > 0,
    ensures
        half_even(n, d * pow2(scale_of(n / d, step))) <= 2 * step,
        scale_of(n / d, step) > 0 ==> half_even(n, d * pow2(scale_of(n / d, step))) >= step,
{
    let q: nat = n / d;
    let s: nat = scale_of(q, step);
    let p: nat = pow2(s);
    lemma_pow2_pos(s);
    lemma_scale_fits(q, step);
    lemma_fundamental_div_mod(n as int, d as int);
    let r: int = n as int % d as int;
    assert(n < d * (2 * step * p)) by (nonlinear_arith)
        requires
            n == d * q + r,
            r < d,
            q + 1 <= 2 * step * p,
    ;
    if s > 0 {
        assert(n >= d * (step * p)) by (nonlinear_arith)
            requires
                n == d * q + r,
                r >= 0,
                q >= step * p,
        ;
    }
    lemma_half_even_bounds(n, d, p, s > 0, step);
}

/// The larger quotient is not rounded to the smaller pattern.
pub proof fn lemma_rounded_grows(n: nat, d: nat, m: nat, e: nat, step: nat)
    requires
        d > 0,
        e > 0,
        step > 0,
        n * e <= m * d,
    ensures
        rounded(n, d, step) <= rounded(m, e, step),
{
    let q: nat = n / d;
    let p: nat = m / e;
    lemma_fundamental_div_mod(n as int, d as int);
    lemma_fundamental_div_mod(m as int, e as int);
    let r: int = n as int % d as int;
    let t: int = m as int % e as int;
    assert(q <= p) by (nonlinear_arith)
        requires
            n == d * q + r,
            m == e * p + t,
            n * e <= m * d,
            0 <= r,
            t < e,
            d > 0,
            e > 0,
    ;
    lemma_scale_grows(q, p, step);
    let s: nat = scale_of(q, step);
    let u: nat = scale_of(p, step);
    if s == u {
        let f: nat = pow2(s);
        lemma_pow2_pos(s);
        assert(d * f > 0 && e * f > 0 && n * (e * f) <= m * (d * f)) by (nonlinear_arith)
            requires
                d > 0,
                e > 0,
                f > 0,
                n * e <= m * d,
        ;
        lemma_half_even_grows(n, d * f, m, e * f);
    } else {
        lemma_quotient_fits(n, d, step);
        lemma_quotient_fits(m, e, step);
        assert(s * step + 2 * step <= u * step + step) by (nonlinear_arith)
            requires
                s + 1 <= u,
                step > 0,
        ;
    }
}

/// What is below a power of two is rounded to a pattern below that power's
/// exponent.
proof fn lemma_rounded_bounded(n: nat, step: nat, bits: nat, top: nat)
    requires
        step == pow2(bits),
        n < pow2(bits + top),
    ensures
        rounded(n, 1, step) <= top * step + 2 * step,
{
    lemma_pow2_pos(bits);
    let s: nat = scale_of(n / 1, step);
    assert(n / 1 == n);
    lemma_quotient_fits(n, 1, step);
    lemma_scale_fits(n, step);
    if s > top {
        lemma_pow2_adds(bits, s);
        lemma_pow2_strictly_increases(bits + top, bits + s);
        assert(false);
    }
    assert(s * step <= top * step) by (nonlinear_arith)
        requires
            s <= top,
    ;
}

/// What is one unit or more is not rounded to nothing.
proof fn lemma_rounded_positive(n: nat, d: nat, step: nat)
    requires
        d > 0,
        n >= d,
        step > 0,
    ensures
        rounded(n, d, step) > 0,
{
    let q: nat = n / d;
    let s: nat = scale_of(q, step);
    lemma_quotient_fits(n, d, step);
    lemma_fundamental_div_mod(n as int, d as int);
    let r: int = n as int % d as int;
    assert(q >= 1) by (nonlinear_arith)
        requires
            n == d * q + r,
            r < d,
            n >= d,
            d > 0,
    ;
    lemma2_to64();
    if s == 0 {
        assert(d * 1 == d);
        assert(0 * step == 0);
    } else {
        assert(s * step >= 0) by (nonlinear_arith);
    }
}

/// A larger or equal pattern has a larger or equal magnitude.
proof fn lemma_magnitude_order(a: u64, b: u64)
    requires
        a <= b,
    ensures
        magnitude(a as nat) <= magnitude(b as nat),
        b > 0 ==> magnitude(b as nat) > 0,
{
    lemma_zero_magnitude();
    if a < b {
        lemma_magnitude_grows(a as nat, b as nat);
    }
    if b > 0 {
        lemma_magnitude_grows(0, b as nat);
    }
}

/// A larger or equal pattern has a larger or equal magnitude.
proof fn lemma_px_magnitude_order(a: u32, b: u32)
    requires
        a <= b,
    ensures
        px_magnitude(a as nat) <= px_magnitude(b as nat),
        b > 0 ==> px_magnitude(b as nat) > 0,
{
    lemma_px_zero();
    if a < b {
        lemma_px_magnitude_grows(a as nat, b as nat);
    }
    if b > 0 {
        lemma_px_magnitude_grows(0, b as nat);
    }
}

/// The larger of two integers is the larger number, and finite.
pub proof fn lemma_whole_grows(v: u64, w: u64)
    requires
        v <= w,
    ensures
        whole(v as int) <= whole(w as int) < INFINITE,
        w > 0 ==> whole(w as int) > 0,
{
    let unit: nat = pow2(1074);
    lemma_pow2_pos(1074);
    let n: nat = v as nat * unit;
    let m: nat = w as nat * unit;
    assert(n * 1 <= m * 1) by (nonlinear_arith)
        requires
            n == v * unit,
            m == w * unit,
            v <= w,
    ;
    lemma_rounded_grows(n, 1, m, 1, STEP as nat);
    lemma2_to64();
    lemma_pow2_adds(64, 1074);
    assert(m < pow2(64) * unit) by (nonlinear_arith)
        requires
            m == w * unit,
            w < pow2(64),
            unit > 0,
    ;
    assert(52 + 1086 == 64 + 1074);
    lemma_powers();
    lemma_rounded_bounded(m, STEP as nat, 52, 1086);
    if w > 0 {
        assert(m >= 1) by (nonlinear_arith)
            requires
                m == w * unit,
                w > 0,
                unit > 0,
        ;
        lemma_rounded_positive(m, 1, STEP as nat);
    }
}

/// The larger of two numbers has the larger share of a third.
pub proof fn lemma_quotient_grows(a: u64, b: u64, d: u64)
    requires
        a <= b < INFINITE,
        0 < d < INFINITE,
    ensures
        quotient(a, d) <= quotient(b, d) <= INFINITE,
{
    lemma_magnitude_order(a, b);
    lemma_magnitude_order(0, d);
    lemma_pow2_pos(1074);
    let x: nat = magnitude(a as nat);
    let y: nat = magnitude(b as nat);
    let z: nat = magnitude(d as nat);
    let unit: nat = pow2(1074);
    assert((x * unit) * z <= (y * unit) * z) by (nonlinear_arith)
        requires
            x <= y,
    ;
    lemma_rounded_grows(x * unit, z, y * unit, z, STEP as nat);
}

/// The larger of two numbers has the larger product with a third.
pub proof fn lemma_product_grows(a: u64, b: u64, f: u64)
    requires
        a <= b <= INFINITE,
        0 < f < INFINITE,
    ensures
        product(a, f) <= product(b, f) <= INFINITE,
{
    lemma_magnitude_order(a, b);
    lemma_pow2_pos(1074);
    let x: nat = magnitude(a as nat);
    let y: nat = magnitude(b as nat);
    let z: nat = magnitude(f as nat);
    let unit: nat = pow2(1074);
    assert((x * z) * unit <= (y * z) * unit) by (nonlinear_arith)
        requires
            x <= y,
    ;
    lemma_rounded_grows(x * z, unit, y * z, unit, STEP as nat);
}

/// The larger of two numbers is the larger one in single precision too.
pub proof fn lemma_narrowed_grows(a: u64, b: u64)
    requires
        a <= b <= INFINITE,
    ensures
        narrowed(a) <= narrowed(b) <= SMALL_INFINITE,
{
    lemma_magnitude_order(a, b);
    lemma_pow2_pos(925);
    let x: nat = magnitude(a as nat);
    let y: nat = magnitude(b as nat);
    let unit: nat = pow2(925);
    assert(x * unit <= y * unit) by (nonlinear_arith)
        requires
            x <= y,
    ;
    lemma_rounded_grows(x, unit, y, unit, SMALL_STEP as nat);
}

/// The larger of two integers is the larger length, and finite.
pub proof fn lemma_px_whole_grows(v: u64, w: u64)
    requires
        v <= w,
    ensures
        px_whole(v as nat) <= px_whole(w as nat) < SMALL_INFINITE,
        w > 0 ==> px_whole(w as nat) > 0,
{
    let unit: nat = pow2(149);
    lemma_pow2_pos(149);
    let n: nat = v as nat * unit;
    let m: nat = w as nat * unit;
    assert(n * 1 <= m * 1) by (nonlinear_arith)
        requires
            n == v * unit,
            m == w * unit,
            v <= w,
    ;
    lemma_rounded_grows(n, 1, m, 1, SMALL_STEP as nat);
    lemma2_to64();
    lemma_pow2_adds(64, 149);
    assert(m < pow2(64) * unit) by (nonlinear_arith)
        requires
            m == w * unit,
            w < pow2(64),
            unit > 0,
    ;
    assert(23 + 190 == 64 + 149);
    lemma_rounded_bounded(m, SMALL_STEP as nat, 23, 190);
    if w > 0 {
        assert(m >= 1) by (nonlinear_arith)
            requires
                m == w * unit,
                w > 0,
                unit > 0,
        ;
        lemma_rounded_positive(m, 1, SMALL_STEP as nat);
    }
}

/// A length is the one nearest to its own magnitude.
proof fn lemma_px_exact(m: u32)
    requires
        m < SMALL_INFINITE,
    ensures
        px_nearest(px_magnitude(m as nat), 1) == m,
{
    let step: nat = SMALL_STEP as nat;
    let s: nat = px_shift(m as nat);
    let f: nat = px_significand(m as nat);
    let p: nat = pow2(s);
    let n: nat = px_magnitude(m as nat);
    lemma_pow2_pos(s);
    assert(f < 2 * step);
    assert(n < 2 * step * p) by (nonlinear_arith)
        requires
            n == f * p,
            f < 2 * step,
            p > 0,
    ;
    if s > 0 {
        assert(n >= step * p) by (nonlinear_arith)
            requires
                n == f * p,
                f >= step,
        ;
    }
    lemma_scale_unique(n, s, step);
    assert(n / 1 == n);
    assert(1 * p == p);
    vstd::arithmetic::div_mod::lemma_fundamental_div_mod_converse(n as int, p as int, f as int, 0);
    assert(half_even(n, p) == f);
    assert(s * step + f == m) by {
        if m >= SMALL_STEP {
            lemma_fundamental_div_mod(m as int, step as int);
            let q: int = m as int / step as int;
            assert(step * q == q * step) by (nonlinear_arith);
            assert((q - 1) * step == q * step - step) by (nonlinear_arith);
        } else {
            assert(0 * step == 0);
        }
    }
}

/// Of two lengths that are added to a third the larger gives the larger sum;
/// no sum is smaller than the third.
pub proof fn lemma_px_sum_grows(a: u32, b: u32, c: u32)
    requires
        a <= b <= SMALL_INFINITE,
        c < SMALL_INFINITE,
    ensures
        px_sum(c, a) <= px_sum(c, b) <= SMALL_INFINITE,
        c <= px_sum(c, a),
{
    lemma_px_magnitude_order(a, b);
    lemma_px_exact(c);
    lemma_rounded_zero(1, SMALL_STEP as nat);
    let x: nat = px_magnitude(a as nat);
    let y: nat = px_magnitude(b as nat);
    let z: nat = px_magnitude(c as nat);
    lemma_rounded_grows(z, 1, z + x, 1, SMALL_STEP as nat);
    lemma_rounded_grows(z + x, 1, z + y, 1, SMALL_STEP as nat);
}

/// The two sides of a sum can be exchanged.
proof fn lemma_px_sum_commutes(a: u32, b: u32)
    requires
        a < SMALL_INFINITE,
        b < SMALL_INFINITE,
    ensures
        px_sum(a, b) == px_sum(b, a),
{
}

/// The larger of two finite lengths has the larger sum with a third.
pub proof fn lemma_px_added_grows(a: u32, b: u32, c: u32)
    requires
        a <= b < SMALL_INFINITE,
        c < SMALL_INFINITE,
    ensures
        px_sum(a, c) <= px_sum(b, c) <= SMALL_INFINITE,
{
    lemma_px_sum_commutes(a, c);
    lemma_px_sum_commutes(b, c);
    lemma_px_sum_grows(a, b, c);
}

/// The larger of two lengths has the larger share of a third.
pub proof fn lemma_px_quotient_grows(a: u32, b: u32, d: u32)
    requires
        a <= b <= SMALL_INFINITE,
        0 < d < SMALL_INFINITE,
    ensures
        px_quotient(a, d) <= px_quotient(b, d) <= SMALL_INFINITE,
{
    lemma_px_magnitude_order(a, b);
    lemma_px_magnitude_order(0, d);
    lemma_pow2_pos(149);
    let x: nat = px_magnitude(a as nat);
    let y: nat = px_magnitude(b as nat);
    let z: nat = px_magnitude(d as nat);
    let unit: nat = pow2(149);
    assert((x * unit) * z <= (y * unit) * z) by (nonlinear_arith)
        requires
            x <= y,
    ;
    lemma_rounded_grows(x * unit, z, y * unit, z, SMALL_STEP as nat);
}

/// The larger of two lengths has the larger product with a third.
pub proof fn lemma_px_product_grows(a: u32, b: u32, f: u32)
    requires
        a <= b <= SMALL_INFINITE,
        0 < f < SMALL_INFINITE,
    ensures
        px_product(a, f) <= px_product(b, f) <= SMALL_INFINITE,
{
    lemma_px_magnitude_order(a, b);
    lemma_pow2_pos(149);
    let x: nat = px_magnitude(a as nat);
    let y: nat = px_magnitude(b as nat);
    let z: nat = px_magnitude(f as nat);
    let unit: nat = pow2(149);
    assert((x * z) * unit <= (y * z) * unit) by (nonlinear_arith)
        requires
            x <= y,
    ;
    lemma_rounded_grows(x * z, unit, y * z, unit, SMALL_STEP as nat);
}

} // verus!
