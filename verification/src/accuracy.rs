//! How far the results of the operations are from the exact ones.
use vstd::arithmetic::div_mod::lemma_fundamental_div_mod;
use vstd::arithmetic::power2::{lemma2_to64, lemma_pow2_adds, lemma_pow2_pos, lemma_pow2_strictly_increases, lemma_pow2_unfold, pow2};
use vstd::prelude::*;

use crate::arith::{difference, half_even, lemma_powers, nearest, product, quotient, rounded, scale_of, sum};
use crate::num::{finite, lemma_zero_magnitude, magnitude, negative, opposite, unsigned, value, INFINITE, STEP};
use crate::rounding::{lemma_quotient_fits, lemma_scale_fits};

verus! {

/// The distance of two integers.
pub open spec fn gap(a: int, b: int) -> int {
    if a < b {
        b - a
    } else {
        a - b
    }
}

/// The size of an integer.
pub open spec fn size(a: int) -> int {
    gap(a, 0)
}

/// The nearest integer is at most half a unit away.
proof fn lemma_half_even_error(n: nat, d: nat)
    requires
        d > 0,
    ensures
        2 * gap((half_even(n, d) * d) as int, n as int) <= d,
{
    let q: int = n as int / d as int;
    let r: int = n as int % d as int;
    lemma_fundamental_div_mod(n as int, d as int);
    assert(q * d + r == n && (q + 1) * d == q * d + d) by (nonlinear_arith)
        requires
            n == d * q + r,
    ;
}

/// The magnitude of a pattern that is put together of a scale and a
/// significand.
proof fn lemma_put_together(s: nat, h: nat)
    requires
        h <= 2 * STEP,
        s > 0 ==> h >= STEP,
    ensures
        magnitude(s * STEP as nat + h) == h * pow2(s),
{
    let step: int = STEP as int;
    let m: nat = s * STEP as nat + h;
    lemma2_to64();
    assert(s * step >= 0) by (nonlinear_arith)
        requires
            step > 0,
    ;
    if h < STEP {
        assert(s == 0 && m == h) by {
            assert(0 * step == 0);
        }
    } else if h < 2 * STEP {
        assert((s + 1) * step == s * step + step) by (nonlinear_arith);
        vstd::arithmetic::div_mod::lemma_fundamental_div_mod_converse(
            m as int,
            step,
            s as int + 1,
            h - step,
        );
    } else {
        assert((s + 2) * step == s * step + 2 * step) by (nonlinear_arith);
        vstd::arithmetic::div_mod::lemma_fundamental_div_mod_converse(m as int, step, s as int + 2, 0);
        lemma_pow2_unfold(s + 1);
        let p: int = pow2(s) as int;
        assert(step * (2 * p) == (2 * step) * p) by (nonlinear_arith);
    }
}

/// The number nearest to `n / d` units is off by no more than the last of its 53
/// bits allows, or by half a unit.
pub proof fn lemma_nearest_error(n: nat, d: nat)
    requires
        d > 0,
        nearest(n, d) < INFINITE,
    ensures
        pow2(53) * gap((magnitude(nearest(n, d) as nat) * d) as int, n as int) <= n + pow2(52) * d,
        d == 1 ==> pow2(53) * gap(magnitude(nearest(n, d) as nat) as int, n as int) <= n,
{
    let step: nat = STEP as nat;
    let s: nat = scale_of(n / d, step);
    let p: nat = pow2(s);
    lemma_pow2_pos(s);
    lemma_powers();
    lemma_quotient_fits(n, d, step);
    lemma_scale_fits(n / d, step);
    let h: nat = half_even(n, d * p);
    assert(d * p > 0) by (nonlinear_arith)
        requires
            d > 0,
            p > 0,
    ;
    lemma_half_even_error(n, d * p);
    lemma_put_together(s, h);
    assert(rounded(n, d, step) < INFINITE);
    let m: int = magnitude(nearest(n, d) as nat) as int;
    assert(m == h * p);
    assert(m * d == h * (d * p)) by (nonlinear_arith)
        requires
            m == h * p,
    ;
    let g: int = gap(m * d, n as int);
    assert(2 * g <= d * p);
    if s == 0 {
        lemma2_to64();
        assert(d * 1 == d);
        assert(pow2(53) * g <= pow2(52) * d) by (nonlinear_arith)
            requires
                2 * g <= d,
                pow2(53) == 2 * pow2(52),
                g >= 0,
        ;
        if d == 1 {
            assert(g == 0);
            assert(pow2(53) * 0 == 0);
        }
    } else {
        lemma_fundamental_div_mod(n as int, d as int);
        let q: int = n as int / d as int;
        let r: int = n as int % d as int;
        assert(n >= d * (step * p)) by (nonlinear_arith)
            requires
                n == d * q + r,
                r >= 0,
                q >= step * p,
                d > 0,
        ;
        assert(pow2(53) * g <= d * (step * p)) by (nonlinear_arith)
            requires
                2 * g <= d * p,
                pow2(53) == 2 * step,
                g >= 0,
        ;
        assert(pow2(52) * d >= 0) by (nonlinear_arith)
            requires
                pow2(52) >= 0,
                d > 0,
        ;
        if d == 1 {
            assert(m * 1 == m);
        }
    }
}

/// What is not beyond a power of two is rounded to a finite number.
pub proof fn lemma_nearest_finite(n: nat, d: nat)
    requires
        d > 0,
        n < d * pow2(1900),
    ensures
        nearest(n, d) < INFINITE,
{
    let step: nat = STEP as nat;
    let q: nat = n / d;
    let s: nat = scale_of(q, step);
    lemma_powers();
    lemma_quotient_fits(n, d, step);
    lemma_scale_fits(q, step);
    lemma_fundamental_div_mod(n as int, d as int);
    let r: int = n as int % d as int;
    assert(q < pow2(1900)) by (nonlinear_arith)
        requires
            n == d * q + r,
            r >= 0,
            n < d * pow2(1900),
            d > 0,
    ;
    if s > 1848 {
        lemma_pow2_adds(52, s);
        lemma_pow2_strictly_increases(1900, 52 + s);
        assert(false);
    }
    assert(s * step <= 1848 * step) by (nonlinear_arith)
        requires
            s <= 1848,
    ;
}

/// The value of the pattern with a sign.
proof fn lemma_signed_value(neg: bool, m: u64)
    requires
        m < INFINITE,
    ensures
        finite(crate::arith::with_sign(neg, m)),
        value(crate::arith::with_sign(neg, m)) == if neg {
            -(magnitude(m as nat) as int)
        } else {
            magnitude(m as nat) as int
        },
{
    lemma_zero_magnitude();
}

/// A sum is off by no more than the last of its 53 bits allows.
pub proof fn lemma_sum_close(a: u64, b: u64)
    requires
        finite(a),
        finite(b),
        size(value(a) + value(b)) < pow2(1900),
    ensures
        finite(sum(a, b)),
        pow2(53) * gap(value(sum(a, b)), value(a) + value(b)) <= size(value(a) + value(b)),
{
    let v: int = value(a) + value(b);
    let n: nat = size(v) as nat;
    lemma_zero_magnitude();
    if v != 0 {
        assert(n < 1 * pow2(1900));
        lemma_nearest_finite(n, 1);
        lemma_nearest_error(n, 1);
        lemma_signed_value(v < 0, nearest(n, 1));
    } else {
        assert(pow2(53) * 0 == 0);
    }
}

/// The value of the opposite.
proof fn lemma_opposite_value(b: u64)
    requires
        finite(b),
    ensures
        finite(opposite(b)),
        value(opposite(b)) == -value(b),
{
    lemma_zero_magnitude();
}

/// A difference is off by no more than the last of its 53 bits allows.
pub proof fn lemma_difference_close(a: u64, b: u64)
    requires
        finite(a),
        finite(b),
        size(value(a) - value(b)) < pow2(1900),
    ensures
        finite(difference(a, b)),
        pow2(53) * gap(value(difference(a, b)), value(a) - value(b)) <= size(value(a) - value(b)),
{
    lemma_opposite_value(b);
    lemma_sum_close(a, opposite(b));
}

/// A product is off by no more than the last of its 53 bits allows, or by half a
/// unit.
pub proof fn lemma_product_close(a: u64, b: u64)
    requires
        finite(a),
        finite(b),
        size(value(a) * value(b)) < pow2(1074) * pow2(1900),
    ensures
        finite(product(a, b)),
        pow2(53) * gap(value(product(a, b)) * pow2(1074), value(a) * value(b)) <= size(
            value(a) * value(b),
        ) + pow2(52) * pow2(1074),
{
    let x: nat = magnitude(unsigned(a));
    let y: nat = magnitude(unsigned(b));
    let neg: bool = negative(a) != negative(b);
    let unit: nat = pow2(1074);
    let n: nat = x * y;
    lemma_pow2_pos(1074);
    assert(value(a) * value(b) == if neg {
        -(n as int)
    } else {
        n as int
    }) by {
        assert((-(x as int)) * (y as int) == -(n as int)) by (nonlinear_arith)
            requires
                n == x * y,
        ;
        assert((x as int) * (-(y as int)) == -(n as int)) by (nonlinear_arith)
            requires
                n == x * y,
        ;
        assert((-(x as int)) * (-(y as int)) == n) by (nonlinear_arith)
            requires
                n == x * y,
        ;
    }
    lemma_nearest_finite(n, unit);
    lemma_nearest_error(n, unit);
    let m: nat = magnitude(nearest(n, unit) as nat);
    lemma_signed_value(neg, nearest(n, unit));
    if neg {
        assert((-(m as int)) * unit == -(m * unit)) by (nonlinear_arith);
        assert(gap(-(m * unit), -(n as int)) == gap((m * unit) as int, n as int));
    }
}

/// A quotient is off by no more than the last of its 53 bits allows, or by half a
/// unit.
pub proof fn lemma_quotient_close(a: u64, b: u64)
    requires
        finite(a),
        finite(b),
        value(b) != 0,
        size(value(a)) * pow2(1074) < size(value(b)) * pow2(1900),
    ensures
        finite(quotient(a, b)),
        pow2(53) * gap(value(quotient(a, b)) * value(b), value(a) * pow2(1074)) <= size(value(a))
            * pow2(1074) + pow2(52) * size(value(b)),
{
    let x: nat = magnitude(unsigned(a));
    let y: nat = magnitude(unsigned(b));
    let neg: bool = negative(a) != negative(b);
    let unit: nat = pow2(1074);
    let n: nat = x * unit;
    lemma_zero_magnitude();
    assert(y > 0 && unsigned(b) != 0);
    lemma_nearest_finite(n, y);
    lemma_nearest_error(n, y);
    let m: nat = magnitude(nearest(n, y) as nat);
    lemma_signed_value(neg, nearest(n, y));
    let q: int = value(quotient(a, b));
    let vb: int = value(b);
    let va: int = value(a);
    if negative(a) {
        assert(va * unit == -(n as int)) by (nonlinear_arith)
            requires
                va == -(x as int),
                n == x * unit,
        ;
        assert(q * vb == -(m * y)) by (nonlinear_arith)
            requires
                (q == -(m as int) && vb == y as int) || (q == m as int && vb == -(y as int)),
        ;
        assert(gap(-(m * y), -(n as int)) == gap((m * y) as int, n as int));
    } else {
        assert(q * vb == m * y) by (nonlinear_arith)
            requires
                (q == -(m as int) && vb == -(y as int)) || (q == m as int && vb == y as int),
        ;
    }
}

/// An integer of 53 bits, scaled by a power of two, is a number itself.
pub proof fn lemma_nearest_exact(k: nat, e: nat)
    requires
        k < pow2(53),
        e <= 1800,
    ensures
        nearest(k * pow2(e), 1) < INFINITE,
        magnitude(nearest(k * pow2(e), 1) as nat) == k * pow2(e),
{
    let step: nat = STEP as nat;
    let n: nat = k * pow2(e);
    let s: nat = scale_of(n / 1, step);
    lemma_powers();
    lemma_pow2_pos(e);
    lemma_pow2_pos(s);
    assert(n / 1 == n);
    lemma_scale_fits(n, step);
    lemma_quotient_fits(n, 1, step);
    let p: int = pow2(s) as int;
    assert(n < pow2(53) * pow2(e)) by (nonlinear_arith)
        requires
            n == k * pow2(e),
            k < pow2(53),
            pow2(e) > 0,
    ;
    lemma_pow2_adds(53, e);
    if s > e {
        lemma_pow2_adds(52, s);
        if s > e + 1 {
            lemma_pow2_strictly_increases(53 + e, 52 + s);
        }
        assert(false);
    }
    let rest: nat = pow2((e - s) as nat);
    lemma_pow2_adds((e - s) as nat, s);
    let h: int = (k * rest) as int;
    assert(n == h * p) by (nonlinear_arith)
        requires
            n == k * pow2(e),
            pow2(e) == rest * p,
            h == k * rest,
    ;
    vstd::arithmetic::div_mod::lemma_fundamental_div_mod_converse(n as int, p, h, 0);
    assert(1 * p == p);
    assert(half_even(n, 1 * pow2(s)) == h);
    lemma_put_together(s, h as nat);
    assert(s * step <= 1800 * step) by (nonlinear_arith)
        requires
            s <= 1800,
    ;
    assert(h * p == n);
}

/// Whether `b` is the integer `k`, scaled by a power of two.
pub open spec fn is_scaled(b: u64, k: int, e: nat) -> bool {
    finite(b) && value(b) == k * pow2(e)
}

/// A sum of integers with one scale is exact.
pub proof fn lemma_sum_exact(a: u64, ka: int, b: u64, kb: int, e: nat)
    requires
        is_scaled(a, ka, e),
        is_scaled(b, kb, e),
        size(ka + kb) < pow2(53),
        e <= 1800,
    ensures
        is_scaled(sum(a, b), ka + kb, e),
{
    let p: int = pow2(e) as int;
    let k: int = ka + kb;
    let n: nat = size(k) as nat;
    lemma_pow2_pos(e);
    lemma_zero_magnitude();
    assert(ka * p + kb * p == k * p) by (nonlinear_arith)
        requires
            k == ka + kb,
    ;
    assert(size(k * p) == n * p) by (nonlinear_arith)
        requires
            n == size(k),
            p > 0,
    ;
    lemma_nearest_exact(n, e);
    lemma_signed_value(k < 0, nearest(n * pow2(e), 1));
    if k == 0 {
        assert(0 * p == 0);
    } else {
        assert(k < 0 ==> k * p < 0) by (nonlinear_arith)
            requires
                p > 0,
        ;
        assert(k > 0 ==> k * p > 0) by (nonlinear_arith)
            requires
                p > 0,
        ;
    }
}

/// A difference of integers with one scale is exact.
pub proof fn lemma_difference_exact(a: u64, ka: int, b: u64, kb: int, e: nat)
    requires
        is_scaled(a, ka, e),
        is_scaled(b, kb, e),
        size(ka - kb) < pow2(53),
        e <= 1800,
    ensures
        is_scaled(difference(a, b), ka - kb, e),
{
    lemma_opposite_value(b);
    assert(-(kb * pow2(e)) == (-kb) * pow2(e)) by (nonlinear_arith);
    lemma_sum_exact(a, ka, opposite(b), -kb, e);
}

/// A product of scaled integers is exact.
pub proof fn lemma_product_exact(a: u64, ka: int, ea: nat, b: u64, kb: int, eb: nat)
    requires
        is_scaled(a, ka, ea),
        is_scaled(b, kb, eb),
        size(ka * kb) < pow2(53),
        1074 <= ea + eb <= 2800,
    ensures
        is_scaled(product(a, b), ka * kb, (ea + eb - 1074) as nat),
{
    let e: nat = (ea + eb - 1074) as nat;
    let pa: int = pow2(ea) as int;
    let pb: int = pow2(eb) as int;
    let p: int = pow2(e) as int;
    let unit: nat = pow2(1074);
    let k: int = ka * kb;
    let n: nat = size(k) as nat;
    let x: nat = magnitude(unsigned(a));
    let y: nat = magnitude(unsigned(b));
    lemma_pow2_pos(ea);
    lemma_pow2_pos(eb);
    lemma_pow2_pos(e);
    lemma_pow2_pos(1074);
    lemma_pow2_adds(ea, eb);
    lemma_pow2_adds(e, 1074);
    assert(pa * pb == p * unit);
    assert(size(ka) * pa == x) by (nonlinear_arith)
        requires
            ka * pa == value(a),
            size(value(a)) == x,
            pa > 0,
    ;
    assert(size(kb) * pb == y) by (nonlinear_arith)
        requires
            kb * pb == value(b),
            size(value(b)) == y,
            pb > 0,
    ;
    assert(n == size(ka) * size(kb)) by (nonlinear_arith)
        requires
            n == size(ka * kb),
    ;
    assert(x * y == (n * p) * unit) by (nonlinear_arith)
        requires
            size(ka) * pa == x,
            size(kb) * pb == y,
            n == size(ka) * size(kb),
            pa * pb == p * unit,
    ;
    crate::arith::lemma_nearest_scaled((n * pow2(e)) as nat, 1, unit);
    assert(1 * unit == unit);
    lemma_nearest_exact(n, e);
    let neg: bool = negative(a) != negative(b);
    lemma_signed_value(neg, nearest(n * pow2(e), 1));
    lemma_zero_magnitude();
    let m: int = (n * pow2(e)) as int;
    assert(value(product(a, b)) == if neg {
        -m
    } else {
        m
    });
    assert(negative(a) ==> ka <= 0) by (nonlinear_arith)
        requires
            negative(a) ==> value(a) <= 0,
            ka * pa == value(a),
            pa > 0,
    ;
    assert(!negative(a) ==> ka >= 0) by (nonlinear_arith)
        requires
            !negative(a) ==> value(a) >= 0,
            ka * pa == value(a),
            pa > 0,
    ;
    assert(negative(b) ==> kb <= 0) by (nonlinear_arith)
        requires
            negative(b) ==> value(b) <= 0,
            kb * pb == value(b),
            pb > 0,
    ;
    assert(!negative(b) ==> kb >= 0) by (nonlinear_arith)
        requires
            !negative(b) ==> value(b) >= 0,
            kb * pb == value(b),
            pb > 0,
    ;
    assert(neg ==> k <= 0) by (nonlinear_arith)
        requires
            k == ka * kb,
            negative(a) ==> ka <= 0,
            !negative(a) ==> ka >= 0,
            negative(b) ==> kb <= 0,
            !negative(b) ==> kb >= 0,
            neg == (negative(a) != negative(b)),
    ;
    assert(!neg ==> k >= 0) by (nonlinear_arith)
        requires
            k == ka * kb,
            negative(a) ==> ka <= 0,
            !negative(a) ==> ka >= 0,
            negative(b) ==> kb <= 0,
            !negative(b) ==> kb >= 0,
            neg == (negative(a) != negative(b)),
    ;
    if neg {
        assert(n == -k);
        assert((-k) * p == -(k * p)) by (nonlinear_arith);
    } else {
        assert(n == k);
    }
}

/// A sum has the sign of the exact one.
pub proof fn lemma_sum_sign(a: u64, b: u64)
    requires
        finite(a),
        finite(b),
        size(value(a) + value(b)) < pow2(1900),
    ensures
        finite(sum(a, b)),
        value(sum(a, b)) < 0 <==> value(a) + value(b) < 0,
        value(sum(a, b)) > 0 <==> value(a) + value(b) > 0,
{
    lemma_sum_close(a, b);
    lemma_near_sign(value(sum(a, b)), value(a) + value(b));
}

/// A difference has the sign of the exact one.
pub proof fn lemma_difference_sign(a: u64, b: u64)
    requires
        finite(a),
        finite(b),
        size(value(a) - value(b)) < pow2(1900),
    ensures
        finite(difference(a, b)),
        value(difference(a, b)) < 0 <==> value(a) < value(b),
        value(difference(a, b)) > 0 <==> value(a) > value(b),
{
    lemma_opposite_value(b);
    lemma_sum_sign(a, opposite(b));
}

/// What is near enough has the same sign.
proof fn lemma_near_sign(r: int, v: int)
    requires
        pow2(53) * gap(r, v) <= size(v),
    ensures
        r < 0 <==> v < 0,
        r > 0 <==> v > 0,
{
    lemma_powers();
    let g: int = gap(r, v);
    assert(2 * g <= size(v)) by (nonlinear_arith)
        requires
            pow2(53) * g <= size(v),
            pow2(53) >= 2,
            g >= 0,
    ;
}

/// A product of one unit or more has the sign of the exact one.
pub proof fn lemma_product_sign(a: u64, b: u64)
    requires
        finite(a),
        finite(b),
        pow2(1074) <= size(value(a) * value(b)) < pow2(1074) * pow2(1900),
    ensures
        finite(product(a, b)),
        value(product(a, b)) < 0 <==> value(a) * value(b) < 0,
        value(product(a, b)) > 0 <==> value(a) * value(b) > 0,
{
    lemma_product_close(a, b);
    lemma_pow2_pos(1074);
    lemma_scaled_sign(value(product(a, b)), value(a) * value(b), pow2(1074) as int);
}

/// A quotient of one unit or more has the sign of the exact one.
pub proof fn lemma_quotient_sign(a: u64, b: u64)
    requires
        finite(a),
        finite(b),
        value(b) > 0,
        value(b) <= size(value(a)) * pow2(1074) < value(b) * pow2(1900),
    ensures
        finite(quotient(a, b)),
        value(quotient(a, b)) < 0 <==> value(a) < 0,
        value(quotient(a, b)) > 0 <==> value(a) > 0,
{
    lemma_quotient_close(a, b);
    let u: int = pow2(1074) as int;
    lemma_pow2_pos(1074);
    let va: int = value(a);
    assert(size(va * u) == size(va) * u) by (nonlinear_arith)
        requires
            u > 0,
    ;
    lemma_scaled_sign(value(quotient(a, b)), va * u, value(b));
    assert(va < 0 <==> va * u < 0) by (nonlinear_arith)
        requires
            u > 0,
    ;
    assert(va > 0 <==> va * u > 0) by (nonlinear_arith)
        requires
            u > 0,
    ;
}

/// What is near enough to `v / d` has its sign.
proof fn lemma_scaled_sign(r: int, v: int, d: int)
    requires
        d > 0,
        size(v) >= d,
        pow2(53) * gap(r * d, v) <= size(v) + pow2(52) * d,
    ensures
        r < 0 <==> v < 0,
        r > 0 <==> v > 0,
{
    lemma_powers();
    let g: int = gap(r * d, v);
    let w: int = size(v);
    assert(pow2(53) * g <= w + pow2(52) * w) by (nonlinear_arith)
        requires
            pow2(53) * g <= w + pow2(52) * d,
            d <= w,
            pow2(52) >= 0,
    ;
    assert(g < w) by (nonlinear_arith)
        requires
            pow2(53) * g <= w + pow2(52) * w,
            pow2(53) == 2 * pow2(52),
            pow2(52) >= 2,
            w > 0,
    ;
    assert(r * d < 0 <==> r < 0) by (nonlinear_arith)
        requires
            d > 0,
    ;
    assert(r * d > 0 <==> r > 0) by (nonlinear_arith)
        requires
            d > 0,
    ;
}

} // verus!
