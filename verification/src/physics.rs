//! What the derived fields are in exact numbers.
//!
//! Values count in units of 2^-1074, as [`value`] gives them; `unit()` of them
//! are one.
use vstd::arithmetic::power2::{lemma_pow2_adds, lemma_pow2_pos, lemma_pow2_strictly_increases, pow2};
use vstd::prelude::*;

use crate::accuracy::{gap, is_scaled, lemma_difference_close, lemma_difference_exact, lemma_nearest_exact, lemma_product_close, lemma_product_exact, lemma_quotient_close, lemma_sum_close, lemma_sum_exact, size};
use crate::arith::{difference, lemma_nearest_scaled, lemma_powers, product, quotient, sum, whole};
use crate::derived::{elapsed, excess_power, fuel_after, slope, smoothed, speed_of, sums, FuelState, ABSURD_RATE, FLAT, GRAVITY, HOUR, KMH_PER_MS, SEP_FLOOR, SEP_LIMIT, SHORT_SPAN, SMOOTHING, TWO};
use crate::num::{absolute, finite, lemma_order_is_value_order, lemma_zero_magnitude, less, magnitude, same, unsigned, value, Num, INFINITE, STEP};
use crate::number::lemma_whole_exact;

verus! {

/// One, in the units of [`value`].
pub open spec fn unit() -> int {
    pow2(1074) as int
}

/// The nanoseconds in 1/512 of a second.
pub const TICK: u64 = 1_953_125;

/// The exact number of an integer.
pub proof fn lemma_whole_value(v: nat)
    requires
        v < 2 * STEP,
    ensures
        is_scaled(whole(v as int), v as int, 1074),
        whole(v as int) < INFINITE,
        v == 0 <==> whole(v as int) == 0,
{
    lemma_whole_exact(v);
}

/// A span of some 512ths of a second is that many 512ths of a second.
pub proof fn lemma_elapsed_exact(then: u64, now: u64, k: nat)
    requires
        now == then + k * TICK,
        k < 0x10_0000,
    ensures
        is_scaled(elapsed(now, then), k as int, 1065),
{
    let ns: nat = k * TICK as nat;
    let q: nat = k / 512;
    let j: nat = k % 512;
    let r: nat = j * 1_953_125;
    assert(ns == 1_000_000_000 * q + r && r < 1_000_000_000);
    assert(ns / 1_000_000_000 == q && ns % 1_000_000_000 == r);
    lemma_whole_value(q);
    lemma_whole_value(r);
    lemma_whole_value(1_000_000_000);
    lemma_pow2_adds(9, 1065);
    vstd::arithmetic::power2::lemma2_to64();
    assert(pow2(9) == 512);
    let p: int = pow2(1065) as int;
    let u: int = unit();
    assert(u == 512 * p);
    lemma_pow2_pos(1065);
    assert(q * u == (512 * q) * p) by (nonlinear_arith)
        requires
            u == 512 * p,
    ;
    let f: nat = (1_000_000_000 * u) as nat;
    let x: nat = (j * p) as nat;
    assert(r * u * u == x * f) by (nonlinear_arith)
        requires
            r == j * 1_953_125,
            u == 512 * p,
            x == j * p,
            f == 1_000_000_000 * u,
    ;
    lemma_powers();
    lemma_nearest_exact(j, 1065);
    lemma_nearest_scaled(x, 1, f);
    assert(1 * f == f);
    let part: u64 = quotient(whole(r as int), whole(1_000_000_000));
    assert(is_scaled(part, j as int, 1065)) by {
        assert(magnitude(unsigned(whole(r as int))) * pow2(1074) == r * u * u);
    }
    lemma_sum_exact(whole(q as int), (512 * q) as int, part, j as int, 1065);
}

/// The sum of integers.
pub open spec fn total(s: Seq<int>) -> int
    decreases s.len(),
{
    if s.len() == 0 {
        0
    } else {
        total(s.drop_last()) + s.last()
    }
}

/// The sum of the products of integers.
pub open spec fn total_product(a: Seq<int>, b: Seq<int>) -> int
    decreases a.len(),
{
    if a.len() == 0 {
        0
    } else {
        total_product(a.drop_last(), b.drop_last()) + a.last() * b.last()
    }
}

/// Whether the samples `h` stand at the 512ths of a second `k` after the first,
/// with the speeds `w` in 1024ths of a metre per second.
pub open spec fn sampled(h: Seq<(u64, Num)>, k: Seq<int>, w: Seq<int>) -> bool {
    &&& 2 <= h.len() <= 8
    &&& k.len() == h.len()
    &&& w.len() == h.len()
    &&& k[0] == 0
    &&& forall|i: int|
        0 <= i < h.len() ==> 0 <= #[trigger] k[i] <= 1024 && h[i].0 == h[0].0 + k[i] * TICK
    &&& forall|i: int|
        0 <= i < h.len() ==> -0x10_0000 < #[trigger] w[i] < 0x10_0000 && is_scaled(
            h[i].1.bits,
            w[i],
            1064,
        )
}

/// How many times as much the samples rise as the least-squares line needs to
/// rise in the time [`line_run`].
pub open spec fn line_rise(k: Seq<int>, w: Seq<int>) -> int {
    k.len() * total_product(k, w) - total(k) * total(w)
}

/// The spread of the times of the samples.
pub open spec fn line_run(k: Seq<int>) -> int {
    k.len() * total_product(k, k) - total(k) * total(k)
}

/// The sums over the samples are exact.
proof fn lemma_sums_exact(h: Seq<(u64, Num)>, k: Seq<int>, w: Seq<int>, start: u64)
    requires
        h.len() <= 8,
        k.len() == h.len(),
        w.len() == h.len(),
        forall|i: int|
            0 <= i < h.len() ==> 0 <= #[trigger] k[i] <= 1024 && h[i].0 == start + k[i] * TICK,
        forall|i: int|
            0 <= i < h.len() ==> -0x10_0000 < #[trigger] w[i] < 0x10_0000 && is_scaled(
                h[i].1.bits,
                w[i],
                1064,
            ),
    ensures
        is_scaled(sums(h, start).t, total(k), 1065),
        is_scaled(sums(h, start).v, total(w), 1064),
        is_scaled(sums(h, start).tt, total_product(k, k), 1056),
        is_scaled(sums(h, start).tv, total_product(k, w), 1055),
        0 <= total(k) <= 1024 * h.len(),
        -0x10_0000 * h.len() <= total(w) <= 0x10_0000 * h.len(),
        0 <= total_product(k, k) <= 0x10_0000 * h.len(),
        -0x4000_0000 * h.len() <= total_product(k, w) <= 0x4000_0000 * h.len(),
    decreases h.len(),
{
    lemma_zero_magnitude();
    if h.len() == 0 {
        assert(0 * pow2(1065) == 0 && 0 * pow2(1064) == 0 && 0 * pow2(1056) == 0 && 0 * pow2(1055)
            == 0);
    } else {
        let n: int = h.len() - 1;
        let front = h.drop_last();
        let fk = k.drop_last();
        let fw = w.drop_last();
        assert forall|i: int| 0 <= i < n implies 0 <= #[trigger] fk[i] <= 1024 && front[i].0
            == start + fk[i] * TICK by {
            assert(fk[i] == k[i]);
        }
        assert forall|i: int| 0 <= i < n implies -0x10_0000 < #[trigger] fw[i] < 0x10_0000
            && is_scaled(front[i].1.bits, fw[i], 1064) by {
            assert(fw[i] == w[i]);
        }
        lemma_sums_exact(front, fk, fw, start);
        let s = sums(front, start);
        let kn: int = k[n];
        let wn: int = w[n];
        assert(0 <= kn <= 1024);
        assert(-0x10_0000 < wn < 0x10_0000);
        let t = elapsed(h[n].0, start);
        let v = h[n].1.bits;
        lemma_powers();
        lemma_elapsed_exact(start, h[n].0, kn as nat);
        assert(0 <= kn * kn <= 0x10_0000) by (nonlinear_arith)
            requires
                0 <= kn <= 1024,
        ;
        assert(-0x4000_0000 <= kn * wn <= 0x4000_0000) by (nonlinear_arith)
            requires
                0 <= kn <= 1024,
                -0x10_0000 < wn < 0x10_0000,
        ;
        lemma_product_exact(t, kn, 1065, t, kn, 1065);
        lemma_product_exact(t, kn, 1065, v, wn, 1064);
        lemma_sum_exact(s.t, total(fk), t, kn, 1065);
        lemma_sum_exact(s.v, total(fw), v, wn, 1064);
        lemma_sum_exact(
            s.tt,
            total_product(fk, fk),
            crate::arith::product(t, t),
            kn * kn,
            1056,
        );
        lemma_sum_exact(
            s.tv,
            total_product(fk, fw),
            crate::arith::product(t, v),
            kn * wn,
            1055,
        );
    }
}

/// The spread of the times of samples is small.
pub proof fn lemma_line_run(h: Seq<(u64, Num)>, k: Seq<int>, w: Seq<int>)
    requires
        sampled(h, k, w),
    ensures
        -0x400_0000 <= line_run(k) <= 0x400_0000,
{
    lemma_sums_exact(h, k, w, h[0].0);
    let n: int = h.len() as int;
    let tk: int = total(k);
    let kk: int = total_product(k, k);
    assert(0 <= n * kk <= 0x400_0000) by (nonlinear_arith)
        requires
            2 <= n <= 8,
            0 <= kk <= 0x80_0000,
    ;
    assert(0 <= tk * tk <= 0x400_0000) by (nonlinear_arith)
        requires
            0 <= tk <= 8192,
    ;
}

/// The slope of the samples is that of the least-squares line through them, as
/// near as a number can be: `line_rise / line_run` of 1/2 m/s for every second,
/// up to the last of 53 bits. It has the sign of the rise.
pub proof fn lemma_slope_is_least_squares(
    h: Seq<(u64, Num)>,
    k: Seq<int>,
    w: Seq<int>,
    now: u64,
    span: nat,
)
    requires
        sampled(h, k, w),
        line_run(k) > 0,
        26 <= span < 0x10_0000,
        now == h[0].0 + span * TICK,
    ensures
        slope(h, now) is Some,
        finite(slope(h, now)->0),
        pow2(53) * gap(value(slope(h, now)->0) * (2 * line_run(k)), line_rise(k, w) * unit())
            <= size(line_rise(k, w)) * unit() + pow2(52) * (2 * line_run(k)),
        line_rise(k, w) < 0 ==> value(slope(h, now)->0) < 0,
        line_rise(k, w) == 0 ==> value(slope(h, now)->0) == 0,
        line_rise(k, w) > 0 ==> value(slope(h, now)->0) > 0,
{
    let start: u64 = h[0].0;
    let n: int = h.len() as int;
    lemma_powers();
    lemma_sums_exact(h, k, w, start);
    lemma_elapsed_exact(start, now, span);
    let wait: u64 = elapsed(now, start);
    lemma_long_enough(wait, span);
    let s = sums(h, start);
    let count: u64 = whole(n);
    lemma_whole_value(n as nat);
    let tk: int = total(k);
    let tw: int = total(w);
    let kk: int = total_product(k, k);
    let kw: int = total_product(k, w);
    assert(0 <= n * kk <= 0x400_0000) by (nonlinear_arith)
        requires
            2 <= n <= 8,
            0 <= kk <= 0x80_0000,
    ;
    assert(0 <= tk * tk <= 0x400_0000) by (nonlinear_arith)
        requires
            0 <= tk <= 8192,
    ;
    assert(-0x10_0000_0000 <= n * kw <= 0x10_0000_0000) by (nonlinear_arith)
        requires
            2 <= n <= 8,
            -0x2_0000_0000 <= kw <= 0x2_0000_0000,
    ;
    assert(-0x10_0000_0000 <= tk * tw <= 0x10_0000_0000) by (nonlinear_arith)
        requires
            0 <= tk <= 8192,
            -0x80_0000 <= tw <= 0x80_0000,
    ;
    lemma_product_exact(count, n, 1074, s.tt, kk, 1056);
    lemma_product_exact(s.t, tk, 1065, s.t, tk, 1065);
    lemma_product_exact(count, n, 1074, s.tv, kw, 1055);
    lemma_product_exact(s.t, tk, 1065, s.v, tw, 1064);
    let a = crate::arith::product(count, s.tt);
    let b = crate::arith::product(s.t, s.t);
    let c = crate::arith::product(count, s.tv);
    let d = crate::arith::product(s.t, s.v);
    lemma_difference_exact(a, n * kk, b, tk * tk, 1056);
    lemma_difference_exact(c, n * kw, d, tk * tw, 1055);
    let den = crate::arith::difference(a, b);
    let num = crate::arith::difference(c, d);
    let run: int = line_run(k);
    let rise: int = line_rise(k, w);
    let p: int = pow2(1055) as int;
    lemma_pow2_pos(1055);
    lemma_pow2_adds(1, 1055);
    vstd::arithmetic::power2::lemma2_to64();
    assert(pow2(1056) == 2 * p);
    assert(value(den) == (2 * run) * p) by (nonlinear_arith)
        requires
            value(den) == run * pow2(1056),
            pow2(1056) == 2 * p,
    ;
    assert(value(den) >= 2 * p) by (nonlinear_arith)
        requires
            value(den) == (2 * run) * p,
            run >= 1,
            p > 0,
    ;
    lemma_not_flat(den);
    assert(slope(h, now) == Some(quotient(num, den)));
    let u: int = unit();
    lemma_pow2_pos(1074);
    assert(size(value(num)) * u < size(value(den)) * pow2(1900)) by {
        lemma_pow2_adds(1074, 826);
        lemma_pow2_strictly_increases(64, 826);
        let big: int = pow2(826) as int;
        let r: int = size(rise);
        assert(size(value(num)) == r * p) by (nonlinear_arith)
            requires
                value(num) == rise * p,
                r == size(rise),
                p > 0,
        ;
        assert((r * p) * u < ((2 * run) * p) * (u * big)) by (nonlinear_arith)
            requires
                0 <= r < big,
                run >= 1,
                p > 0,
                u > 0,
        ;
    }
    lemma_quotient_close(num, den);
    let q: int = value(quotient(num, den));
    let rest: int = q * (2 * run) - rise * u;
    assert(q * value(den) - value(num) * u == rest * p) by (nonlinear_arith)
        requires
            value(den) == (2 * run) * p,
            value(num) == rise * p,
            rest == q * (2 * run) - rise * u,
    ;
    let r: int = size(rise);
    assert(size(value(num)) == r * p) by (nonlinear_arith)
        requires
            value(num) == rise * p,
            r == size(rise),
            p > 0,
    ;
    assert(size(rest * p) == size(rest) * p) by (nonlinear_arith)
        requires
            p > 0,
    ;
    let e53: int = pow2(53) as int;
    let e52: int = pow2(52) as int;
    assert(e53 * (size(rest) * p) <= (r * p) * u + e52 * ((2 * run) * p));
    assert(e53 * size(rest) <= r * u + e52 * (2 * run)) by (nonlinear_arith)
        requires
            e53 * (size(rest) * p) <= (r * p) * u + e52 * ((2 * run) * p),
            p > 0,
    ;
    lemma_sign_of_slope(q, rise, run, u, rest);
}

/// The sign of a slope that is near enough to the exact one.
proof fn lemma_sign_of_slope(q: int, rise: int, run: int, u: int, rest: int)
    requires
        rest == q * (2 * run) - rise * u,
        pow2(53) * size(rest) <= size(rise) * u + pow2(52) * (2 * run),
        0 < run <= 0x400_0000,
        u == unit(),
    ensures
        rise < 0 ==> q < 0,
        rise == 0 ==> q == 0,
        rise > 0 ==> q > 0,
{
    lemma_powers();
    lemma_pow2_adds(120, 954);
    lemma_pow2_pos(954);
    assert(u >= pow2(120)) by (nonlinear_arith)
        requires
            u == pow2(120) * pow2(954),
            pow2(120) >= 0,
            pow2(954) >= 1,
    ;
    let two: int = 2 * run;
    if rise == 0 {
        assert(0 * u == 0);
        assert(size(rest) * 2 <= two) by (nonlinear_arith)
            requires
                pow2(53) * size(rest) <= pow2(52) * two,
                pow2(53) == 2 * pow2(52),
                pow2(52) > 0,
        ;
        assert(q == 0) by (nonlinear_arith)
            requires
                rest == q * two,
                size(rest) * 2 <= two,
                two > 0,
        ;
    } else {
        let r: int = size(rise);
        assert(r * u >= u) by (nonlinear_arith)
            requires
                r >= 1,
                u > 0,
        ;
        assert(pow2(52) * two <= 0x10_0000_0000_0000 * 0x800_0000) by (nonlinear_arith)
            requires
                pow2(52) == 0x10_0000_0000_0000,
                0 < two <= 0x800_0000,
        ;
        assert(size(rest) < r * u) by (nonlinear_arith)
            requires
                pow2(53) * size(rest) <= r * u + pow2(52) * two,
                r * u >= pow2(52) * two + 1,
                pow2(53) >= 2,
                r * u > 0,
        ;
        if rise > 0 {
            assert(q * two > 0);
            assert(q > 0) by (nonlinear_arith)
                requires
                    q * two > 0,
                    two > 0,
            ;
        } else {
            assert((-r) * u == -(r * u)) by (nonlinear_arith);
            assert(q * two < 0);
            assert(q < 0) by (nonlinear_arith)
                requires
                    q * two < 0,
                    two > 0,
            ;
        }
    }
}

/// A span of 26 of 512 parts of a second or more is not too short.
proof fn lemma_long_enough(wait: u64, span: nat)
    requires
        is_scaled(wait, span as int, 1065),
        span >= 26,
    ensures
        less(SHORT_SPAN, wait) || same(SHORT_SPAN, wait),
{
    lemma_pow2_adds(48, 1017);
    lemma_pow2_pos(1017);
    lemma_powers();
    vstd::arithmetic::power2::lemma2_to64();
    lemma_pow2_adds(24, 24);
    let p: int = pow2(1017) as int;
    assert(pow2(48) == 0x1_0000_0000_0000);
    assert(SHORT_SPAN / STEP == 1018 && SHORT_SPAN % STEP == 0x9_9999_9999_999a);
    assert(value(SHORT_SPAN) == 0x19_9999_9999_999a * p);
    assert(span * pow2(1065) >= 26 * (0x1_0000_0000_0000 * p)) by (nonlinear_arith)
        requires
            span >= 26,
            pow2(1065) == 0x1_0000_0000_0000 * p,
            p > 0,
    ;
    assert(26 * (0x1_0000_0000_0000 * p) >= 0x19_9999_9999_999a * p) by (nonlinear_arith)
        requires
            p > 0,
    ;
    lemma_order_is_value_order(SHORT_SPAN, wait);
}

/// A spread of the times of 2^-18 or more is not flat.
proof fn lemma_not_flat(den: u64)
    requires
        finite(den),
        value(den) >= 2 * pow2(1055),
    ensures
        less(FLAT, absolute(den)),
{
    lemma_pow2_adds(53, 982);
    lemma_pow2_strictly_increases(1035, 1055);
    lemma_pow2_pos(982);
    lemma_powers();
    let p: int = pow2(982) as int;
    assert(FLAT / STEP == 983 && FLAT % STEP < STEP);
    assert(value(FLAT) < pow2(53) * p) by (nonlinear_arith)
        requires
            value(FLAT) == (STEP + FLAT % STEP) * p,
            FLAT % STEP < STEP,
            pow2(53) == 2 * STEP,
            p > 0,
    ;
    lemma_zero_magnitude();
    assert(absolute(den) == den);
    lemma_order_is_value_order(FLAT, den);
}

/// 1.
pub proof fn lemma_unit_is_large()
    ensures
        unit() >= pow2(120),
        pow2(120) == 0x100_0000_0000_0000_0000_0000_0000_0000,
{
    lemma_powers();
    lemma_pow2_adds(120, 954);
    lemma_pow2_pos(954);
    assert(unit() >= pow2(120)) by (nonlinear_arith)
        requires
            unit() == pow2(120) * pow2(954),
            pow2(120) >= 0,
            pow2(954) >= 1,
    ;
}

/// The acceleration of gravity is 9.81, as near as a number can be.
pub proof fn lemma_gravity()
    ensures
        finite(GRAVITY),
        9 * unit() < value(GRAVITY) < 10 * unit(),
        0x800_0000_0000 * gap(981 * unit(), 100 * value(GRAVITY)) <= unit(),
{
    lemma_pow2_adds(49, 1025);
    lemma_pow2_pos(1025);
    vstd::arithmetic::power2::lemma2_to64();
    lemma_pow2_adds(24, 25);
    let p: int = pow2(1025) as int;
    assert(pow2(49) == 0x2_0000_0000_0000);
    assert(GRAVITY / STEP == 1026 && GRAVITY % STEP == 0x3_9eb8_51eb_851f);
    assert(value(GRAVITY) == 0x13_9eb8_51eb_851f * p);
    assert(unit() == 0x2_0000_0000_0000 * p);
    assert(981 * (0x2_0000_0000_0000 * p) - 100 * (0x13_9eb8_51eb_851f * p) == (981
        * 0x2_0000_0000_0000 - 100 * 0x13_9eb8_51eb_851f) * p) by (nonlinear_arith);
    assert(9 * (0x2_0000_0000_0000 * p) < 0x13_9eb8_51eb_851f * p < 10 * (0x2_0000_0000_0000 * p))
        by (nonlinear_arith)
        requires
            p > 0,
    ;
    assert(981 * 0x2_0000_0000_0000 - 100 * 0x13_9eb8_51eb_851f <= 64);
    assert(981 * 0x2_0000_0000_0000 - 100 * 0x13_9eb8_51eb_851f >= -64);
    let c: int = 981 * 0x2_0000_0000_0000 - 100 * 0x13_9eb8_51eb_851f;
    assert(0x800_0000_0000 * size(c * p) <= 0x2_0000_0000_0000 * p) by (nonlinear_arith)
        requires
            -64 <= c <= 64,
            p > 0,
    ;
}

/// `n` times one.
pub open spec fn times_unit(n: int) -> int {
    n * unit()
}

/// Where the speed changes at the rate `a`, the excess power is the climb rate
/// and the speed over 9.81 times that rate, to a millionth of a metre per second,
/// as long as that is within the limits; else it is the limit. All are read as
/// less than 4096.
pub proof fn lemma_sep_is_energy_rate(vy: u64, speed: u64, a: u64)
    requires
        finite(vy),
        finite(speed),
        finite(a),
        size(value(vy)) <= times_unit(4096),
        size(value(speed)) <= times_unit(4096),
        size(value(a)) <= times_unit(4096),
    ensures
        ({
            let u: int = unit();
            let sep: u64 = excess_power(vy, speed, Some(a));
            // 981 times the exact power, in units of u * u
            let exact: int = (981 * value(vy)) * u + 100 * (value(speed) * value(a));
            &&& finite(sep)
            &&& -293_319 * (u * u) <= exact <= 293_319 * (u * u) ==> 1024 * gap(
                (981 * value(sep)) * u,
                exact,
            ) <= u * u
            &&& exact >= 295_281 * (u * u) ==> value(sep) == 300 * u
            &&& exact <= -295_281 * (u * u) ==> value(sep) == -(300 * u)
        }),
{
    let u: int = unit();
    let v: int = value(vy);
    let s: int = value(speed);
    let c: int = value(a);
    let g: int = value(GRAVITY);
    lemma_powers();
    lemma_unit_is_large();
    lemma_gravity();
    lemma_pow2_adds(1074, 826);
    lemma_pow2_strictly_increases(64, 826);
    let big: int = pow2(826) as int;
    let uu: int = u * u;
    assert(uu >= 0x1_0000_0000_0000_0000 * u) by (nonlinear_arith)
        requires
            uu == u * u,
            u >= 0x1_0000_0000_0000_0000,
    ;
    // the quotient
    assert(size(s) * u <= 4096 * uu) by (nonlinear_arith)
        requires
            size(s) <= 4096 * u,
            uu == u * u,
            u > 0,
    ;
    assert(4096 * uu < g * (u * big)) by (nonlinear_arith)
        requires
            uu == u * u,
            g > 9 * u,
            u > 0,
            big > 0x1_0000_0000_0000_0000,
    ;
    lemma_quotient_close(speed, GRAVITY);
    let qb: u64 = quotient(speed, GRAVITY);
    let q: int = value(qb);
    let e1: int = gap(q * g, s * u);
    assert(pow2(52) * g <= uu) by (nonlinear_arith)
        requires
            pow2(52) == 0x10_0000_0000_0000,
            0 < g < 10 * u,
            uu >= 0x1_0000_0000_0000_0000 * u,
            u > 0,
    ;
    assert(0x100_0000_0000 * e1 <= uu) by {
        assert(pow2(53) * e1 <= 4097 * uu);
        assert(pow2(53) == 0x20_0000_0000_0000);
    }
    assert(size(q) <= 4096 * u) by (nonlinear_arith)
        requires
            gap(q * g, s * u) == e1,
            size(s) * u <= 4096 * uu,
            0x100_0000_0000 * e1 <= uu,
            uu == u * u,
            g > 9 * u,
            u > 0,
    ;
    // the product
    let qc: int = q * c;
    assert(size(qc) <= 0x100_0000 * uu) by (nonlinear_arith)
        requires
            qc == q * c,
            size(q) <= 4096 * u,
            size(c) <= 4096 * u,
            uu == u * u,
            u > 0,
    ;
    assert(0x100_0000 * uu < u * (u * big)) by (nonlinear_arith)
        requires
            uu == u * u,
            u > 0,
            big > 0x1_0000_0000_0000_0000,
    ;
    lemma_product_close(qb, a);
    let pb: u64 = product(qb, a);
    let p: int = value(pb);
    let e2: int = gap(p * u, qc);
    assert(0x1000_0000 * e2 <= uu) by {
        assert(pow2(53) * e2 <= 0x100_0001 * uu) by {
            assert(pow2(52) * u <= uu);
        }
        assert(pow2(53) == 0x20_0000_0000_0000);
    }
    assert(size(p) <= 0x200_0000 * u) by (nonlinear_arith)
        requires
            gap(p * u, qc) == e2,
            size(qc) <= 0x100_0000 * uu,
            0x1000_0000 * e2 <= uu,
            uu == u * u,
            u > 0,
    ;
    // the sum
    assert(size(v + p) <= 0x400_0000 * u);
    assert(0x400_0000 * u < u * big) by (nonlinear_arith)
        requires
            u > 0,
            big > 0x1_0000_0000_0000_0000,
    ;
    lemma_sum_close(vy, pb);
    let rb: u64 = sum(vy, pb);
    let r: int = value(rb);
    let e3: int = gap(r, v + p);
    assert(0x800_0000 * e3 <= u) by {
        assert(pow2(53) == 0x20_0000_0000_0000);
    }
    // all together
    lemma_power_error(v, s, c, g, q, p, r, u, e1, e2, e3);
    let exact: int = (981 * v) * u + 100 * (s * c);
    let near: int = (981 * r) * u;
    assert(1024 * gap(near, exact) <= uu);
    lemma_limits();
    assert(!crate::num::nan(rb));
    lemma_order_is_value_order(rb, SEP_FLOOR);
    lemma_order_is_value_order(SEP_LIMIT, rb);
    assert(near == 981 * (r * u)) by (nonlinear_arith)
        requires
            near == (981 * r) * u,
    ;
    assert(r * u < -300 * uu <==> r < -(300 * u)) by (nonlinear_arith)
        requires
            uu == u * u,
            u > 0,
    ;
    assert(r * u > 300 * uu <==> r > 300 * u) by (nonlinear_arith)
        requires
            uu == u * u,
            u > 0,
    ;
    let sep: u64 = excess_power(vy, speed, Some(a));
    assert(sep == crate::num::clamped(rb, SEP_FLOOR, SEP_LIMIT));
    assert(u * u == uu);
    lemma_within(r * u, uu, near, exact);
    if -293_319 * uu <= exact <= 293_319 * uu {
        assert(-300 * uu <= r * u <= 300 * uu);
        assert(sep == rb);
    } else if exact >= 295_281 * uu {
        assert(r * u > 300 * uu);
        assert(sep == SEP_LIMIT);
    } else if exact <= -295_281 * uu {
        assert(r * u < -300 * uu);
        assert(sep == SEP_FLOOR);
    }
}

/// Where an exact power is well within the limits, or well beyond them, one near
/// it is too.
proof fn lemma_within(ru: int, uu: int, near: int, exact: int)
    requires
        uu > 0,
        near == 981 * ru,
        1024 * gap(near, exact) <= uu,
    ensures
        -293_319 * uu <= exact <= 293_319 * uu ==> -300 * uu <= ru <= 300 * uu,
        exact >= 295_281 * uu ==> ru > 300 * uu,
        exact <= -295_281 * uu ==> ru < -300 * uu,
{
}

/// The errors of the three steps add up to little.
proof fn lemma_power_error(
    v: int,
    s: int,
    c: int,
    g: int,
    q: int,
    p: int,
    r: int,
    u: int,
    e1: int,
    e2: int,
    e3: int,
)
    requires
        u >= 0x1_0000_0000_0000_0000,
        e1 == gap(q * g, s * u),
        e2 == gap(p * u, q * c),
        e3 == gap(r, v + p),
        0x100_0000_0000 * e1 <= u * u,
        0x1000_0000 * e2 <= u * u,
        0x800_0000 * e3 <= u,
        size(q) <= 4096 * u,
        size(c) <= 4096 * u,
        0x800_0000_0000 * gap(981 * u, 100 * g) <= u,
    ensures
        1024 * gap((981 * r) * u, (981 * v) * u + 100 * (s * c)) <= u * u,
{
    let uu: int = u * u;
    let x1: int = q * g - s * u;
    let x2: int = p * u - q * c;
    let x3: int = r - (v + p);
    let y: int = 981 * u - 100 * g;
    // 981 * q - 100 * s, times u
    let d: int = 100 * x1 + q * y;
    assert(d == (981 * q - 100 * s) * u) by (nonlinear_arith)
        requires
            x1 == q * g - s * u,
            y == 981 * u - 100 * g,
            d == 100 * x1 + q * y,
    ;
    assert(0x800_0000_0000 * size(q * y) <= 4096 * uu) by (nonlinear_arith)
        requires
            size(q) <= 4096 * u,
            0x800_0000_0000 * size(y) <= u,
            uu == u * u,
            u > 0,
    ;
    assert(0x4000_0000 * size(d) <= uu);
    let diff: int = (981 * r) * u - ((981 * v) * u + 100 * (s * c));
    assert(diff == 981 * (x3 * u) + 981 * x2 + (981 * q - 100 * s) * c) by (nonlinear_arith)
        requires
            diff == (981 * r) * u - ((981 * v) * u + 100 * (s * c)),
            x2 == p * u - q * c,
            x3 == r - (v + p),
    ;
    assert(0x800_0000 * size(x3 * u) <= uu) by (nonlinear_arith)
        requires
            0x800_0000 * size(x3) <= u,
            uu == u * u,
            u > 0,
    ;
    let f: int = 981 * q - 100 * s;
    assert(0x4000_0000 * size(f) <= u) by (nonlinear_arith)
        requires
            0x4000_0000 * size(f * u) <= uu,
            uu == u * u,
            u > 0,
    ;
    assert(0x4000_0000 * size(f * c) <= 4096 * uu) by (nonlinear_arith)
        requires
            0x4000_0000 * size(f) <= u,
            size(c) <= 4096 * u,
            uu == u * u,
            u > 0,
    ;
}

/// The limits of the excess power are 300 and -300.
pub proof fn lemma_limits()
    ensures
        finite(SEP_LIMIT),
        finite(SEP_FLOOR),
        value(SEP_LIMIT) == 300 * unit(),
        value(SEP_FLOOR) == -(300 * unit()),
{
    lemma_pow2_adds(44, 1030);
    lemma_pow2_pos(1030);
    vstd::arithmetic::power2::lemma2_to64();
    lemma_pow2_adds(22, 22);
    let p: int = pow2(1030) as int;
    assert(pow2(44) == 0x1000_0000_0000);
    assert(SEP_LIMIT / STEP == 1031 && SEP_LIMIT % STEP == 0x2_c000_0000_0000);
    assert(value(SEP_LIMIT) == 0x12_c000_0000_0000 * p);
    assert(unsigned(SEP_FLOOR) == SEP_LIMIT);
    assert(0x12_c000_0000_0000 * p == 300 * (0x1000_0000_0000 * p)) by (nonlinear_arith);
}

/// A span is its nanoseconds in seconds, to 51 bits.
pub proof fn lemma_elapsed_close(then: u64, now: u64)
    requires
        then <= now,
    ensures
        finite(elapsed(now, then)),
        value(elapsed(now, then)) >= 0,
        pow2(51) * gap(1_000_000_000 * value(elapsed(now, then)), (now - then) * unit()) <= (now
            - then) * unit(),
{
    let ns: int = now - then;
    let u: int = unit();
    let q: int = ns / 1_000_000_000;
    let r: int = ns % 1_000_000_000;
    lemma_powers();
    lemma_unit_is_large();
    lemma_whole_value(q as nat);
    lemma_whole_value(r as nat);
    lemma_whole_value(1_000_000_000);
    lemma_pow2_adds(1074, 826);
    lemma_pow2_strictly_increases(64, 826);
    let big: int = pow2(826) as int;
    let a: u64 = whole(r);
    let b: u64 = whole(1_000_000_000);
    assert(r * u >= 0 && q * u >= 0) by (nonlinear_arith)
        requires
            r >= 0,
            q >= 0,
            u > 0,
    ;
    assert((r * u) * u < (1_000_000_000 * u) * (u * big)) by (nonlinear_arith)
        requires
            0 <= r < 1_000_000_000,
            u > 0,
            big > 1,
    ;
    assert(value(b) != 0) by (nonlinear_arith)
        requires
            value(b) == 1_000_000_000 * u,
            u > 0,
    ;
    lemma_quotient_close(a, b);
    let fb: u64 = quotient(a, b);
    let f: int = value(fb);
    assert(!crate::num::negative(a) && !crate::num::negative(b));
    assert(f >= 0);
    let x: int = 1_000_000_000 * f - r * u;
    assert(f * (1_000_000_000 * u) - (r * u) * u == x * u) by (nonlinear_arith)
        requires
            x == 1_000_000_000 * f - r * u,
    ;
    assert(size(x * u) == size(x) * u) by (nonlinear_arith)
        requires
            u > 0,
    ;
    let e53: int = pow2(53) as int;
    let e52: int = pow2(52) as int;
    assert(e53 * size(x) <= r * u + e52 * 1_000_000_000) by (nonlinear_arith)
        requires
            e53 * (size(x) * u) <= (r * u) * u + e52 * (1_000_000_000 * u),
            u > 0,
    ;
    assert(e53 == 0x20_0000_0000_0000 && e52 == 0x10_0000_0000_0000);
    assert(1_000_000_000 * f <= 2 * (r * u) + 1_000_000_000);
    let wb: u64 = whole(q);
    let t: int = q * u + f;
    assert(q * u <= 0x1_0000_0000_0000_0000 * u) by (nonlinear_arith)
        requires
            q <= 0x1_0000_0000_0000_0000,
            u > 0,
    ;
    assert(r * u <= 1_000_000_000 * u) by (nonlinear_arith)
        requires
            r <= 1_000_000_000,
            u > 0,
    ;
    assert(0x2_0000_0000_0000_0000 * u < u * big) by {
        lemma_pow2_adds(64, 762);
        lemma_pow2_strictly_increases(1, 762);
        vstd::arithmetic::power2::lemma2_to64();
        assert(u * big > 0x2_0000_0000_0000_0000 * u) by (nonlinear_arith)
            requires
                big == 0x1_0000_0000_0000_0000 * pow2(762),
                pow2(762) > 2,
                u > 0,
        ;
    }
    assert(f <= 3 * u);
    lemma_sum_close(wb, fb);
    let e: int = value(sum(wb, fb));
    assert(sum(wb, fb) == elapsed(now, then));
    let y: int = e - t;
    assert(e53 * size(y) <= t);
    assert(ns * u == 1_000_000_000 * (q * u) + r * u) by (nonlinear_arith)
        requires
            ns == 1_000_000_000 * q + r,
    ;
    let z: int = 1_000_000_000 * e - ns * u;
    assert(z == 1_000_000_000 * y + x);
    assert(1_000_000_000 * f <= 2 * (r * u) + 1_000_000_000);
    assert(e53 * size(z) <= 1_000_000_000 * t + r * u + e52 * 1_000_000_000) by (nonlinear_arith)
        requires
            z == 1_000_000_000 * y + x,
            e53 * size(y) <= t,
            e53 * size(x) <= r * u + e52 * 1_000_000_000,
            e53 > 0,
    ;
    assert(1_000_000_000 * f <= 2 * (r * u) + 1_000_000_000);
    if ns == 0 {
        assert(q == 0 && r == 0);
        assert(0 * u == 0);
        assert(x == 0 && f == 0);
        assert(t == 0);
        assert(y == 0) by (nonlinear_arith)
            requires
                e53 * size(y) <= 0,
                e53 > 0,
        ;
        assert(pow2(51) * 0 == 0);
    } else {
        assert(ns * u >= u) by (nonlinear_arith)
            requires
                ns >= 1,
                u > 0,
        ;
        assert(e53 * size(z) <= 4 * (ns * u));
        lemma_pow2_adds(51, 2);
        vstd::arithmetic::power2::lemma2_to64();
        assert(pow2(51) * size(z) <= ns * u) by (nonlinear_arith)
            requires
                e53 * size(z) <= 4 * (ns * u),
                e53 == pow2(51) * 4,
        ;
    }
    assert(e >= 0) by {
        if e < 0 {
            lemma_pow2_adds(51, 2);
            assert(e53 * size(y) >= size(y)) by (nonlinear_arith)
                requires
                    e53 >= 1,
                    size(y) >= 0,
            ;
        }
    }
}

/// A span that is near more, or less, than two seconds is more, or less.
proof fn lemma_age_limits(e: int, nsu: int, u: int)
    requires
        u > 0,
        0x8_0000_0000_0000 * gap(1_000_000_000 * e, nsu) <= nsu,
    ensures
        nsu <= 1_999_999_999 * u ==> e < 2 * u,
        nsu >= 2_000_000_001 * u ==> e > 2 * u,
{
}

/// A sample is dropped for its age exactly where it is more than two seconds
/// old.
pub proof fn lemma_age(then: u64, now: u64)
    requires
        then <= now,
    ensures
        less(TWO, elapsed(now, then)) <==> now - then > 2_000_000_000,
{
    let ns: int = now - then;
    let u: int = unit();
    let e: int = value(elapsed(now, then));
    lemma_powers();
    lemma_unit_is_large();
    lemma_elapsed_close(then, now);
    lemma_pow2_adds(22, 1052);
    lemma_pow2_adds(52, 1022);
    lemma_pow2_adds(1, 1074);
    lemma_pow2_adds(52, 1023);
    vstd::arithmetic::power2::lemma2_to64();
    assert(TWO / STEP == 1024 && TWO % STEP == 0);
    assert(value(TWO) == STEP * pow2(1023));
    assert(value(TWO) == 2 * u);
    lemma_order_is_value_order(TWO, elapsed(now, then));
    lemma_pow2_adds(51, 2);
    assert(pow2(51) == 0x8_0000_0000_0000);
    let nsu: int = ns * u;
    assert(0x8_0000_0000_0000 * gap(1_000_000_000 * e, nsu) <= nsu);
    if ns == 2_000_000_000 {
        assert(ns == 1024 * TICK);
        lemma_elapsed_exact(then, now, 1024);
        lemma_pow2_adds(10, 1065);
        assert(e == 1024 * pow2(1065));
        assert(pow2(1075) == 2 * u);
    } else if ns < 2_000_000_000 {
        assert(ns * u <= 1_999_999_999 * u) by (nonlinear_arith)
            requires
                ns <= 1_999_999_999,
                u > 0,
        ;
        lemma_age_limits(e, nsu, u);
    } else {
        assert(ns * u >= 2_000_000_001 * u) by (nonlinear_arith)
            requires
                ns >= 2_000_000_001,
                u > 0,
        ;
        lemma_age_limits(e, nsu, u);
    }
}

/// The speed in metres per second is the one in kilometres per hour over 3.6, to
/// 45 bits.
pub proof fn lemma_speed_of(frame: Map<Seq<char>, Num>)
    requires
        finite(frame["tas_kmh"@].bits),
        size(value(frame["tas_kmh"@].bits)) <= times_unit(0x100_0000),
    ensures
        finite(speed_of(frame)),
        pow2(45) * gap(18 * value(speed_of(frame)), 5 * value(frame["tas_kmh"@].bits)) <= size(
            value(frame["tas_kmh"@].bits),
        ) + unit(),
{
    let kmh: u64 = frame["tas_kmh"@].bits;
    let k: int = value(kmh);
    let u: int = unit();
    lemma_powers();
    lemma_unit_is_large();
    lemma_pow2_adds(51, 1023);
    lemma_pow2_pos(1023);
    lemma_pow2_adds(51, 2);
    vstd::arithmetic::power2::lemma2_to64();
    let p: int = pow2(1023) as int;
    assert(pow2(51) == 0x8_0000_0000_0000);
    assert(KMH_PER_MS / STEP == 1024 && KMH_PER_MS % STEP == 0xc_cccc_cccc_cccd);
    let c: int = value(KMH_PER_MS);
    assert(c == 0x1c_cccc_cccc_cccd * p);
    assert(u == 0x8_0000_0000_0000 * p);
    assert(3 * u < c < 4 * u) by (nonlinear_arith)
        requires
            c == 0x1c_cccc_cccc_cccd * p,
            u == 0x8_0000_0000_0000 * p,
            p > 0,
    ;
    let y: int = 18 * u - 5 * c;
    assert(0x1_0000_0000_0000 * size(y) <= u) by (nonlinear_arith)
        requires
            y == 18 * u - 5 * c,
            c == 0x1c_cccc_cccc_cccd * p,
            u == 0x8_0000_0000_0000 * p,
            p > 0,
    ;
    lemma_pow2_adds(1074, 826);
    lemma_pow2_strictly_increases(64, 826);
    let big: int = pow2(826) as int;
    assert(size(k) * u < c * (u * big)) by (nonlinear_arith)
        requires
            size(k) <= 0x100_0000 * u,
            c > 3 * u,
            u > 0,
            big > 0x1_0000_0000_0000_0000,
    ;
    lemma_quotient_close(kmh, KMH_PER_MS);
    let q: int = value(quotient(kmh, KMH_PER_MS));
    let x: int = q * c - k * u;
    let e53: int = pow2(53) as int;
    let e52: int = pow2(52) as int;
    assert(e53 * size(x) <= size(k) * u + e52 * c);
    // 18 * q - 5 * k, times u
    let d: int = (18 * q - 5 * k) * u;
    assert(d == 5 * x + q * y) by (nonlinear_arith)
        requires
            d == (18 * q - 5 * k) * u,
            x == q * c - k * u,
            y == 18 * u - 5 * c,
    ;
    let ku: int = size(k) * u;
    assert(ku >= 0) by (nonlinear_arith)
        requires
            ku == size(k) * u,
            u > 0,
    ;
    assert(e52 * c <= u * u) by (nonlinear_arith)
        requires
            e52 == 0x10_0000_0000_0000,
            0 < c < 4 * u,
            u >= 0x1_0000_0000_0000_0000,
    ;
    let uu: int = u * u;
    assert(size(q) * c <= ku + size(x)) by (nonlinear_arith)
        requires
            x == q * c - k * u,
            ku == size(k) * u,
            c > 0,
            u > 0,
    ;
    assert(size(q) * u <= ku + uu) by (nonlinear_arith)
        requires
            size(q) * c <= ku + size(x),
            0x20_0000_0000_0000 * size(x) <= ku + uu,
            c > 3 * u,
            u > 0,
            ku >= 0,
            uu > 0,
            size(q) >= 0,
    ;
    assert(0x1_0000_0000_0000 * size(q * y) <= ku + uu) by (nonlinear_arith)
        requires
            size(q) * u <= ku + uu,
            0x1_0000_0000_0000 * size(y) <= u,
            u > 0,
    ;
    assert(0x2000_0000_0000 * size(d) <= ku + uu);
    lemma_pow2_adds(32, 13);
    assert(pow2(45) == 0x2000_0000_0000);
    let g: int = 18 * q - 5 * k;
    assert(0x2000_0000_0000 * size(g) <= size(k) + u) by (nonlinear_arith)
        requires
            0x2000_0000_0000 * size(g * u) <= size(k) * u + u * u,
            u > 0,
    ;
}

/// The next consumption is the earlier one and a quarter of the way to the rate
/// that was measured, up to the last bits of the two.
pub proof fn lemma_smoothing(e: Num, rate: u64)
    requires
        finite(e.bits),
        finite(rate),
        size(value(e.bits)) <= times_unit(0x1_0000_0000),
        size(value(rate)) <= times_unit(0x1_0000_0000),
    ensures
        finite(smoothed(Some(e), rate).bits),
        pow2(48) * gap(
            4 * value(smoothed(Some(e), rate).bits),
            3 * value(e.bits) + value(rate),
        ) <= size(value(e.bits)) + size(value(rate)) + pow2(52),
{
    let a: int = value(e.bits);
    let r: int = value(rate);
    let u: int = unit();
    let m: int = size(a) + size(r);
    lemma_powers();
    lemma_unit_is_large();
    lemma_pow2_adds(1074, 826);
    lemma_pow2_strictly_increases(64, 826);
    lemma_pow2_adds(1024, 50);
    lemma_pow2_adds(52, 1020);
    lemma_pow2_adds(2, 1072);
    lemma_pow2_pos(1072);
    vstd::arithmetic::power2::lemma2_to64();
    let big: int = pow2(826) as int;
    assert(0x10_0000_0000 * u < u * big) by (nonlinear_arith)
        requires
            u > 0,
            big > 0x1_0000_0000_0000_0000,
    ;
    lemma_difference_close(rate, e.bits);
    let db: u64 = difference(rate, e.bits);
    let d: int = value(db);
    let e53: int = pow2(53) as int;
    assert(e53 == 0x20_0000_0000_0000);
    let x1: int = d - (r - a);
    assert(e53 * size(x1) <= size(r - a));
    assert(size(d) <= 2 * m);
    assert(SMOOTHING / STEP == 1021 && SMOOTHING % STEP == 0);
    let quarter: int = pow2(1072) as int;
    assert(value(SMOOTHING) == STEP * pow2(1020));
    assert(value(SMOOTHING) == quarter);
    assert(u == 4 * quarter);
    assert(size(quarter * d) == quarter * size(d)) by (nonlinear_arith)
        requires
            quarter > 0,
    ;
    assert(quarter * size(d) < u * (u * big)) by (nonlinear_arith)
        requires
            u == 4 * quarter,
            size(d) <= 0x4_0000_0000 * u,
            size(d) >= 0,
            u > 0,
            big > 0x1_0000_0000_0000_0000,
    ;
    lemma_product_close(SMOOTHING, db);
    let pb: u64 = product(SMOOTHING, db);
    let p: int = value(pb);
    let e52: int = pow2(52) as int;
    let x2: int = 4 * p - d;
    assert(p * u - quarter * d == quarter * x2) by (nonlinear_arith)
        requires
            u == 4 * quarter,
            x2 == 4 * p - d,
    ;
    assert(size(quarter * x2) == quarter * size(x2)) by (nonlinear_arith)
        requires
            quarter > 0,
    ;
    assert(e53 * size(x2) <= size(d) + 4 * e52) by (nonlinear_arith)
        requires
            e53 * (quarter * size(x2)) <= quarter * size(d) + e52 * u,
            u == 4 * quarter,
            quarter > 0,
    ;
    assert(e52 == 0x10_0000_0000_0000);
    assert(size(p) <= m + 4) by {
        lemma_quarter(d, p, m);
    }
    lemma_sum_close(e.bits, pb);
    let nb: u64 = sum(e.bits, pb);
    let n: int = value(nb);
    assert(nb == smoothed(Some(e), rate).bits);
    lemma_smoothing_error(a, r, d, p, n);
    lemma_pow2_adds(24, 24);
    assert(pow2(48) == 0x1_0000_0000_0000);
}

/// A quarter is smaller than the whole.
proof fn lemma_quarter(d: int, p: int, m: int)
    requires
        size(d) <= 2 * m,
        0x20_0000_0000_0000 * gap(4 * p, d) <= size(d) + 0x40_0000_0000_0000,
    ensures
        size(p) <= m + 4,
{
}

/// The errors of the three steps add up to little.
proof fn lemma_smoothing_error(a: int, r: int, d: int, p: int, n: int)
    requires
        0x20_0000_0000_0000 * gap(d, r - a) <= size(r - a),
        0x20_0000_0000_0000 * gap(4 * p, d) <= size(d) + 0x40_0000_0000_0000,
        0x20_0000_0000_0000 * gap(n, a + p) <= size(a + p),
    ensures
        0x1_0000_0000_0000 * gap(4 * n, 3 * a + r) <= size(a) + size(r) + 0x10_0000_0000_0000,
{
    let m: int = size(a) + size(r);
    let x1: int = gap(d, r - a);
    let x2: int = gap(4 * p, d);
    let x3: int = gap(n, a + p);
    assert(size(r - a) <= m);
    assert(size(d) <= 2 * m);
    assert(size(p) <= m + 4);
    assert(size(a + p) <= 2 * m + 4);
    assert(gap(4 * n, 3 * a + r) <= 4 * x3 + x2 + x1);
}

/// What is near a quarter of the way lies between the ends.
proof fn lemma_between(a: int, r: int, n: int)
    requires
        0 <= a,
        0 <= r,
        0x1_0000_0000_0000 * gap(4 * n, 3 * a + r) <= a + r + 0x10_0000_0000_0000,
        0x100_0000_0000 * gap(a, r) >= a + r + 0x20_0000_0000_0000,
    ensures
        r < a ==> r < n < a,
        a < r ==> a < n < r,
{
}

/// Where the earlier consumption and the rate are apart, the next consumption
/// lies strictly between them, whichever is the larger.
pub proof fn lemma_smoothing_between(e: Num, rate: u64)
    requires
        finite(e.bits),
        finite(rate),
        0 <= value(e.bits) <= times_unit(0x1_0000_0000),
        0 <= value(rate) <= times_unit(0x1_0000_0000),
        pow2(40) * gap(value(e.bits), value(rate)) >= value(e.bits) + value(rate) + pow2(53),
    ensures
        less(rate, e.bits) ==> less(rate, smoothed(Some(e), rate).bits) && less(
            smoothed(Some(e), rate).bits,
            e.bits,
        ),
        less(e.bits, rate) ==> less(e.bits, smoothed(Some(e), rate).bits) && less(
            smoothed(Some(e), rate).bits,
            rate,
        ),
{
    let a: int = value(e.bits);
    let r: int = value(rate);
    let n: u64 = smoothed(Some(e), rate).bits;
    lemma_powers();
    lemma_smoothing(e, rate);
    lemma_pow2_adds(40, 8);
    lemma_pow2_adds(20, 20);
    vstd::arithmetic::power2::lemma2_to64();
    assert(pow2(40) == 0x100_0000_0000);
    assert(pow2(48) == 0x1_0000_0000_0000);
    lemma_between(a, r, value(n));
    lemma_order_is_value_order(rate, e.bits);
    lemma_order_is_value_order(e.bits, rate);
    lemma_order_is_value_order(rate, n);
    lemma_order_is_value_order(n, rate);
    lemma_order_is_value_order(n, e.bits);
    lemma_order_is_value_order(e.bits, n);
}

/// 2^826 is beyond all that is measured.
pub proof fn lemma_room(u: int)
    requires
        u == unit(),
    ensures
        pow2(1900) == u * pow2(826),
        pow2(826) > 0x1_0000_0000_0000_0000,
{
    lemma_powers();
    lemma_pow2_adds(1074, 826);
    lemma_pow2_strictly_increases(64, 826);
}

/// 3600, 50000 and 0.05.
pub proof fn lemma_fuel_constants()
    ensures
        finite(HOUR) && value(HOUR) == 3600 * unit(),
        finite(ABSURD_RATE) && value(ABSURD_RATE) == 50_000 * unit(),
        finite(SHORT_SPAN),
        unit() < 20 * value(SHORT_SPAN) + 1,
        19 * value(SHORT_SPAN) < unit() < 21 * value(SHORT_SPAN),
{
    vstd::arithmetic::power2::lemma2_to64();
    lemma_powers();
    lemma_pow2_adds(41, 1033);
    lemma_pow2_adds(20, 21);
    lemma_pow2_pos(1033);
    let p: int = pow2(1033) as int;
    assert(pow2(41) == 0x200_0000_0000);
    assert(HOUR / STEP == 1034 && HOUR % STEP == 0xc_2000_0000_0000);
    assert(value(HOUR) == 0x1c_2000_0000_0000 * p);
    assert(0x1c_2000_0000_0000 * p == 3600 * (0x200_0000_0000 * p)) by (nonlinear_arith);
    lemma_pow2_adds(37, 1037);
    lemma_pow2_adds(20, 17);
    lemma_pow2_pos(1037);
    let q: int = pow2(1037) as int;
    assert(pow2(37) == 0x20_0000_0000);
    assert(ABSURD_RATE / STEP == 1038 && ABSURD_RATE % STEP == 0x8_6a00_0000_0000);
    assert(value(ABSURD_RATE) == 0x18_6a00_0000_0000 * q);
    assert(0x18_6a00_0000_0000 * q == 50_000 * (0x20_0000_0000 * q)) by (nonlinear_arith);
    lemma_pow2_adds(57, 1017);
    lemma_pow2_adds(32, 25);
    lemma_pow2_pos(1017);
    let r: int = pow2(1017) as int;
    assert(pow2(57) == 0x200_0000_0000_0000);
    assert(SHORT_SPAN / STEP == 1018 && SHORT_SPAN % STEP == 0x9_9999_9999_999a);
    assert(value(SHORT_SPAN) == 0x19_9999_9999_999a * r);
    assert(unit() == 0x200_0000_0000_0000 * r);
}

/// What a burn of some fuel in some seconds comes to by the hour, to 49 bits.
proof fn lemma_rate_close(before: u64, kg: u64, dt: u64)
    requires
        finite(before),
        finite(kg),
        finite(dt),
        unit() <= 0x10_0000 * (value(before) - value(kg)),
        value(before) - value(kg) <= times_unit(0x10_0000),
        unit() <= 32 * value(dt),
        value(dt) <= times_unit(0x10_0000_0000),
    ensures
        ({
            let rate: u64 = product(quotient(difference(before, kg), dt), HOUR);
            let exact: int = 3600 * (value(before) - value(kg)) * unit();
            &&& less(0, difference(before, kg))
            &&& finite(rate)
            &&& pow2(49) * gap(value(rate) * value(dt), exact) <= exact
        }),
{
    let u: int = unit();
    let w: int = value(before) - value(kg);
    let e: int = value(dt);
    lemma_powers();
    lemma_unit_is_large();
    lemma_room(u);
    lemma_fuel_constants();
    lemma_zero_magnitude();
    let big: int = pow2(826) as int;
    let e53: int = pow2(53) as int;
    let e52: int = pow2(52) as int;
    assert(e53 == 0x20_0000_0000_0000 && e52 == 0x10_0000_0000_0000);
    assert(0x10_0000_0000 * u < u * big) by (nonlinear_arith)
        requires
            u > 0,
            big > 0x1_0000_0000_0000_0000,
    ;
    lemma_difference_close(before, kg);
    let bb: u64 = difference(before, kg);
    let b: int = value(bb);
    assert(0 < b <= 2 * w);
    lemma_order_is_value_order(0, bb);
    let wu: int = w * u;
    assert(0x10_0000 * wu >= u * u) by (nonlinear_arith)
        requires
            wu == w * u,
            0x10_0000 * w >= u,
            u > 0,
    ;
    assert(u * u >= 0x100_0000_0000_0000_0000_0000_0000_0000 * u) by (nonlinear_arith)
        requires
            u >= 0x100_0000_0000_0000_0000_0000_0000_0000,
    ;
    let bu: int = b * u;
    assert(0 < bu <= 2 * wu) by (nonlinear_arith)
        requires
            0 < b <= 2 * w,
            bu == b * u,
            wu == w * u,
            u > 0,
    ;
    assert(bu < e * (u * big)) by (nonlinear_arith)
        requires
            bu == b * u,
            b <= 0x20_0000 * u,
            32 * e >= u,
            u > 0,
            big > 0x1_0000_0000_0000_0000,
    ;
    assert(size(b) * pow2(1074) < size(e) * pow2(1900));
    lemma_quotient_close(bb, dt);
    let xb: u64 = quotient(bb, dt);
    let x: int = value(xb);
    let xe: int = x * e;
    let x2: int = xe - bu;
    assert(e53 * size(x2) <= bu + e52 * e);
    assert(0 <= xe <= 2 * bu + e) by {
        assert(x >= 0) by {
            assert(!crate::num::negative(bb) && !crate::num::negative(dt)) by {
                lemma_zero_magnitude();
            }
        }
        assert(xe >= 0) by (nonlinear_arith)
            requires
                xe == x * e,
                x >= 0,
                e > 0,
        ;
    }
    assert(x <= 0x8000_0000 * u) by (nonlinear_arith)
        requires
            x * e <= 2 * bu + e,
            bu == b * u,
            b <= 0x20_0000 * u,
            32 * e >= u,
            u > 0x1000,
    ;
    assert(x >= 0) by (nonlinear_arith)
        requires
            x * e >= 0,
            e > 0,
    ;
    let h: int = 3600 * u;
    assert(size(x * h) == x * h && x * h == 3600 * (x * u)) by (nonlinear_arith)
        requires
            x >= 0,
            h == 3600 * u,
            u > 0,
    ;
    assert(x * h < u * (u * big)) by (nonlinear_arith)
        requires
            0 <= x <= 0x8000_0000 * u,
            h == 3600 * u,
            u > 0,
            big > 0x1_0000_0000_0000_0000,
    ;
    lemma_product_close(xb, HOUR);
    let rb: u64 = product(xb, HOUR);
    let r: int = value(rb);
    let x3: int = r - 3600 * x;
    assert(r * u - x * h == x3 * u) by (nonlinear_arith)
        requires
            x3 == r - 3600 * x,
            h == 3600 * u,
    ;
    assert(size(x3 * u) == size(x3) * u) by (nonlinear_arith)
        requires
            u > 0,
    ;
    assert(e53 * size(x3) <= 3600 * x + e52) by (nonlinear_arith)
        requires
            e53 * (size(x3) * u) <= 3600 * (x * u) + e52 * u,
            u > 0,
    ;
    let x1: int = b - w;
    assert(e53 * size(x1) <= w);
    let t: int = r * e - (3600 * w) * u;
    assert(t == x3 * e + 3600 * x2 + 3600 * (x1 * u)) by (nonlinear_arith)
        requires
            t == r * e - (3600 * w) * u,
            x3 == r - 3600 * x,
            x2 == x * e - b * u,
            x1 == b - w,
    ;
    assert(e53 * size(x3 * e) <= 3600 * xe + e52 * e) by (nonlinear_arith)
        requires
            e53 * size(x3) <= 3600 * x + e52,
            xe == x * e,
            e > 0,
            e53 > 0,
    ;
    assert(e53 * size(x1 * u) <= wu) by (nonlinear_arith)
        requires
            e53 * size(x1) <= w,
            wu == w * u,
            u > 0,
            e53 > 0,
    ;
    assert(0x20_0000_0000_0000 * size(t) <= 16 * (3600 * wu)) by {
        lemma_rate_error(t, x3 * e, x2, x1 * u, wu, bu, xe, e, u);
    }
    lemma_pow2_adds(49, 4);
    lemma_pow2_adds(24, 25);
    vstd::arithmetic::power2::lemma2_to64();
    assert(pow2(49) == 0x2_0000_0000_0000);
    assert((3600 * w) * u == 3600 * wu) by (nonlinear_arith)
        requires
            wu == w * u,
    ;
}

/// The errors of the three steps add up to little.
proof fn lemma_rate_error(
    t: int,
    y3: int,
    y2: int,
    y1: int,
    wu: int,
    bu: int,
    xe: int,
    e: int,
    u: int,
)
    requires
        t == y3 + 3600 * y2 + 3600 * y1,
        0x20_0000_0000_0000 * size(y3) <= 3600 * xe + 0x10_0000_0000_0000 * e,
        0x20_0000_0000_0000 * size(y2) <= bu + 0x10_0000_0000_0000 * e,
        0x20_0000_0000_0000 * size(y1) <= wu,
        0 <= xe <= 2 * bu + e,
        0 < bu <= 2 * wu,
        0 < e <= 0x10_0000_0000 * u,
        0x10_0000 * wu >= 0x100_0000_0000_0000_0000_0000_0000_0000 * u,
        u > 0,
    ensures
        0x20_0000_0000_0000 * size(t) <= 16 * (3600 * wu),
{
}

/// A rate that is near less, or more, than the absurd one is less, or more.
proof fn lemma_rate_limits(rd: int, exact: int, du: int)
    requires
        du > 0,
        0x2_0000_0000_0000 * gap(rd, exact) <= exact,
    ensures
        exact <= 49_999 * du ==> rd < 50_000 * du,
        exact >= 50_001 * du ==> rd >= 50_000 * du,
        exact > 0 ==> rd > 0,
{
}

/// What the fuel is taken for in the state `f`, once it went from one reading to
/// another. A burn gives the consumption that it comes to by the hour where none
/// is known; a refuelling gives none; one that is too short or absurd leaves the
/// earlier one.
pub proof fn lemma_burn(f: FuelState, kg: Num, now: u64)
    requires
        f.kg is Some,
        f.time is Some,
        f.time->0 <= now,
        finite(f.kg->0.bits),
        finite(kg.bits),
        size(value(f.kg->0.bits)) <= times_unit(0x8_0000),
        size(value(kg.bits)) <= times_unit(0x8_0000),
        value(f.kg->0.bits) != value(kg.bits),
        value(elapsed(now, f.time->0)) <= times_unit(0x10_0000_0000),
    ensures
        ({
            let after: FuelState = fuel_after(f, kg, now);
            let burnt: int = value(f.kg->0.bits) - value(kg.bits);
            let dt: int = value(elapsed(now, f.time->0));
            let exact: int = 3600 * burnt * unit();
            &&& after.kg == Some(kg)
            &&& after.time == Some(now)
            &&& burnt < 0 ==> after.ema is None
            &&& burnt > 0 && 21 * dt <= unit() ==> after.ema == f.ema
            &&& 0x10_0000 * burnt >= unit() && 19 * dt >= unit() && 3600 * burnt >= 50_001 * dt
                ==> after.ema == f.ema
            &&& 0x10_0000 * burnt >= unit() && 19 * dt >= unit() && 3600 * burnt <= 49_999 * dt
                ==> after.ema is Some && (f.ema is None ==> finite(after.ema->0.bits) && pow2(49)
                * gap(value(after.ema->0.bits) * dt, exact) <= exact)
        }),
{
    let before: u64 = f.kg->0.bits;
    let u: int = unit();
    let burnt: int = value(before) - value(kg.bits);
    let db: u64 = elapsed(now, f.time->0);
    let dt: int = value(db);
    lemma_powers();
    lemma_unit_is_large();
    lemma_room(u);
    lemma_fuel_constants();
    lemma_zero_magnitude();
    lemma_elapsed_close(f.time->0, now);
    lemma_order_is_value_order(before, kg.bits);
    let big: int = pow2(826) as int;
    assert(0x10_0000_0000 * u < u * big) by (nonlinear_arith)
        requires
            u > 0,
            big > 0x1_0000_0000_0000_0000,
    ;
    crate::accuracy::lemma_difference_sign(before, kg.bits);
    let bb: u64 = difference(before, kg.bits);
    lemma_order_is_value_order(0, bb);
    lemma_order_is_value_order(bb, 0);
    lemma_order_is_value_order(SHORT_SPAN, db);
    if 0x10_0000 * burnt >= u && 19 * dt >= u {
        lemma_rate_close(before, kg.bits, db);
        let rb: u64 = product(quotient(bb, db), HOUR);
        let r: int = value(rb);
        let exact: int = 3600 * burnt * u;
        lemma_order_is_value_order(rb, ABSURD_RATE);
        lemma_pow2_adds(24, 25);
        vstd::arithmetic::power2::lemma2_to64();
        assert(pow2(49) == 0x2_0000_0000_0000);
        let rd: int = r * dt;
        assert(0x2_0000_0000_0000 * gap(rd, exact) <= exact);
        let du: int = dt * u;
        assert(du > 0) by (nonlinear_arith)
            requires
                19 * dt >= u,
                u > 0,
                du == dt * u,
        ;
        if 3600 * burnt <= 49_999 * dt {
            assert(exact <= 49_999 * du) by (nonlinear_arith)
                requires
                    exact == 3600 * burnt * u,
                    3600 * burnt <= 49_999 * dt,
                    du == dt * u,
                    u > 0,
            ;
            lemma_rate_limits(rd, exact, du);
            assert(r < 50_000 * u) by (nonlinear_arith)
                requires
                    r * dt < 50_000 * du,
                    du == dt * u,
                    dt > 0,
            ;
        }
        if 3600 * burnt >= 50_001 * dt {
            assert(exact >= 50_001 * du) by (nonlinear_arith)
                requires
                    exact == 3600 * burnt * u,
                    3600 * burnt >= 50_001 * dt,
                    du == dt * u,
                    u > 0,
            ;
            lemma_rate_limits(rd, exact, du);
            assert(r >= 50_000 * u) by (nonlinear_arith)
                requires
                    r * dt >= 50_000 * du,
                    du == dt * u,
                    dt > 0,
            ;
        }
    }
}

/// A known consumption goes a quarter of the way to the one that the same burn
/// gives where none is known.
pub proof fn lemma_burn_is_smoothed(f: FuelState, kg: Num, now: u64)
    requires
        f.kg is Some,
        f.time is Some,
        f.time->0 <= now,
        f.ema is Some,
        finite(f.kg->0.bits),
        finite(kg.bits),
        finite(f.ema->0.bits),
        size(value(f.kg->0.bits)) <= times_unit(0x8_0000),
        size(value(kg.bits)) <= times_unit(0x8_0000),
        0 <= value(f.ema->0.bits) <= times_unit(0x1_0000_0000),
        value(elapsed(now, f.time->0)) <= times_unit(0x10_0000_0000),
        0x10_0000 * (value(f.kg->0.bits) - value(kg.bits)) >= unit(),
        19 * value(elapsed(now, f.time->0)) >= unit(),
        3600 * (value(f.kg->0.bits) - value(kg.bits)) <= 49_999 * value(elapsed(now, f.time->0)),
    ensures
        ({
            let first: Option<Num> = fuel_after(FuelState { ema: None, ..f }, kg, now).ema;
            let next: Option<Num> = fuel_after(f, kg, now).ema;
            let e: int = value(f.ema->0.bits);
            &&& first is Some && next is Some
            &&& finite(first->0.bits) && finite(next->0.bits)
            &&& 0 <= value(first->0.bits) <= 50_000 * unit()
            &&& pow2(48) * gap(4 * value(next->0.bits), 3 * e + value(first->0.bits)) <= e + value(
                first->0.bits,
            ) + pow2(52)
        }),
{
    let none: FuelState = FuelState { ema: None, ..f };
    lemma_unit_is_large();
    lemma_powers();
    lemma_elapsed_close(f.time->0, now);
    lemma_burn(none, kg, now);
    lemma_burn(f, kg, now);
    let first: u64 = fuel_after(none, kg, now).ema->0.bits;
    let db: u64 = elapsed(now, f.time->0);
    lemma_rate_close(f.kg->0.bits, kg.bits, db);
    lemma_fuel_constants();
    lemma_order_is_value_order(first, ABSURD_RATE);
    assert(value(first) >= 0) by {
        let dt: int = value(db);
        let burnt: int = value(f.kg->0.bits) - value(kg.bits);
        let exact: int = 3600 * burnt * unit();
        assert(exact > 0) by (nonlinear_arith)
            requires
                exact == 3600 * burnt * unit(),
                burnt > 0,
                unit() > 0,
        ;
        lemma_pow2_adds(24, 25);
        vstd::arithmetic::power2::lemma2_to64();
        assert(pow2(49) == 0x2_0000_0000_0000);
        assert(0x2_0000_0000_0000 * gap(value(first) * dt, exact) <= exact);
        lemma_rate_limits(value(first) * dt, exact, 1);
        assert(value(first) > 0) by (nonlinear_arith)
            requires
                value(first) * dt > 0,
                dt > 0,
        ;
    }
    lemma_smoothing(f.ema->0, first);
}

} // verus!
