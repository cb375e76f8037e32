//! What the derived fields of a frame say of the flight.
use vstd::arithmetic::power2::{lemma_pow2_adds, pow2};
use vstd::prelude::*;

use crate::accuracy::{gap, lemma_product_close, lemma_product_sign, lemma_quotient_close, lemma_quotient_sign, lemma_sum_close, lemma_sum_sign, size};
use crate::arith::{lemma_powers, product, quotient, sum};
use crate::derived::{derived, excess_power, fresh, fuel_after, fuel_of_frame, history_of_frame, newest, pushed_of_frame, slope, speed_of, thrust, with_fuel, FuelState, GRAVITY, HUNDRED, ONE, SEP_FLOOR, SEP_LIMIT, TWO};
use crate::num::{clamped, finite, lemma_order_is_value_order, lemma_zero_magnitude, less, same, value, Num, STEP};
use crate::physics::{lemma_age, lemma_gravity, lemma_limits, lemma_room, lemma_slope_is_least_squares, lemma_unit_is_large, line_rise, line_run, sampled, times_unit, unit, TICK};

verus! {

/// An aircraft that does not climb and loses speed has a negative excess power,
/// and one that does not sink and gains speed a positive one.
pub proof fn lemma_sep_sign(vy: u64, speed: u64, a: u64)
    requires
        finite(vy),
        finite(speed),
        finite(a),
        size(value(vy)) <= times_unit(4096),
        unit() <= value(speed) <= times_unit(4096),
        unit() <= 0x100_0000_0000 * size(value(a)),
        size(value(a)) <= times_unit(4096),
    ensures
        value(vy) <= 0 && value(a) < 0 ==> value(excess_power(vy, speed, Some(a))) < 0,
        value(vy) >= 0 && value(a) > 0 ==> value(excess_power(vy, speed, Some(a))) > 0,
{
    let u: int = unit();
    let v: int = value(vy);
    let s: int = value(speed);
    let c: int = value(a);
    let g: int = value(GRAVITY);
    lemma_powers();
    lemma_unit_is_large();
    lemma_gravity();
    lemma_room(u);
    lemma_limits();
    let big: int = pow2(826) as int;
    assert(g <= s * u < g * (u * big)) by (nonlinear_arith)
        requires
            u <= s <= 4096 * u,
            9 * u < g < 10 * u,
            u >= 16,
            big > 0x1_0000_0000_0000_0000,
    ;
    lemma_quotient_sign(speed, GRAVITY);
    lemma_quotient_close(speed, GRAVITY);
    let qb: u64 = quotient(speed, GRAVITY);
    let q: int = value(qb);
    let e53: int = pow2(53) as int;
    let e52: int = pow2(52) as int;
    assert(e53 == 0x20_0000_0000_0000 && e52 == 0x10_0000_0000_0000);
    let su: int = s * u;
    let uu: int = u * u;
    let qg: int = q * g;
    assert(uu <= su <= 4096 * uu) by (nonlinear_arith)
        requires
            u <= s <= 4096 * u,
            su == s * u,
            uu == u * u,
            u > 0,
    ;
    assert(g <= uu) by (nonlinear_arith)
        requires
            g < 10 * u,
            uu == u * u,
            u >= 16,
    ;
    assert(e53 * gap(qg, su) <= su + e52 * g);
    assert(0x10_0000_0000_0000 * g <= uu) by (nonlinear_arith)
        requires
            g < 10 * u,
            uu == u * u,
            u >= 0x100_0000_0000_0000_0000_0000_0000_0000,
    ;
    assert(2 * qg >= uu && qg <= 8192 * uu);
    assert(20 * q >= u) by (nonlinear_arith)
        requires
            2 * (q * g) >= uu,
            uu == u * u,
            0 < g < 10 * u,
            u > 0,
    ;
    assert(q <= 8192 * u) by (nonlinear_arith)
        requires
            q * g <= 8192 * uu,
            uu == u * u,
            g > 9 * u,
            u > 0,
    ;
    let qc: int = q * c;
    assert(u <= size(qc) < u * (u * big)) by (nonlinear_arith)
        requires
            qc == q * c,
            20 * q >= u,
            q <= 8192 * u,
            0x100_0000_0000 * size(c) >= u,
            size(c) <= 4096 * u,
            u >= 0x100_0000_0000_0000_0000_0000_0000_0000,
            big > 0x1_0000_0000_0000_0000,
    ;
    lemma_product_sign(qb, a);
    lemma_product_close(qb, a);
    let pb: u64 = product(qb, a);
    let p: int = value(pb);
    assert(c < 0 ==> qc < 0) by (nonlinear_arith)
        requires
            qc == q * c,
            q > 0,
    ;
    assert(c > 0 ==> qc > 0) by (nonlinear_arith)
        requires
            qc == q * c,
            q > 0,
    ;
    assert(size(qc) <= 0x200_0000 * uu) by (nonlinear_arith)
        requires
            qc == q * c,
            0 < q <= 8192 * u,
            size(c) <= 4096 * u,
            uu == u * u,
            u > 0,
    ;
    assert(size(p) <= 0x400_0000 * u) by {
        let pu: int = p * u;
        assert(0x20_0000_0000_0000 * gap(pu, qc) <= size(qc) + 0x10_0000_0000_0000 * u);
        assert(u <= uu) by (nonlinear_arith)
            requires
                uu == u * u,
                u >= 1,
        ;
        assert(size(pu) <= 0x400_0000 * uu);
        assert(size(p) <= 0x400_0000 * u) by (nonlinear_arith)
            requires
                size(p * u) <= 0x400_0000 * uu,
                uu == u * u,
                u > 0,
        ;
    }
    assert(0x800_0000 * u < u * big) by (nonlinear_arith)
        requires
            u > 0,
            big > 0x1_0000_0000_0000_0000,
    ;
    lemma_sum_sign(vy, pb);
    let rb: u64 = sum(vy, pb);
    lemma_order_is_value_order(rb, SEP_FLOOR);
    lemma_order_is_value_order(SEP_LIMIT, rb);
    assert(excess_power(vy, speed, Some(a)) == clamped(rb, SEP_FLOOR, SEP_LIMIT));
}

/// The excess power of a frame is made of its own climb rate and speed and of
/// the slope of the samples.
pub proof fn lemma_sep_of_frame(
    frame: Map<Seq<char>, Num>,
    f: FuelState,
    h: Seq<(u64, Num)>,
    now: u64,
)
    requires
        frame.contains_key("vy_ms"@),
        frame.contains_key("tas_kmh"@),
    ensures
        derived(frame, f, h, now).contains_key("sep"@),
        derived(frame, f, h, now)["sep"@].bits == excess_power(
            frame["vy_ms"@].bits,
            speed_of(frame),
            slope(h, now),
        ),
{
    crate::derived::lemma_names();
}

/// Samples whose least-squares line falls give an aircraft that does not climb
/// a negative excess power, and samples whose line rises one that does not sink a
/// positive one.
pub proof fn lemma_braking_loses_energy(
    frame: Map<Seq<char>, Num>,
    f: FuelState,
    h: Seq<(u64, Num)>,
    k: Seq<int>,
    w: Seq<int>,
    now: u64,
    span: nat,
)
    requires
        frame.contains_key("vy_ms"@),
        frame.contains_key("tas_kmh"@),
        finite(frame["vy_ms"@].bits),
        size(value(frame["vy_ms"@].bits)) <= times_unit(4096),
        finite(speed_of(frame)),
        unit() <= value(speed_of(frame)) <= times_unit(4096),
        sampled(h, k, w),
        line_run(k) > 0,
        26 <= span < 0x10_0000,
        now == h[0].0 + span * TICK,
        size(value(slope(h, now)->0)) <= times_unit(4096),
    ensures
        derived(frame, f, h, now).contains_key("sep"@),
        line_rise(k, w) < 0 && value(frame["vy_ms"@].bits) <= 0 ==> value(
            derived(frame, f, h, now)["sep"@].bits,
        ) < 0,
        line_rise(k, w) > 0 && value(frame["vy_ms"@].bits) >= 0 ==> value(
            derived(frame, f, h, now)["sep"@].bits,
        ) > 0,
{
    lemma_sep_of_frame(frame, f, h, now);
    lemma_slope_is_least_squares(h, k, w, now, span);
    if line_rise(k, w) != 0 {
        let a: u64 = slope(h, now)->0;
        let c: int = value(a);
        let u: int = unit();
        let run: int = line_run(k);
        let rise: int = line_rise(k, w);
        lemma_powers();
        lemma_unit_is_large();
        crate::physics::lemma_line_run(h, k, w);
        let two: int = 2 * run;
        let ru: int = rise * u;
        let ct: int = c * two;
        assert(size(ru) == size(rise) * u && size(ru) >= u) by (nonlinear_arith)
            requires
                ru == rise * u,
                rise != 0,
                u > 0,
        ;
        assert(0x20_0000_0000_0000 * gap(ct, ru) <= size(ru) + 0x10_0000_0000_0000 * two);
        assert(4 * size(ct) >= u);
        assert(0x100_0000_0000 * size(c) >= u) by (nonlinear_arith)
            requires
                4 * size(c * two) >= u,
                0 < two <= 0x800_0000,
                u > 0,
        ;
        lemma_sep_sign(frame["vy_ms"@].bits, speed_of(frame), a);
    }
}

/// Of two samples the line rises where the later is the faster, and falls where
/// it is the slower.
pub proof fn lemma_two_samples(k: Seq<int>, w: Seq<int>)
    requires
        k.len() == 2,
        w.len() == 2,
        k[0] == 0,
        k[1] > 0,
    ensures
        line_run(k) == k[1] * k[1],
        line_run(k) > 0,
        line_rise(k, w) == k[1] * (w[1] - w[0]),
        w[1] < w[0] ==> line_rise(k, w) < 0,
        w[1] > w[0] ==> line_rise(k, w) > 0,
{
    let none: Seq<int> = Seq::empty();
    let k0 = k.drop_last();
    let w0 = w.drop_last();
    assert(k0.drop_last() =~= none);
    assert(w0.drop_last() =~= none);
    reveal_with_fuel(crate::physics::total, 3);
    reveal_with_fuel(crate::physics::total_product, 3);
    let a: int = k[1];
    let b: int = w[0];
    let c: int = w[1];
    assert(2 * (a * a) - a * a == a * a && a * a > 0) by (nonlinear_arith)
        requires
            a > 0,
    ;
    assert(2 * (a * c) - a * (b + c) == a * (c - b)) by (nonlinear_arith);
    assert(c < b ==> a * (c - b) < 0) by (nonlinear_arith)
        requires
            a > 0,
    ;
    assert(c > b ==> a * (c - b) > 0) by (nonlinear_arith)
        requires
            a > 0,
    ;
    assert(0 * b == 0);
    assert(0 * 0 == 0);
}

/// After a frame whose speed is new the samples are the newest of those before
/// and the new one: at most eight, none more than two seconds old but the new one,
/// and none left out that is among the newest eight and no older.
pub proof fn lemma_samples_kept(
    h: Seq<(u64, Num)>,
    last: Option<Num>,
    frame: Map<Seq<char>, Num>,
    now: u64,
)
    requires
        frame.contains_key("vy_ms"@),
        frame.contains_key("tas_kmh"@),
        last is None || !same(last->0.bits, speed_of(frame)),
        forall|i: int| 0 <= i < h.len() ==> (#[trigger] h[i]).0 <= now,
        forall|i: int, j: int| 0 <= i <= j < h.len() ==> (#[trigger] h[i]).0 <= (#[trigger] h[j]).0,
    ensures
        ({
            let all: Seq<(u64, Num)> = h.push((now, Num { bits: speed_of(frame) }));
            let kept: Seq<(u64, Num)> = history_of_frame(h, last, frame, now);
            let cut: int = all.len() - kept.len();
            &&& 1 <= kept.len() <= 8
            &&& kept == all.skip(cut)
            &&& forall|i: int| #![trigger all[i]]
                0 <= i < all.len() ==> (i >= cut <==> i >= all.len() - 8 && (now - all[i].0
                    <= 2_000_000_000))
        }),
{
    let all: Seq<(u64, Num)> = h.push((now, Num { bits: speed_of(frame) }));
    let few = newest(all);
    let from: int = all.len() - few.len();
    assert(few =~= all.skip(from));
    assert forall|i: int| 0 <= i < few.len() implies (#[trigger] few[i]).0 <= now by {
        assert(few[i] == all[from + i]);
    }
    assert forall|i: int, j: int| 0 <= i <= j < few.len() implies (#[trigger] few[i]).0 <= (
    #[trigger] few[j]).0 by {
        assert(few[i] == all[from + i]);
        assert(few[j] == all[from + j]);
    }
    lemma_fresh_kept(few, now);
    let kept = fresh(few, now);
    assert(kept == history_of_frame(h, last, frame, now));
    let more: int = few.len() - kept.len();
    assert(all.skip(from).skip(more) =~= all.skip(from + more));
    assert forall|i: int| #![trigger all[i]] 0 <= i < all.len() implies (i >= from + more <==> i
        >= all.len() - 8 && (now - all[i].0 <= 2_000_000_000)) by {
        if i >= from {
            assert(few[i - from] == all[i]);
        }
    }
}

/// What is left of samples once the old ones are dropped.
proof fn lemma_fresh_kept(h: Seq<(u64, Num)>, now: u64)
    requires
        h.len() >= 1,
        h.last().0 == now,
        forall|i: int| 0 <= i < h.len() ==> (#[trigger] h[i]).0 <= now,
        forall|i: int, j: int| 0 <= i <= j < h.len() ==> (#[trigger] h[i]).0 <= (#[trigger] h[j]).0,
    ensures
        1 <= fresh(h, now).len() <= h.len(),
        fresh(h, now) == h.skip(h.len() - fresh(h, now).len()),
        forall|i: int| #![trigger h[i]]
            0 <= i < h.len() ==> (i >= h.len() - fresh(h, now).len() <==> now - h[i].0
                <= 2_000_000_000),
    decreases h.len(),
{
    lemma_age(h[0].0, now);
    if h.len() > 1 && now - h[0].0 > 2_000_000_000 {
        let t = h.skip(1);
        assert forall|i: int| 0 <= i < t.len() implies (#[trigger] t[i]).0 <= now by {
            assert(t[i] == h[i + 1]);
        }
        assert forall|i: int, j: int| 0 <= i <= j < t.len() implies (#[trigger] t[i]).0 <= (
        #[trigger] t[j]).0 by {
            assert(t[i] == h[i + 1]);
            assert(t[j] == h[j + 1]);
        }
        lemma_fresh_kept(t, now);
        let f = fresh(t, now);
        assert(t.skip(t.len() - f.len()) =~= h.skip(h.len() - f.len()));
        assert forall|i: int| #![trigger h[i]] 0 <= i < h.len() implies (i >= h.len() - f.len()
            <==> now - h[i].0 <= 2_000_000_000) by {
            if i > 0 {
                assert(t[i - 1] == h[i]);
            }
        }
    } else {
        assert(h.skip(0) =~= h);
        assert forall|i: int| #![trigger h[i]] 0 <= i < h.len() implies now - h[i].0
            <= 2_000_000_000 by {
            assert(h[0].0 <= h[i].0);
        }
    }
}

/// A repeated speed leaves the samples alone, and so does a frame without a
/// climb rate or a speed.
pub proof fn lemma_samples_stay(
    h: Seq<(u64, Num)>,
    last: Option<Num>,
    frame: Map<Seq<char>, Num>,
    now: u64,
)
    requires
        !frame.contains_key("vy_ms"@) || !frame.contains_key("tas_kmh"@) || (last is Some && same(
            last->0.bits,
            speed_of(frame),
        )),
    ensures
        history_of_frame(h, last, frame, now) == h,
{
}

/// Over less than 47 milliseconds no slope is known, nor with fewer than two
/// samples.
pub proof fn lemma_no_slope(h: Seq<(u64, Num)>, now: u64)
    requires
        h.len() < 2 || (h[0].0 <= now && now - h[0].0 <= 47_000_000),
    ensures
        slope(h, now) is None,
{
    if h.len() >= 2 {
        let ns: int = now - h[0].0;
        let u: int = unit();
        let e: u64 = crate::derived::elapsed(now, h[0].0);
        crate::physics::lemma_elapsed_close(h[0].0, now);
        crate::physics::lemma_fuel_constants();
        lemma_unit_is_large();
        lemma_powers();
        lemma_pow2_adds(51, 2);
        vstd::arithmetic::power2::lemma2_to64();
        assert(pow2(51) == 0x8_0000_0000_0000);
        let nsu: int = ns * u;
        assert(nsu <= 47_000_000 * u) by (nonlinear_arith)
            requires
                nsu == ns * u,
                ns <= 47_000_000,
                u > 0,
        ;
        assert(0x8_0000_0000_0000 * gap(1_000_000_000 * value(e), nsu) <= nsu);
        lemma_order_is_value_order(crate::derived::SHORT_SPAN, e);
    }
}

/// Where no slope is known the excess power is the climb rate, or the limit that
/// it passes.
pub proof fn lemma_sep_without_slope(vy: u64, speed: u64)
    requires
        finite(vy),
    ensures
        ({
            let sep: int = value(excess_power(vy, speed, None));
            if value(vy) > 300 * unit() {
                sep == 300 * unit()
            } else if value(vy) < -(300 * unit()) {
                sep == -(300 * unit())
            } else {
                sep == value(vy)
            }
        }),
{
    lemma_limits();
    lemma_order_is_value_order(vy, SEP_FLOOR);
    lemma_order_is_value_order(SEP_LIMIT, vy);
}

/// The number at `key`, or zero.
pub open spec fn reading(frame: Map<Seq<char>, Num>, key: Seq<char>) -> int {
    if frame.contains_key(key) {
        value(frame[key].bits)
    } else {
        0
    }
}

/// Whether the number at `key`, if there is one, is a thrust: none is negative,
/// and none is more than 2^24.
pub open spec fn is_thrust(frame: Map<Seq<char>, Num>, key: Seq<char>) -> bool {
    frame.contains_key(key) ==> finite(frame[key].bits) && 0 <= value(frame[key].bits)
        <= times_unit(0x100_0000)
}

/// The thrust is that of the four engines together, to 51 bits.
pub proof fn lemma_thrust_of_engines(frame: Map<Seq<char>, Num>)
    requires
        is_thrust(frame, "thrust_1_kgs"@),
        is_thrust(frame, "thrust_2_kgs"@),
        is_thrust(frame, "thrust_3_kgs"@),
        is_thrust(frame, "thrust_4_kgs"@),
    ensures
        ({
            let all: int = reading(frame, "thrust_1_kgs"@) + reading(frame, "thrust_2_kgs"@)
                + reading(frame, "thrust_3_kgs"@) + reading(frame, "thrust_4_kgs"@);
            &&& finite(thrust(frame))
            &&& 0 <= value(thrust(frame))
            &&& 0x4_0000_0000_0000 * gap(value(thrust(frame)), all) <= all
        }),
{
    lemma_zero_magnitude();
    lemma_unit_is_large();
    let a: u64 = lemma_adding_close(frame, "thrust_1_kgs"@, 0, 0, 0);
    let x1: int = reading(frame, "thrust_1_kgs"@);
    let b: u64 = lemma_adding_close(frame, "thrust_2_kgs"@, a, x1, 1);
    let x2: int = x1 + reading(frame, "thrust_2_kgs"@);
    let c: u64 = lemma_adding_close(frame, "thrust_3_kgs"@, b, x2, 2);
    let x3: int = x2 + reading(frame, "thrust_3_kgs"@);
    let d: u64 = lemma_adding_close(frame, "thrust_4_kgs"@, c, x3, 3);
    let all: int = x3 + reading(frame, "thrust_4_kgs"@);
    assert(2 * (3 + 1) * all == 8 * all) by (nonlinear_arith);
    assert(d == thrust(frame));
}

/// Adding one thrust adds one error.
proof fn lemma_adding_close(
    frame: Map<Seq<char>, Num>,
    key: Seq<char>,
    total: u64,
    exact: int,
    steps: int,
) -> (r: u64)
    requires
        is_thrust(frame, key),
        finite(total),
        0 <= value(total),
        0 <= exact <= steps * times_unit(0x100_0000),
        0 <= steps <= 3,
        0x20_0000_0000_0000 * gap(value(total), exact) <= 2 * steps * exact,
    ensures
        r == crate::derived::adding(frame, key, total),
        finite(r),
        0 <= value(r),
        0 <= exact + reading(frame, key) <= (steps + 1) * times_unit(0x100_0000),
        0x20_0000_0000_0000 * gap(value(r), exact + reading(frame, key)) <= 2 * (steps + 1) * (exact
            + reading(frame, key)),
{
    let r: u64 = crate::derived::adding(frame, key, total);
    let u: int = unit();
    let t: int = times_unit(0x100_0000);
    let x: int = reading(frame, key);
    lemma_powers();
    lemma_unit_is_large();
    lemma_room(u);
    let big: int = pow2(826) as int;
    assert(0x10_0000_0000 * u < u * big) by (nonlinear_arith)
        requires
            u > 0,
            big > 0x1_0000_0000_0000_0000,
    ;
    assert(t > 0);
    assert((steps + 1) * t == steps * t + t) by (nonlinear_arith);
    assert(steps * t <= 3 * t) by (nonlinear_arith)
        requires
            steps <= 3,
            t > 0,
    ;
    assert(2 * steps * exact <= 6 * exact) by (nonlinear_arith)
        requires
            0 <= steps <= 3,
            exact >= 0,
    ;
    assert(2 * (steps + 1) * (exact + x) == 2 * steps * exact + 2 * steps * x + 2 * exact + 2 * x)
        by (nonlinear_arith);
    assert(2 * steps * x >= 0) by (nonlinear_arith)
        requires
            steps >= 0,
            x >= 0,
    ;
    if frame.contains_key(key) {
        let y: u64 = frame[key].bits;
        lemma_sum_close(total, y);
        lemma_sum_sign(total, y);
    }
    r
}

/// The weight is that of the empty aircraft and the fuel together, and heavy
/// is more than 100.
pub open spec fn is_mass(b: u64) -> bool {
    finite(b) && 0 <= value(b) <= times_unit(0x1000_0000)
}

/// 100 is the number of the integer.
pub proof fn lemma_hundred()
    ensures
        crate::arith::whole(100) == HUNDRED,
{
    lemma_small_constants();
    lemma_powers();
    crate::physics::lemma_whole_value(100);
    let w: u64 = crate::arith::whole(100);
    if w < HUNDRED {
        crate::num::lemma_magnitude_grows(w as nat, HUNDRED as nat);
    } else if w > HUNDRED {
        crate::num::lemma_magnitude_grows(HUNDRED as nat, w as nat);
    }
}

/// 1, 2 and 100.
proof fn lemma_small_constants()
    ensures
        finite(ONE) && value(ONE) == unit(),
        finite(TWO) && value(TWO) == 2 * unit(),
        finite(HUNDRED) && value(HUNDRED) == 100 * unit(),
{
    vstd::arithmetic::power2::lemma2_to64();
    lemma_powers();
    lemma_pow2_adds(52, 1022);
    assert(ONE / STEP == 1023 && ONE % STEP == 0);
    assert(value(ONE) == STEP * pow2(1022));
    lemma_pow2_adds(52, 1023);
    lemma_pow2_adds(1, 1074);
    assert(TWO / STEP == 1024 && TWO % STEP == 0);
    assert(value(TWO) == STEP * pow2(1023));
    lemma_pow2_adds(46, 1028);
    lemma_pow2_adds(23, 23);
    let p: int = pow2(1028) as int;
    assert(pow2(46) == 0x4000_0000_0000);
    assert(HUNDRED / STEP == 1029 && HUNDRED % STEP == 0x9_0000_0000_0000);
    assert(value(HUNDRED) == 0x19_0000_0000_0000 * p);
    assert(0x19_0000_0000_0000 * p == 100 * (0x4000_0000_0000 * p)) by (nonlinear_arith);
}

/// The power of the thrust is thrust times speed over weight, to 49 bits, where
/// that is within the limit of 300.
proof fn lemma_thrust_power_close(pull: u64, speed: u64, w: u64)
    requires
        finite(pull),
        finite(speed),
        finite(w),
        unit() <= value(pull) <= times_unit(0x400_0000),
        unit() <= value(speed) <= times_unit(4096),
        100 * unit() <= value(w) <= times_unit(0x2800_0000),
    ensures
        ({
            let rise: u64 = clamped(quotient(product(pull, speed), w), SEP_FLOOR, SEP_LIMIT);
            let exact: int = value(pull) * value(speed);
            let per: int = value(w) * unit();
            &&& finite(rise)
            &&& exact <= 299 * per ==> 0x2_0000_0000_0000 * gap(value(rise) * value(w), exact)
                <= exact
            &&& exact >= 301 * per ==> value(rise) == 300 * unit()
        }),
{
    let u: int = unit();
    let p: int = value(pull);
    let s: int = value(speed);
    let m: int = value(w);
    let exact: int = p * s;
    let per: int = m * u;
    lemma_powers();
    lemma_unit_is_large();
    lemma_room(u);
    lemma_limits();
    let big: int = pow2(826) as int;
    let uu: int = u * u;
    assert(uu >= 0x100_0000_0000_0000_0000_0000_0000_0000 * u) by (nonlinear_arith)
        requires
            uu == u * u,
            u >= 0x100_0000_0000_0000_0000_0000_0000_0000,
    ;
    assert(uu <= exact <= 0x40_0000_0000 * uu) by (nonlinear_arith)
        requires
            exact == p * s,
            u <= p <= 0x400_0000 * u,
            u <= s <= 4096 * u,
            uu == u * u,
            u > 0,
    ;
    assert(0x80_0000_0000 * uu < u * (u * big)) by (nonlinear_arith)
        requires
            uu == u * u,
            u > 0,
            big > 0x1_0000_0000_0000_0000,
    ;
    lemma_product_close(pull, speed);
    let ab: u64 = product(pull, speed);
    let a: int = value(ab);
    let au: int = a * u;
    assert(0x20_0000_0000_0000 * gap(au, exact) <= exact + 0x10_0000_0000_0000 * u);
    assert(0 < au <= 2 * exact);
    assert(a > 0) by (nonlinear_arith)
        requires
            a * u > 0,
            u > 0,
    ;
    assert(au < m * (u * big)) by (nonlinear_arith)
        requires
            au <= 0x80_0000_0000 * uu,
            uu == u * u,
            m >= 100 * u,
            u > 0,
            big > 0x1_0000_0000_0000_0000,
    ;
    lemma_quotient_close(ab, w);
    let xb: u64 = quotient(ab, w);
    let x: int = value(xb);
    let xm: int = x * m;
    assert(0x20_0000_0000_0000 * gap(xm, au) <= au + 0x10_0000_0000_0000 * m);
    assert(0x2_0000_0000_0000 * gap(xm, exact) <= exact);
    lemma_order_is_value_order(xb, SEP_FLOOR);
    lemma_order_is_value_order(SEP_LIMIT, xb);
    assert(per > 0) by (nonlinear_arith)
        requires
            per == m * u,
            m > 0,
            u > 0,
    ;
    assert(x > 300 * u <==> xm > 300 * per) by (nonlinear_arith)
        requires
            xm == x * m,
            per == m * u,
            m > 0,
    ;
    assert(x > 0) by (nonlinear_arith)
        requires
            xm == x * m,
            xm > 0,
            m > 0,
    ;
    lemma_power_limits(xm, exact, per);
}

/// A power that is near one well within, or well beyond, the limit is so itself.
proof fn lemma_power_limits(xm: int, exact: int, per: int)
    requires
        per > 0,
        exact > 0,
        0x2_0000_0000_0000 * gap(xm, exact) <= exact,
    ensures
        exact <= 299 * per ==> xm <= 300 * per,
        exact >= 301 * per ==> xm > 300 * per,
{
}

/// The field of the power of the thrust.
proof fn lemma_thrust_field(
    frame: Map<Seq<char>, Num>,
    f: FuelState,
    h: Seq<(u64, Num)>,
    now: u64,
)
    requires
        frame.contains_key("vy_ms"@),
        frame.contains_key("tas_kmh"@),
        frame.contains_key("fm_empty_mass_kg"@),
        frame.contains_key("mfuel_kg"@),
        ({
            let w: u64 = sum(frame["fm_empty_mass_kg"@].bits, frame["mfuel_kg"@].bits);
            less(HUNDRED, w) && less(0, thrust(frame)) && less(ONE, speed_of(frame))
        }),
    ensures
        ({
            let w: u64 = sum(frame["fm_empty_mass_kg"@].bits, frame["mfuel_kg"@].bits);
            let after: Map<Seq<char>, Num> = derived(frame, f, h, now);
            &&& after.contains_key("sep_thrust"@)
            &&& after["sep_thrust"@].bits == clamped(
                quotient(product(thrust(frame), speed_of(frame)), w),
                SEP_FLOOR,
                SEP_LIMIT,
            )
        }),
{
    let fuelled = with_fuel(frame, f);
    let lifted = fuelled.insert(
        "sep"@,
        Num { bits: excess_power(frame["vy_ms"@].bits, speed_of(frame), slope(h, now)) },
    );
    lemma_field_names();
    crate::derived::lemma_names();
    assert(thrust(lifted) == thrust(frame));
}

/// Where the mass, the thrust and the speed are known the frame holds the
/// power of the thrust: thrust times speed over the mass of the empty aircraft and
/// the fuel.
pub proof fn lemma_thrust_power(
    frame: Map<Seq<char>, Num>,
    f: FuelState,
    h: Seq<(u64, Num)>,
    now: u64,
)
    requires
        frame.contains_key("vy_ms"@),
        frame.contains_key("tas_kmh"@),
        frame.contains_key("fm_empty_mass_kg"@),
        frame.contains_key("mfuel_kg"@),
        finite(speed_of(frame)),
        unit() < value(speed_of(frame)) <= times_unit(4096),
        finite(thrust(frame)),
        unit() <= value(thrust(frame)) <= times_unit(0x400_0000),
        is_mass(frame["fm_empty_mass_kg"@].bits),
        is_mass(frame["mfuel_kg"@].bits),
        value(frame["fm_empty_mass_kg"@].bits) >= 101 * unit(),
    ensures
        ({
            let after: Map<Seq<char>, Num> = derived(frame, f, h, now);
            let mass: int = value(frame["fm_empty_mass_kg"@].bits) + value(
                frame["mfuel_kg"@].bits,
            );
            let exact: int = value(thrust(frame)) * value(speed_of(frame));
            &&& after.contains_key("sep_thrust"@)
            &&& finite(after["sep_thrust"@].bits)
            &&& exact <= 298 * (mass * unit()) ==> 0x1_0000_0000_0000 * gap(
                value(after["sep_thrust"@].bits) * mass,
                exact,
            ) <= exact
            &&& exact >= 302 * (mass * unit()) ==> value(after["sep_thrust"@].bits) == 300 * unit()
        }),
{
    lemma_thrust_power_mass(
        thrust(frame),
        speed_of(frame),
        frame["fm_empty_mass_kg"@].bits,
        frame["mfuel_kg"@].bits,
    );
    lemma_thrust_field(frame, f, h, now);
}

/// The power of a thrust, given the two masses.
proof fn lemma_thrust_power_mass(pull: u64, speed: u64, eb: u64, kb: u64)
    requires
        finite(speed),
        unit() < value(speed) <= times_unit(4096),
        finite(pull),
        unit() <= value(pull) <= times_unit(0x400_0000),
        is_mass(eb),
        is_mass(kb),
        value(eb) >= 101 * unit(),
    ensures
        ({
            let w: u64 = sum(eb, kb);
            let rise: u64 = clamped(quotient(product(pull, speed), w), SEP_FLOOR, SEP_LIMIT);
            let mass: int = value(eb) + value(kb);
            let exact: int = value(pull) * value(speed);
            &&& less(HUNDRED, w) && less(0, pull) && less(ONE, speed)
            &&& finite(rise)
            &&& exact <= 298 * (mass * unit()) ==> 0x1_0000_0000_0000 * gap(
                value(rise) * mass,
                exact,
            ) <= exact
            &&& exact >= 302 * (mass * unit()) ==> value(rise) == 300 * unit()
        }),
{
    let u: int = unit();
    let mass: int = value(eb) + value(kb);
    let exact: int = value(pull) * value(speed);
    lemma_powers();
    lemma_unit_is_large();
    lemma_room(u);
    lemma_small_constants();
    lemma_zero_magnitude();
    let big: int = pow2(826) as int;
    assert(0x10_0000_0000 * u < u * big) by (nonlinear_arith)
        requires
            u > 0,
            big > 0x1_0000_0000_0000_0000,
    ;
    lemma_sum_close(eb, kb);
    let wb: u64 = sum(eb, kb);
    let m: int = value(wb);
    assert(0x20_0000_0000_0000 * gap(m, mass) <= mass);
    lemma_order_is_value_order(HUNDRED, wb);
    lemma_order_is_value_order(0, pull);
    lemma_order_is_value_order(ONE, speed);
    lemma_thrust_power_close(pull, speed, wb);
    let rise: u64 = clamped(quotient(product(pull, speed), wb), SEP_FLOOR, SEP_LIMIT);
    let x: int = value(rise);
    let per: int = m * u;
    let of_mass: int = mass * u;
    assert(0x20_0000_0000_0000 * gap(per, of_mass) <= of_mass) by (nonlinear_arith)
        requires
            0x20_0000_0000_0000 * gap(m, mass) <= mass,
            per == m * u,
            of_mass == mass * u,
            u > 0,
    ;
    assert(of_mass > 0 && exact > 0) by (nonlinear_arith)
        requires
            of_mass == mass * u,
            exact == value(pull) * value(speed),
            mass > 0,
            u > 0,
            value(pull) > 0,
            value(speed) > 0,
    ;
    lemma_power_mass(exact, per, of_mass);
    if exact <= 298 * of_mass {
        let xm: int = x * m;
        let xmass: int = x * mass;
        assert(0x2_0000_0000_0000 * gap(xm, exact) <= exact);
        assert(x > 0) by (nonlinear_arith)
            requires
                xm == x * m,
                xm > 0,
                m > 0,
        ;
        assert(0x20_0000_0000_0000 * gap(xm, xmass) <= xmass) by (nonlinear_arith)
            requires
                0x20_0000_0000_0000 * gap(m, mass) <= mass,
                xm == x * m,
                xmass == x * mass,
                x > 0,
        ;
        lemma_power_total(xm, xmass, exact);
    }
}

/// A rounded mass makes no difference to which side of a limit is meant.
proof fn lemma_power_mass(exact: int, per: int, of_mass: int)
    requires
        of_mass > 0,
        0x20_0000_0000_0000 * gap(per, of_mass) <= of_mass,
    ensures
        exact <= 298 * of_mass ==> exact <= 299 * per,
        exact >= 302 * of_mass ==> exact >= 301 * per,
{
}

/// Two small errors make a small one.
proof fn lemma_power_total(xm: int, xmass: int, exact: int)
    requires
        exact > 0,
        0x2_0000_0000_0000 * gap(xm, exact) <= exact,
        0x20_0000_0000_0000 * gap(xm, xmass) <= xmass,
    ensures
        0x1_0000_0000_0000 * gap(xmass, exact) <= exact,
{
}

/// Whether a field is none of the derived ones.
spec fn not_derived(key: Seq<char>) -> bool {
    key != "sep"@ && key != "fuel_flow"@ && key != "fuel_consume_calc"@ && key != "sep_thrust"@
        && key != "crit_g_pos"@
}

/// The names of the readings differ from those of the derived fields.
proof fn lemma_field_names()
    ensures
        not_derived("thrust_1_kgs"@),
        not_derived("thrust_2_kgs"@),
        not_derived("thrust_3_kgs"@),
        not_derived("thrust_4_kgs"@),
        not_derived("fm_empty_mass_kg"@),
        not_derived("mfuel_kg"@),
        not_derived("fm_crit_wing_overload_pos"@),
        "sep_thrust"@ != "crit_g_pos"@,
        "sep_thrust"@ != "fm_crit_wing_overload_pos"@,
{
    reveal_strlit("thrust_1_kgs");
    reveal_strlit("thrust_2_kgs");
    reveal_strlit("thrust_3_kgs");
    reveal_strlit("thrust_4_kgs");
    reveal_strlit("fm_empty_mass_kg");
    reveal_strlit("mfuel_kg");
    reveal_strlit("fm_crit_wing_overload_pos");
    reveal_strlit("sep");
    reveal_strlit("fuel_flow");
    reveal_strlit("fuel_consume_calc");
    reveal_strlit("sep_thrust");
    reveal_strlit("crit_g_pos");
    assert("sep_thrust"@[0] == 's' && "crit_g_pos"@[0] == 'c');
    assert("thrust_1_kgs"@.len() == 12 && "thrust_2_kgs"@.len() == 12 && "thrust_3_kgs"@.len() == 12
        && "thrust_4_kgs"@.len() == 12 && "fm_empty_mass_kg"@.len() == 16 && "mfuel_kg"@.len() == 8
        && "fm_crit_wing_overload_pos"@.len() == 25);
    assert("sep"@.len() == 3 && "fuel_flow"@.len() == 9 && "fuel_consume_calc"@.len() == 17
        && "sep_thrust"@.len() == 10 && "crit_g_pos"@.len() == 10);
}

/// Where the mass and the largest load of the wing are known the frame holds the
/// largest acceleration: twice the load over the mass times 9.81, to 40 bits.
pub proof fn lemma_largest_acceleration(
    frame: Map<Seq<char>, Num>,
    f: FuelState,
    h: Seq<(u64, Num)>,
    now: u64,
)
    requires
        frame.contains_key("vy_ms"@),
        frame.contains_key("tas_kmh"@),
        frame.contains_key("fm_empty_mass_kg"@),
        frame.contains_key("mfuel_kg"@),
        frame.contains_key("fm_crit_wing_overload_pos"@),
        is_mass(frame["fm_empty_mass_kg"@].bits),
        is_mass(frame["mfuel_kg"@].bits),
        value(frame["fm_empty_mass_kg"@].bits) >= 101 * unit(),
        finite(frame["fm_crit_wing_overload_pos"@].bits),
        unit() <= value(frame["fm_crit_wing_overload_pos"@].bits) <= times_unit(0x1_0000_0000),
    ensures
        ({
            let after: Map<Seq<char>, Num> = derived(frame, f, h, now);
            let mass: int = value(frame["fm_empty_mass_kg"@].bits) + value(
                frame["mfuel_kg"@].bits,
            );
            let exact: int = 200 * value(frame["fm_crit_wing_overload_pos"@].bits) * unit();
            &&& after.contains_key("crit_g_pos"@)
            &&& finite(after["crit_g_pos"@].bits)
            &&& 0x100_0000_0000 * gap(981 * (value(after["crit_g_pos"@].bits) * mass), exact)
                <= exact
        }),
{
    let u: int = unit();
    let after: Map<Seq<char>, Num> = derived(frame, f, h, now);
    let eb: u64 = frame["fm_empty_mass_kg"@].bits;
    let kb: u64 = frame["mfuel_kg"@].bits;
    let lb: u64 = frame["fm_crit_wing_overload_pos"@].bits;
    let mass: int = value(eb) + value(kb);
    let l: int = value(lb);
    let g: int = value(GRAVITY);
    lemma_powers();
    lemma_unit_is_large();
    lemma_room(u);
    lemma_gravity();
    lemma_small_constants();
    lemma_zero_magnitude();
    let big: int = pow2(826) as int;
    let uu: int = u * u;
    assert(uu >= 0x100_0000_0000_0000_0000_0000_0000_0000 * u) by (nonlinear_arith)
        requires
            uu == u * u,
            u >= 0x100_0000_0000_0000_0000_0000_0000_0000,
    ;
    assert(0x1000_0000_0000 * u < u * big) by (nonlinear_arith)
        requires
            u > 0,
            big > 0x1_0000_0000_0000_0000,
    ;
    assert(0x1000_0000_0000 * uu < u * (u * big)) by (nonlinear_arith)
        requires
            uu == u * u,
            u > 0,
            big > 0x1_0000_0000_0000_0000,
    ;
    lemma_sum_close(eb, kb);
    let wb: u64 = sum(eb, kb);
    let m: int = value(wb);
    assert(0x20_0000_0000_0000 * gap(m, mass) <= mass);
    lemma_order_is_value_order(HUNDRED, wb);
    lemma_order_is_value_order(0, lb);
    // twice the load
    let tl: int = (2 * u) * l;
    assert(2 * uu <= tl <= 0x2_0000_0000 * uu) by (nonlinear_arith)
        requires
            tl == (2 * u) * l,
            u <= l <= 0x1_0000_0000 * u,
            uu == u * u,
            u > 0,
    ;
    lemma_product_close(TWO, lb);
    let ab: u64 = product(TWO, lb);
    let a: int = value(ab);
    let au: int = a * u;
    assert(0x20_0000_0000_0000 * gap(au, tl) <= tl + 0x10_0000_0000_0000 * u);
    assert(0x8_0000_0000_0000 * gap(au, tl) <= tl);
    // the weight
    let mg: int = m * g;
    assert(900 * uu <= mg <= 0x4_0000_0000 * uu) by (nonlinear_arith)
        requires
            mg == m * g,
            100 * u <= m <= 0x2800_0000 * u,
            9 * u < g < 10 * u,
            uu == u * u,
            u > 0,
    ;
    lemma_product_close(wb, GRAVITY);
    let bb: u64 = product(wb, GRAVITY);
    let b: int = value(bb);
    let bu: int = b * u;
    assert(0x20_0000_0000_0000 * gap(bu, mg) <= mg + 0x10_0000_0000_0000 * u);
    assert(0x8_0000_0000_0000 * gap(bu, mg) <= mg);
    assert(800 * u <= b <= 0x8_0000_0000 * u) by (nonlinear_arith)
        requires
            800 * uu <= b * u <= 0x8_0000_0000 * uu,
            uu == u * u,
            u > 0,
    ;
    assert(u <= a <= 0x4_0000_0000 * u) by (nonlinear_arith)
        requires
            uu <= a * u <= 0x4_0000_0000 * uu,
            uu == u * u,
            u > 0,
    ;
    // the quotient
    assert(au < b * (u * big)) by (nonlinear_arith)
        requires
            au <= 0x4_0000_0000 * uu,
            uu == u * u,
            b >= 800 * u,
            u > 0,
            big > 0x1_0000_0000_0000_0000,
    ;
    lemma_quotient_close(ab, bb);
    let xb: u64 = quotient(ab, bb);
    let x: int = value(xb);
    let xbv: int = x * b;
    assert(0x20_0000_0000_0000 * gap(xbv, au) <= au + 0x10_0000_0000_0000 * b);
    assert(0x8_0000_0000_0000 * gap(xbv, au) <= au);
    let fuelled = with_fuel(frame, f);
    lemma_field_names();
    crate::derived::lemma_names();
    assert(after.contains_key("crit_g_pos"@) && after["crit_g_pos"@].bits == xb);
    assert(x > 0) by (nonlinear_arith)
        requires
            xbv == x * b,
            xbv > 0,
            b > 0,
    ;
    lemma_acceleration_error(x, m, mass, g, b, l, u, a);
}

/// The errors of the steps add up to little.
proof fn lemma_acceleration_error(
    x: int,
    m: int,
    mass: int,
    g: int,
    b: int,
    l: int,
    u: int,
    a: int,
)
    requires
        u > 0,
        x > 0,
        l > 0,
        m > 0,
        mass > 0,
        g > 0,
        b > 0,
        a > 0,
        0x20_0000_0000_0000 * gap(m, mass) <= mass,
        0x8_0000_0000_0000 * gap(a * u, (2 * u) * l) <= (2 * u) * l,
        0x8_0000_0000_0000 * gap(b * u, m * g) <= m * g,
        0x8_0000_0000_0000 * gap(x * b, a * u) <= a * u,
        0x800_0000_0000 * gap(981 * u, 100 * g) <= u,
    ensures
        0x100_0000_0000 * gap(981 * (x * mass), 200 * l * u) <= 200 * l * u,
{
    let t: int = (2 * u) * l;
    let lu: int = l * u;
    assert(t == 2 * lu) by (nonlinear_arith)
        requires
            t == (2 * u) * l,
            lu == l * u,
    ;
    assert(lu > 0) by (nonlinear_arith)
        requires
            lu == l * u,
            l > 0,
            u > 0,
    ;
    let xb: int = x * b;
    let au: int = a * u;
    // x * b is near 2 * l * u
    assert(0x2_0000_0000_0000 * gap(xb, t) <= t);
    // all times u: x * m * g is near x * b * u
    let xbu: int = xb * u;
    let xmg: int = x * (m * g);
    assert(0x8_0000_0000_0000 * gap(xbu, xmg) <= xmg) by (nonlinear_arith)
        requires
            0x8_0000_0000_0000 * gap(b * u, m * g) <= m * g,
            xbu == (x * b) * u,
            xmg == x * (m * g),
            x > 0,
    ;
    let tu: int = t * u;
    assert(0x2_0000_0000_0000 * gap(xbu, tu) <= tu) by (nonlinear_arith)
        requires
            0x2_0000_0000_0000 * gap(xb, t) <= t,
            xbu == xb * u,
            tu == t * u,
            u > 0,
    ;
    let xg: int = x * g;
    let xgm: int = xg * mass;
    assert(xmg == xg * m) by (nonlinear_arith)
        requires
            xmg == x * (m * g),
            xg == x * g,
    ;
    assert(xg > 0) by (nonlinear_arith)
        requires
            xg == x * g,
            x > 0,
            g > 0,
    ;
    assert(0x20_0000_0000_0000 * gap(xmg, xgm) <= xgm) by (nonlinear_arith)
        requires
            0x20_0000_0000_0000 * gap(m, mass) <= mass,
            xmg == xg * m,
            xgm == xg * mass,
            xg > 0,
    ;
    // 100 * g is near 981 * u
    let xm: int = x * mass;
    assert(xm > 0) by (nonlinear_arith)
        requires
            xm == x * mass,
            x > 0,
            mass > 0,
    ;
    let xmu: int = xm * u;
    assert(xgm == xm * g) by (nonlinear_arith)
        requires
            xgm == (x * g) * mass,
            xm == x * mass,
    ;
    assert(0x800_0000_0000 * gap(981 * xmu, 100 * xgm) <= xmu) by (nonlinear_arith)
        requires
            0x800_0000_0000 * gap(981 * u, 100 * g) <= u,
            xmu == xm * u,
            xgm == xm * g,
            xm > 0,
    ;
    assert(xmu > 0) by (nonlinear_arith)
        requires
            xmu == xm * u,
            xm > 0,
            u > 0,
    ;
    lemma_acceleration_total(xmu, xgm, xmg, xbu, tu);
    assert(tu == 2 * (lu * u)) by (nonlinear_arith)
        requires
            tu == t * u,
            t == 2 * lu,
    ;
    let d: int = 981 * xm - 200 * lu;
    assert(981 * xmu - 100 * tu == d * u) by (nonlinear_arith)
        requires
            xmu == xm * u,
            tu == 2 * (lu * u),
            d == 981 * xm - 200 * lu,
    ;
    assert(size(d * u) == size(d) * u) by (nonlinear_arith)
        requires
            u > 0,
    ;
    assert(0x100_0000_0000 * size(d) <= 200 * lu) by (nonlinear_arith)
        requires
            0x100_0000_0000 * (size(d) * u) <= 100 * (2 * (lu * u)),
            u > 0,
    ;
    assert(200 * l * u == 200 * lu) by (nonlinear_arith)
        requires
            lu == l * u,
    ;
}

/// Small errors make a small one.
proof fn lemma_acceleration_total(xmu: int, xgm: int, xmg: int, xbu: int, tu: int)
    requires
        xmu > 0,
        0x800_0000_0000 * gap(981 * xmu, 100 * xgm) <= xmu,
        0x20_0000_0000_0000 * gap(xmg, xgm) <= xgm,
        0x8_0000_0000_0000 * gap(xbu, xmg) <= xmg,
        0x2_0000_0000_0000 * gap(xbu, tu) <= tu,
    ensures
        0x100_0000_0000 * gap(981 * xmu, 100 * tu) <= 100 * tu,
{
}

/// The fuel is what a frame says of "mfuel_kg": a frame without it leaves the
/// state alone, and one with another number of kilograms is remembered with its
/// time. The computed consumption changes only where an earlier reading is known.
pub proof fn lemma_fuel_is_the_frames(f: FuelState, frame: Map<Seq<char>, Num>, now: u64)
    ensures
        ({
            let after: FuelState = fuel_of_frame(f, frame, now);
            let kg: Num = frame["mfuel_kg"@];
            let known: bool = f.kg is Some && same(f.kg->0.bits, kg.bits);
            &&& !frame.contains_key("mfuel_kg"@) ==> after == f
            &&& frame.contains_key("mfuel_kg"@) && known ==> after == f
            &&& frame.contains_key("mfuel_kg"@) && !known ==> after.kg == Some(kg) && after.time
                == Some(now)
            &&& frame.contains_key("mfuel_kg"@) && !known && (f.kg is None || f.time is None)
                ==> after.ema == f.ema
            &&& frame.contains_key("mfuel_kg"@) ==> after == fuel_after(f, kg, now)
        }),
{
}

/// The speed that a moving frame has is the last one afterwards, and a frame that
/// does not move leaves it alone.
pub proof fn lemma_last_speed(last: Option<Num>, frame: Map<Seq<char>, Num>)
    ensures
        ({
            let after: Option<Num> = pushed_of_frame(last, frame);
            let moving: bool = frame.contains_key("vy_ms"@) && frame.contains_key("tas_kmh"@);
            &&& !moving ==> after == last
            &&& moving ==> after is Some
            &&& moving && (last is None || !same(last->0.bits, speed_of(frame)))
                ==> after->0.bits == speed_of(frame)
            &&& moving && last is Some && same(last->0.bits, speed_of(frame)) ==> after == last
        }),
{
}

} // verus!
