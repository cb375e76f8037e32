//! Fields computed from the readings of the game over time.
use vstd::prelude::*;

use crate::arith::{difference, product, quotient, seconds, sum, whole};
use crate::num::{absolute, clamped, finite, less, nan, same, Num};
use crate::table::RawFrame;

verus! {

/// 0.05
pub const SHORT_SPAN: u64 = 0x3fa9_9999_9999_999a;

/// 0.25
pub const SMOOTHING: u64 = 0x3fd0_0000_0000_0000;

/// 1
pub const ONE: u64 = 0x3ff0_0000_0000_0000;

/// 2
pub const TWO: u64 = 0x4000_0000_0000_0000;

/// 3.6, the kilometres per hour in a metre per second
pub const KMH_PER_MS: u64 = 0x400c_cccc_cccc_cccd;

/// 9.81, the acceleration of gravity
pub const GRAVITY: u64 = 0x4023_9eb8_51eb_851f;

/// 100
pub const HUNDRED: u64 = 0x4059_0000_0000_0000;

/// 300
pub const SEP_LIMIT: u64 = 0x4072_c000_0000_0000;

/// -300
pub const SEP_FLOOR: u64 = 0xc072_c000_0000_0000;

/// 3600
pub const HOUR: u64 = 0x40ac_2000_0000_0000;

/// 50000, a consumption that no aircraft reaches
pub const ABSURD_RATE: u64 = 0x40e8_6a00_0000_0000;

/// 1e-12
pub const FLAT: u64 = 0x3d71_9799_812d_ea11;

/// The most samples that are kept.
pub const SAMPLES: usize = 8;

/// The running state of the fuel consumption.
#[derive(Clone, Copy, Debug)]
pub struct FuelState {
    /// The last fuel reading that differed from the one before it.
    pub kg: Option<Num>,
    /// When it was read, in nanoseconds.
    pub time: Option<u64>,
    /// The smoothed consumption in kilograms per hour.
    pub ema: Option<Num>,
}

/// The running state of the fields that depend on time. Times are in
/// nanoseconds of one clock.
pub struct DerivedState {
    /// Samples of time and speed in metres per second, newest last.
    pub tas_history: Vec<(u64, Num)>,
    /// The last speed that was sampled.
    pub last_tas_pushed: Option<Num>,
    /// The fuel consumption.
    pub fuel: FuelState,
}

/// The seconds from `then` to `now`, or zero where `now` comes first.
pub open spec fn elapsed(now: u64, then: u64) -> u64 {
    seconds(if now >= then { (now - then) as u64 } else { 0 })
}

/// `a <= b`.
pub open spec fn at_most(a: u64, b: u64) -> bool {
    less(a, b) || same(a, b)
}

/// The smoothed consumption once a `rate` was measured.
pub open spec fn smoothed(ema: Option<Num>, rate: u64) -> Num {
    match ema {
        Some(e) => Num { bits: sum(e.bits, product(SMOOTHING, difference(rate, e.bits))) },
        None => Num { bits: rate },
    }
}

/// The smoothed consumption after the fuel went from `before` to `kg` in `dt`
/// seconds.
pub open spec fn consumption(ema: Option<Num>, before: Num, kg: Num, dt: u64) -> Option<Num> {
    let burnt: u64 = difference(before.bits, kg.bits);
    if at_most(SHORT_SPAN, dt) && less(0, burnt) {
        let rate: u64 = product(quotient(burnt, dt), HOUR);
        if less(rate, ABSURD_RATE) {
            Some(smoothed(ema, rate))
        } else {
            ema
        }
    } else if at_most(burnt, 0) {
        None
    } else {
        ema
    }
}

/// The fuel state after the reading `kg`.
pub open spec fn fuel_after(f: FuelState, kg: Num, now: u64) -> FuelState {
    let changed: bool = match f.kg {
        Some(before) => !same(before.bits, kg.bits),
        None => true,
    };
    if !changed {
        f
    } else {
        FuelState {
            kg: Some(kg),
            time: Some(now),
            ema: match (f.kg, f.time) {
                (Some(before), Some(then)) => consumption(f.ema, before, kg, elapsed(now, then)),
                _ => f.ema,
            },
        }
    }
}

/// The fuel state after a frame.
pub open spec fn fuel_of_frame(f: FuelState, frame: Map<Seq<char>, Num>, now: u64) -> FuelState {
    if frame.contains_key("mfuel_kg"@) {
        fuel_after(f, frame["mfuel_kg"@], now)
    } else {
        f
    }
}

/// `frame` with the computed consumption, where the game reports none.
pub open spec fn with_calculated(frame: Map<Seq<char>, Num>, ema: Option<Num>) -> Map<
    Seq<char>,
    Num,
> {
    match ema {
        Some(rate) => if frame.contains_key("fuel_consume"@) {
            frame
        } else {
            frame.insert("fuel_consume_calc"@, rate)
        },
        None => frame,
    }
}

/// `frame` with the fuel flow: the reported consumption, or else the computed
/// one.
pub open spec fn with_flow(frame: Map<Seq<char>, Num>, ema: Option<Num>) -> Map<Seq<char>, Num> {
    if frame.contains_key("fuel_consume"@) {
        frame.insert("fuel_flow"@, frame["fuel_consume"@])
    } else {
        match ema {
            Some(rate) => frame.insert("fuel_flow"@, rate),
            None => frame,
        }
    }
}

/// `h` without the samples at its front that are more than two seconds old;
/// the newest stays.
pub open spec fn fresh(h: Seq<(u64, Num)>, now: u64) -> Seq<(u64, Num)>
    decreases h.len(),
{
    if h.len() > 1 && less(TWO, elapsed(now, h[0].0)) {
        fresh(h.skip(1), now)
    } else {
        h
    }
}

/// The newest samples of `h`, as many as are kept.
pub open spec fn newest(h: Seq<(u64, Num)>) -> Seq<(u64, Num)> {
    if h.len() > SAMPLES {
        h.skip(h.len() - SAMPLES)
    } else {
        h
    }
}

/// The samples after the speed `v` was read.
pub open spec fn history_after(
    h: Seq<(u64, Num)>,
    last: Option<Num>,
    now: u64,
    v: Num,
) -> Seq<(u64, Num)> {
    let changed: bool = match last {
        Some(before) => !same(before.bits, v.bits),
        None => true,
    };
    if changed {
        fresh(newest(h.push((now, v))), now)
    } else {
        h
    }
}

/// The sums of a linear regression.
pub struct Sums {
    pub t: u64,
    pub v: u64,
    pub tt: u64,
    pub tv: u64,
}

/// The sums over the samples `h`, with times counted from `start`.
pub open spec fn sums(h: Seq<(u64, Num)>, start: u64) -> Sums
    decreases h.len(),
{
    if h.len() == 0 {
        Sums { t: 0, v: 0, tt: 0, tv: 0 }
    } else {
        let s: Sums = sums(h.drop_last(), start);
        let t: u64 = elapsed(h.last().0, start);
        let v: u64 = h.last().1.bits;
        Sums {
            t: sum(s.t, t),
            v: sum(s.v, v),
            tt: sum(s.tt, product(t, t)),
            tv: sum(s.tv, product(t, v)),
        }
    }
}

/// The slope of the least-squares line through the samples, where there are
/// two of them over a span that is not too short.
pub open spec fn slope(h: Seq<(u64, Num)>, now: u64) -> Option<u64> {
    if h.len() >= 2 && at_most(SHORT_SPAN, elapsed(now, h[0].0)) {
        let s: Sums = sums(h, h[0].0);
        let n: u64 = whole(h.len() as int);
        let denominator: u64 = difference(product(n, s.tt), product(s.t, s.t));
        if less(FLAT, absolute(denominator)) {
            Some(quotient(difference(product(n, s.tv), product(s.t, s.v)), denominator))
        } else {
            None
        }
    } else {
        None
    }
}

/// The specific excess power: the climb rate and the share of a change of speed,
/// or the climb rate alone where that share is not known or is no number, kept
/// within its limits.
pub open spec fn excess_power(vy: u64, speed: u64, acceleration: Option<u64>) -> u64 {
    let raw: u64 = match acceleration {
        Some(a) => sum(vy, product(quotient(speed, GRAVITY), a)),
        None => vy,
    };
    clamped(
        if nan(raw) {
            vy
        } else {
            raw
        },
        SEP_FLOOR,
        SEP_LIMIT,
    )
}

/// `total` with the value at `key` added, where there is one.
pub open spec fn adding(frame: Map<Seq<char>, Num>, key: Seq<char>, total: u64) -> u64 {
    if frame.contains_key(key) {
        sum(total, frame[key].bits)
    } else {
        total
    }
}

/// The thrust of all engines.
pub open spec fn thrust(frame: Map<Seq<char>, Num>) -> u64 {
    adding(
        frame,
        "thrust_4_kgs"@,
        adding(
            frame,
            "thrust_3_kgs"@,
            adding(frame, "thrust_2_kgs"@, adding(frame, "thrust_1_kgs"@, 0)),
        ),
    )
}

/// `frame` with the limits that follow from the weight `w`.
pub open spec fn with_weight(frame: Map<Seq<char>, Num>, speed: u64, w: u64) -> Map<
    Seq<char>,
    Num,
> {
    let pull: u64 = thrust(frame);
    let moving: Map<Seq<char>, Num> = if less(HUNDRED, w) && less(0, pull) && less(ONE, speed) {
        frame.insert(
            "sep_thrust"@,
            Num { bits: clamped(quotient(product(pull, speed), w), SEP_FLOOR, SEP_LIMIT) },
        )
    } else {
        frame
    };
    if moving.contains_key("fm_crit_wing_overload_pos"@) {
        let load: u64 = moving["fm_crit_wing_overload_pos"@].bits;
        if less(HUNDRED, w) && less(0, load) {
            moving.insert(
                "crit_g_pos"@,
                Num { bits: quotient(product(TWO, load), product(w, GRAVITY)) },
            )
        } else {
            moving
        }
    } else {
        moving
    }
}

/// `frame` with the excess power and what follows from the masses.
pub open spec fn with_motion(
    frame: Map<Seq<char>, Num>,
    vy: u64,
    speed: u64,
    acceleration: Option<u64>,
) -> Map<Seq<char>, Num> {
    let lifted: Map<Seq<char>, Num> = frame.insert(
        "sep"@,
        Num { bits: excess_power(vy, speed, acceleration) },
    );
    if lifted.contains_key("fm_empty_mass_kg"@) && lifted.contains_key("mfuel_kg"@) {
        with_weight(
            lifted,
            speed,
            sum(lifted["fm_empty_mass_kg"@].bits, lifted["mfuel_kg"@].bits),
        )
    } else {
        lifted
    }
}

/// Whether the frame holds what the excess power is computed from.
pub open spec fn moves(frame: Map<Seq<char>, Num>) -> bool {
    frame.contains_key("vy_ms"@) && frame.contains_key("tas_kmh"@)
}

/// The speed of the frame in metres per second.
pub open spec fn speed_of(frame: Map<Seq<char>, Num>) -> u64 {
    quotient(frame["tas_kmh"@].bits, KMH_PER_MS)
}

/// `frame` with the fields of the fuel.
pub open spec fn with_fuel(frame: Map<Seq<char>, Num>, f: FuelState) -> Map<Seq<char>, Num> {
    with_flow(with_calculated(frame, f.ema), f.ema)
}

/// The samples after a frame.
pub open spec fn history_of_frame(
    h: Seq<(u64, Num)>,
    last: Option<Num>,
    frame: Map<Seq<char>, Num>,
    now: u64,
) -> Seq<(u64, Num)> {
    if moves(frame) {
        history_after(h, last, now, Num { bits: speed_of(frame) })
    } else {
        h
    }
}

/// The last sampled speed after a frame.
pub open spec fn pushed_of_frame(
    last: Option<Num>,
    frame: Map<Seq<char>, Num>,
) -> Option<Num> {
    if moves(frame) {
        match last {
            Some(before) => if same(before.bits, speed_of(frame)) {
                last
            } else {
                Some(Num { bits: speed_of(frame) })
            },
            None => Some(Num { bits: speed_of(frame) }),
        }
    } else {
        last
    }
}

/// The frame with every derived field, once the fuel state `f` and the samples
/// `h` have taken it in.
pub open spec fn derived(
    frame: Map<Seq<char>, Num>,
    f: FuelState,
    h: Seq<(u64, Num)>,
    now: u64,
) -> Map<Seq<char>, Num> {
    let fuelled: Map<Seq<char>, Num> = with_fuel(frame, f);
    if moves(fuelled) {
        with_motion(fuelled, fuelled["vy_ms"@].bits, speed_of(fuelled), slope(h, now))
    } else {
        fuelled
    }
}

/// The seconds from `then` to `now`.
fn span(now: u64, then: u64) -> (r: Num)
    ensures
        r.bits == elapsed(now, then),
{
    if now >= then {
        Num::of_nanos(now - then)
    } else {
        Num::of_nanos(0)
    }
}

impl FuelState {
    /// Takes in the fuel reading `kg`.
    pub fn read(&mut self, kg: Num, now: u64)
        ensures
            *final(self) == fuel_after(*old(self), kg, now),
    {
        let changed: bool = match self.kg {
            Some(before) => !before.equals(kg),
            None => true,
        };
        if changed {
            if let (Some(before), Some(then)) = (self.kg, self.time) {
                let dt = span(now, then);
                let burnt = before.minus(kg);
                let zero = Num { bits: 0 };
                if (Num { bits: SHORT_SPAN }).le(dt) && zero.lt(burnt) {
                    let rate = burnt.over(dt).times(Num { bits: HOUR });
                    if rate.lt(Num { bits: ABSURD_RATE }) {
                        let next = match self.ema {
                            Some(e) => e.plus((Num { bits: SMOOTHING }).times(rate.minus(e))),
                            None => rate,
                        };
                        self.ema = Some(next);
                    }
                } else if burnt.le(zero) {
                    self.ema = None;
                }
            }
            self.kg = Some(kg);
            self.time = Some(now);
        }
    }
}

/// Drops the oldest samples beyond those that are kept.
fn keep_newest(h: &mut Vec<(u64, Num)>)
    ensures
        final(h)@ == newest(old(h)@),
{
    let ghost start = h@;
    let ghost mut k: int = 0;
    proof {
        assert(start.skip(0) =~= start);
    }
    while h.len() > SAMPLES
        invariant
            0 <= k <= start.len(),
            h@ == start.skip(k),
            start.len() <= SAMPLES ==> k == 0,
            start.len() > SAMPLES ==> k <= start.len() - SAMPLES,
        decreases h.len(),
    {
        let _ = h.remove(0);
        proof {
            k = k + 1;
            assert(h@ =~= start.skip(k));
        }
    }
}

/// Whether a sample of `then` is too old to be kept.
fn is_stale(now: u64, then: u64) -> (r: bool)
    ensures
        r == less(TWO, elapsed(now, then)),
{
    let two = Num { bits: TWO };
    two.lt(span(now, then))
}

/// Drops the samples that are too old.
fn keep_fresh(h: &mut Vec<(u64, Num)>, now: u64)
    ensures
        final(h)@ == fresh(old(h)@, now),
{
    let ghost start = h@;
    while h.len() > 1 && is_stale(now, h[0].0)
        invariant
            fresh(h@, now) == fresh(start, now),
        decreases h.len(),
    {
        let ghost before = h@;
        let _ = h.remove(0);
        proof {
            assert(h@ =~= before.skip(1));
        }
    }
}

/// The slope of the least-squares line through the samples.
fn slope_of(h: &Vec<(u64, Num)>, now: u64) -> (r: Option<Num>)
    ensures
        match slope(h@, now) {
            Some(bits) => r == Some(Num { bits }),
            None => r is None,
        },
{
    if h.len() < 2 {
        return None;
    }
    let start: u64 = h[0].0;
    if !(Num { bits: SHORT_SPAN }).le(span(now, start)) {
        return None;
    }
    let n = Num::of_u64(h.len() as u64);
    let mut t_sum = Num { bits: 0 };
    let mut v_sum = Num { bits: 0 };
    let mut tt_sum = Num { bits: 0 };
    let mut tv_sum = Num { bits: 0 };
    let mut i: usize = 0;
    while i < h.len()
        invariant
            i <= h.len(),
            sums(h@.take(i as int), start) == (Sums {
                t: t_sum.bits,
                v: v_sum.bits,
                tt: tt_sum.bits,
                tv: tv_sum.bits,
            }),
        decreases h.len() - i,
    {
        let t = span(h[i].0, start);
        let v = h[i].1;
        proof {
            assert(h@.take(i as int + 1).drop_last() =~= h@.take(i as int));
        }
        t_sum = t_sum.plus(t);
        v_sum = v_sum.plus(v);
        tt_sum = tt_sum.plus(t.times(t));
        tv_sum = tv_sum.plus(t.times(v));
        i = i + 1;
    }
    proof {
        assert(h@.take(i as int) =~= h@);
    }
    let denominator = n.times(tt_sum).minus(t_sum.times(t_sum));
    if (Num { bits: FLAT }).lt(denominator.abs()) {
        Some(n.times(tv_sum).minus(t_sum.times(v_sum)).over(denominator))
    } else {
        None
    }
}

/// `total` with the value at `key` added, where there is one.
fn add_field(frame: &RawFrame, key: &str, total: Num) -> (r: Num)
    ensures
        r.bits == adding(frame@, key@, total.bits),
{
    match frame.number(key) {
        Some(v) => total.plus(v),
        None => total,
    }
}

/// Adds what follows from the weight.
fn inject_weight(frame: &mut RawFrame, speed: Num, weight: Num)
    ensures
        final(frame)@ == with_weight(old(frame)@, speed.bits, weight.bits),
{
    let zero = Num { bits: 0 };
    let one = add_field(frame, "thrust_1_kgs", zero);
    let two = add_field(frame, "thrust_2_kgs", one);
    let three = add_field(frame, "thrust_3_kgs", two);
    let pull = add_field(frame, "thrust_4_kgs", three);
    let heavy: bool = (Num { bits: HUNDRED }).lt(weight);
    if heavy && zero.lt(pull) && (Num { bits: ONE }).lt(speed) {
        let rise = pull.times(speed).over(weight).clamp(
            Num { bits: SEP_FLOOR },
            Num { bits: SEP_LIMIT },
        );
        frame.put("sep_thrust", rise);
    }
    if let Some(load) = frame.number("fm_crit_wing_overload_pos") {
        if heavy && zero.lt(load) {
            let g = (Num { bits: TWO }).times(load).over(weight.times(Num { bits: GRAVITY }));
            frame.put("crit_g_pos", g);
        }
    }
}

impl DerivedState {
    /// A state that has seen no frame.
    pub fn new() -> (r: Self)
        ensures
            r.tas_history@ == Seq::<(u64, Num)>::empty(),
            r.last_tas_pushed is None,
            r.fuel == (FuelState { kg: None, time: None, ema: None }),
    {
        DerivedState {
            tas_history: Vec::new(),
            last_tas_pushed: None,
            fuel: FuelState { kg: None, time: None, ema: None },
        }
    }
}

/// Adds the fields that depend on time to `frame`: the fuel flow, the specific
/// excess power and the limits that follow from the masses. `now` is the time
/// of the frame in nanoseconds.
pub fn inject_derived_fields(frame: &mut RawFrame, state: &mut DerivedState, now: u64)
    ensures
        final(state).fuel == fuel_of_frame(old(state).fuel, old(frame)@, now),
        final(state).tas_history@ == history_of_frame(
            old(state).tas_history@,
            old(state).last_tas_pushed,
            with_fuel(old(frame)@, final(state).fuel),
            now,
        ),
        final(state).last_tas_pushed == pushed_of_frame(
            old(state).last_tas_pushed,
            with_fuel(old(frame)@, final(state).fuel),
        ),
        final(frame)@ == derived(
            old(frame)@,
            final(state).fuel,
            final(state).tas_history@,
            now,
        ),
{
    if let Some(kg) = frame.number("mfuel_kg") {
        state.fuel.read(kg, now);
    }
    if !frame.contains_key("fuel_consume") {
        if let Some(rate) = state.fuel.ema {
            frame.put("fuel_consume_calc", rate);
        }
    }
    let flow: Option<Num> = match frame.number("fuel_consume") {
        Some(rate) => Some(rate),
        None => state.fuel.ema,
    };
    if let Some(rate) = flow {
        frame.put("fuel_flow", rate);
    }
    proof {
        reveal_strlit("fuel_consume");
        reveal_strlit("fuel_consume_calc");
        assert(frame@ == with_fuel(old(frame)@, state.fuel));
    }
    let (vy, kmh) = match (frame.number("vy_ms"), frame.number("tas_kmh")) {
        (Some(vy), Some(kmh)) => (vy, kmh),
        _ => {
            return;
        },
    };
    let speed = kmh.over(Num { bits: KMH_PER_MS });
    let changed: bool = match state.last_tas_pushed {
        Some(before) => !before.equals(speed),
        None => true,
    };
    if changed {
        state.tas_history.push((now, speed));
        state.last_tas_pushed = Some(speed);
        keep_newest(&mut state.tas_history);
        keep_fresh(&mut state.tas_history, now);
    }
    let raw = match slope_of(&state.tas_history, now) {
        Some(a) => vy.plus(speed.over(Num { bits: GRAVITY }).times(a)),
        None => vy,
    };
    let known = if raw.is_nan() {
        vy
    } else {
        raw
    };
    frame.put("sep", known.clamp(Num { bits: SEP_FLOOR }, Num { bits: SEP_LIMIT }));
    if let (Some(empty), Some(kg)) = (frame.number("fm_empty_mass_kg"), frame.number("mfuel_kg")) {
        inject_weight(frame, speed, empty.plus(kg));
    }
}

/// The names of the derived fields differ from each other and from the names
/// of the readings that they are computed from.
pub proof fn lemma_names()
    ensures
        "fuel_flow"@ != "fuel_consume_calc"@,
        "fuel_flow"@ != "fuel_consume"@,
        "fuel_consume_calc"@ != "fuel_consume"@,
        "sep"@ != "fuel_flow"@,
        "sep"@ != "fuel_consume_calc"@,
        "sep"@ != "fuel_consume"@,
        "sep_thrust"@ != "fuel_flow"@,
        "sep_thrust"@ != "fuel_consume_calc"@,
        "sep_thrust"@ != "sep"@,
        "crit_g_pos"@ != "fuel_flow"@,
        "crit_g_pos"@ != "fuel_consume_calc"@,
        "crit_g_pos"@ != "sep"@,
        "vy_ms"@ != "fuel_flow"@,
        "vy_ms"@ != "fuel_consume_calc"@,
        "tas_kmh"@ != "fuel_flow"@,
        "tas_kmh"@ != "fuel_consume_calc"@,
{
    reveal_strlit("fuel_flow");
    reveal_strlit("fuel_consume_calc");
    reveal_strlit("fuel_consume");
    reveal_strlit("sep");
    reveal_strlit("sep_thrust");
    reveal_strlit("crit_g_pos");
    reveal_strlit("vy_ms");
    reveal_strlit("tas_kmh");
    assert("fuel_flow"@.len() == 9 && "fuel_consume_calc"@.len() == 17 && "fuel_consume"@.len()
        == 12 && "sep"@.len() == 3 && "sep_thrust"@.len() == 10 && "crit_g_pos"@.len() == 10
        && "vy_ms"@.len() == 5 && "tas_kmh"@.len() == 7);
}

/// Only the derived fields change; every other field keeps its value.
pub proof fn lemma_other_fields_stay(
    frame: Map<Seq<char>, Num>,
    f: FuelState,
    h: Seq<(u64, Num)>,
    now: u64,
    key: Seq<char>,
)
    requires
        key != "fuel_consume_calc"@,
        key != "fuel_flow"@,
        key != "sep"@,
        key != "sep_thrust"@,
        key != "crit_g_pos"@,
    ensures
        derived(frame, f, h, now).contains_key(key) == frame.contains_key(key),
        frame.contains_key(key) ==> derived(frame, f, h, now)[key] == frame[key],
{
}

/// The consumption that the game reports is the fuel flow, and keeps the
/// computed one out of the frame.
pub proof fn lemma_reported_consumption_first(
    frame: Map<Seq<char>, Num>,
    f: FuelState,
    h: Seq<(u64, Num)>,
    now: u64,
)
    requires
        frame.contains_key("fuel_consume"@),
    ensures
        derived(frame, f, h, now).contains_key("fuel_flow"@),
        derived(frame, f, h, now)["fuel_flow"@] == frame["fuel_consume"@],
        derived(frame, f, h, now).contains_key("fuel_consume_calc"@) == frame.contains_key(
            "fuel_consume_calc"@,
        ),
{
    lemma_names();
}

/// Without a reported consumption the computed one, where it is known, is both
/// the fuel flow and a field of its own.
pub proof fn lemma_computed_consumption_else(
    frame: Map<Seq<char>, Num>,
    f: FuelState,
    h: Seq<(u64, Num)>,
    now: u64,
)
    requires
        !frame.contains_key("fuel_consume"@),
    ensures
        match f.ema {
            Some(rate) => {
                &&& derived(frame, f, h, now).contains_key("fuel_flow"@)
                &&& derived(frame, f, h, now)["fuel_flow"@] == rate
                &&& derived(frame, f, h, now).contains_key("fuel_consume_calc"@)
                &&& derived(frame, f, h, now)["fuel_consume_calc"@] == rate
            },
            None => {
                &&& derived(frame, f, h, now).contains_key("fuel_flow"@) == frame.contains_key(
                    "fuel_flow"@,
                )
                &&& derived(frame, f, h, now).contains_key("fuel_consume_calc"@)
                    == frame.contains_key("fuel_consume_calc"@)
            },
        },
{
    lemma_names();
}

/// Fuel that went up forgets the computed consumption.
pub proof fn lemma_refuel_forgets(f: FuelState, kg: Num, now: u64)
    requires
        f.kg is Some,
        f.time is Some,
        !same(f.kg->0.bits, kg.bits),
        at_most(difference(f.kg->0.bits, kg.bits), 0),
    ensures
        fuel_after(f, kg, now).ema is None,
{
}

/// A reading that repeats the last one changes nothing.
pub proof fn lemma_same_fuel_changes_nothing(f: FuelState, kg: Num, now: u64)
    requires
        f.kg is Some,
        same(f.kg->0.bits, kg.bits),
    ensures
        fuel_after(f, kg, now) == f,
{
}

/// No more than eight samples are kept, the newest of them is the last one
/// read, and the oldest is no more than two seconds old unless it is alone.
pub proof fn lemma_samples_bounded(
    h: Seq<(u64, Num)>,
    last: Option<Num>,
    now: u64,
    v: Num,
)
    requires
        h.len() <= SAMPLES,
    ensures
        history_after(h, last, now, v).len() <= SAMPLES,
        last is None || !same(last->0.bits, v.bits) ==> {
            let after: Seq<(u64, Num)> = history_after(h, last, now, v);
            &&& after.len() >= 1
            &&& after.last() == (now, v)
            &&& after.len() == 1 || !less(TWO, elapsed(now, after[0].0))
        },
{
    lemma_fresh(newest(h.push((now, v))), now);
}

/// Dropping old samples keeps the newest.
proof fn lemma_fresh(h: Seq<(u64, Num)>, now: u64)
    requires
        h.len() >= 1,
    ensures
        1 <= fresh(h, now).len() <= h.len(),
        fresh(h, now).last() == h.last(),
        fresh(h, now).len() == 1 || !less(TWO, elapsed(now, fresh(h, now)[0].0)),
    decreases h.len(),
{
    if h.len() > 1 && less(TWO, elapsed(now, h[0].0)) {
        lemma_fresh(h.skip(1), now);
    }
}

/// Without two samples the excess power is the climb rate, kept within its
/// limits.
pub proof fn lemma_sep_without_samples(vy: u64, speed: u64, h: Seq<(u64, Num)>, now: u64)
    requires
        h.len() < 2,
    ensures
        excess_power(vy, speed, slope(h, now)) == clamped(vy, SEP_FLOOR, SEP_LIMIT),
{
}

/// The excess power lies within its limits, whatever came before.
pub proof fn lemma_sep_within_limits(vy: u64, speed: u64, a: Option<u64>)
    requires
        !nan(vy),
    ensures
        ({
            let sep: u64 = excess_power(vy, speed, a);
            !nan(sep) && at_most(SEP_FLOOR, sep) && at_most(sep, SEP_LIMIT)
        }),
{
    let raw: u64 = match a {
        Some(a) => sum(vy, product(quotient(speed, GRAVITY), a)),
        None => vy,
    };
    if nan(raw) {
        crate::num::lemma_clamped_within(vy, SEP_FLOOR, SEP_LIMIT);
    } else {
        crate::num::lemma_clamped_within(raw, SEP_FLOOR, SEP_LIMIT);
    }
}

/// A frame with a climb rate and a speed ends with an excess power within its
/// limits, whatever state it meets.
pub proof fn lemma_sep_of_frame_within_limits(
    frame: Map<Seq<char>, Num>,
    f: FuelState,
    h: Seq<(u64, Num)>,
    now: u64,
)
    requires
        frame.contains_key("vy_ms"@),
        frame.contains_key("tas_kmh"@),
        finite(frame["vy_ms"@].bits),
        finite(frame["tas_kmh"@].bits),
    ensures
        derived(frame, f, h, now).contains_key("sep"@),
        at_most(SEP_FLOOR, derived(frame, f, h, now)["sep"@].bits),
        at_most(derived(frame, f, h, now)["sep"@].bits, SEP_LIMIT),
{
    lemma_names();
    let fuelled = with_fuel(frame, f);
    assert(fuelled["vy_ms"@] == frame["vy_ms"@]);
    assert(moves(fuelled));
    lemma_sep_within_limits(fuelled["vy_ms"@].bits, speed_of(fuelled), slope(h, now));
}

} // verus!
