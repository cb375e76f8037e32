//! Addition, subtraction, multiplication and division of [`Num`]s, rounded to
//! the nearest number with ties to the even one.
use vstd::arithmetic::div_mod::lemma_fundamental_div_mod_converse;
use vstd::arithmetic::power2::{lemma_pow2_adds, lemma_pow2_pos, lemma_pow2_strictly_increases, lemma_pow2_unfold, pow2, lemma2_to64};
use vstd::prelude::*;

use crate::num::{infinite, lemma_order_is_value_order, lemma_zero_magnitude, magnitude, nan, negative, opposite, shift_of, significand, unsigned, value, Num, INFINITE, NAN, SIGN, STEP};

verus! {

/// `n / d`, rounded to the nearest integer, ties to the even one.
pub open spec fn half_even(n: nat, d: nat) -> nat {
    let q: nat = n / d;
    let r: nat = n % d;
    if 2 * r < d || (2 * r == d && q % 2 == 0) {
        q
    } else {
        q + 1
    }
}

/// The least power of two by which `q` must be scaled down to be below
/// `2 * step`.
pub open spec fn scale_of(q: nat, step: nat) -> nat
    decreases q,
{
    if q == 0 || q < 2 * step {
        0
    } else {
        1 + scale_of(q / 2, step)
    }
}

/// The unsigned pattern of the number nearest to `n / d` units, in a format
/// whose exponent counts in steps of `step`, before the bound of the exponent
/// is applied.
pub open spec fn rounded(n: nat, d: nat, step: nat) -> nat {
    let s: nat = scale_of(n / d, step);
    s * step + half_even(n, d * pow2(s))
}

/// The same with the bound: what reaches `cap` is infinite.
pub open spec fn rounded_below(n: nat, d: nat, step: nat, cap: nat) -> nat {
    if rounded(n, d, step) >= cap {
        cap
    } else {
        rounded(n, d, step)
    }
}

/// The unsigned pattern of the number nearest to `n / d` units of 2^-1074.
pub open spec fn nearest(n: nat, d: nat) -> u64 {
    rounded_below(n, d, STEP as nat, INFINITE as nat) as u64
}

/// The pattern with the sign `neg` and the unsigned pattern `m`.
pub open spec fn with_sign(neg: bool, m: u64) -> u64 {
    if neg && m < SIGN {
        (m + SIGN) as u64
    } else {
        m
    }
}

/// `a + b`.
pub open spec fn sum(a: u64, b: u64) -> u64 {
    if nan(a) || nan(b) {
        NAN
    } else if infinite(a) {
        if infinite(b) && a != b {
            NAN
        } else {
            a
        }
    } else if infinite(b) {
        b
    } else {
        let v: int = value(a) + value(b);
        if v > 0 {
            nearest(v as nat, 1)
        } else if v < 0 {
            with_sign(true, nearest((-v) as nat, 1))
        } else if negative(a) && negative(b) {
            SIGN
        } else {
            0
        }
    }
}

/// `a - b`.
pub open spec fn difference(a: u64, b: u64) -> u64 {
    if nan(a) || nan(b) {
        NAN
    } else {
        sum(a, opposite(b))
    }
}

/// `a * b`.
pub open spec fn product(a: u64, b: u64) -> u64 {
    let neg: bool = negative(a) != negative(b);
    if nan(a) || nan(b) {
        NAN
    } else if infinite(a) || infinite(b) {
        if unsigned(a) == 0 || unsigned(b) == 0 {
            NAN
        } else {
            with_sign(neg, INFINITE)
        }
    } else {
        with_sign(
            neg,
            nearest(magnitude(unsigned(a)) * magnitude(unsigned(b)), pow2(1074)),
        )
    }
}

/// `a / b`.
pub open spec fn quotient(a: u64, b: u64) -> u64 {
    let neg: bool = negative(a) != negative(b);
    if nan(a) || nan(b) {
        NAN
    } else if infinite(a) {
        if infinite(b) {
            NAN
        } else {
            with_sign(neg, INFINITE)
        }
    } else if infinite(b) {
        with_sign(neg, 0)
    } else if unsigned(b) == 0 {
        if unsigned(a) == 0 {
            NAN
        } else {
            with_sign(neg, INFINITE)
        }
    } else {
        with_sign(
            neg,
            nearest(magnitude(unsigned(a)) * pow2(1074), magnitude(unsigned(b))),
        )
    }
}

/// The scale is the one at which the quotient has 53 bits.
pub proof fn lemma_scale_unique(q: nat, s: nat, step: nat)
    requires
        step > 0,
        q < 2 * step * pow2(s),
        s > 0 ==> q >= step * pow2(s),
    ensures
        scale_of(q, step) == s,
    decreases s,
{
    lemma_pow2_pos(s);
    if s == 0 {
        lemma2_to64();
        assert(2 * step * 1 == 2 * step);
    } else {
        let h: nat = (s - 1) as nat;
        lemma_pow2_unfold(s);
        lemma_pow2_pos(h);
        let p: int = pow2(h) as int;
        assert(step * (2 * p) >= 2 * step) by (nonlinear_arith)
            requires
                p >= 1,
                step > 0,
        ;
        assert(step * (2 * p) == 2 * (step * p)) by (nonlinear_arith);
        assert(2 * step * (2 * p) == 2 * (2 * step * p)) by (nonlinear_arith);
        lemma_scale_unique(q / 2, h, step);
    }
}

/// Scaling both sides leaves the rounded quotient.
pub proof fn lemma_half_even_scaled(n: nat, d: nat, f: nat)
    requires
        d > 0,
        f > 0,
    ensures
        half_even(n * f, d * f) == half_even(n, d),
{
    let q: int = (n / d) as int;
    let r: int = (n % d) as int;
    assert(n == d * q + r) by {
        vstd::arithmetic::div_mod::lemma_fundamental_div_mod(n as int, d as int);
    }
    assert(n * f == q * (d * f) + r * f && 0 <= r * f < d * f) by (nonlinear_arith)
        requires
            n == d * q + r,
            0 <= r < d,
            f > 0,
    ;
    lemma_fundamental_div_mod_converse((n * f) as int, (d * f) as int, q, r * f);
    assert((2 * r < d) == (2 * (r * f) < d * f) && (2 * r == d) == (2 * (r * f) == d * f))
        by (nonlinear_arith)
        requires
            f > 0,
            0 <= r < d,
    ;
}

/// Scaling both sides leaves the nearest number.
pub proof fn lemma_nearest_scaled(n: nat, d: nat, f: nat)
    requires
        d > 0,
        f > 0,
    ensures
        nearest(n * f, d * f) == nearest(n, d),
{
    let q: int = (n / d) as int;
    let r: int = (n % d) as int;
    assert(n == d * q + r) by {
        vstd::arithmetic::div_mod::lemma_fundamental_div_mod(n as int, d as int);
    }
    assert(n * f == q * (d * f) + r * f && 0 <= r * f < d * f) by (nonlinear_arith)
        requires
            n == d * q + r,
            0 <= r < d,
            f > 0,
    ;
    lemma_fundamental_div_mod_converse((n * f) as int, (d * f) as int, q, r * f);
    let s: nat = scale_of(n / d, STEP as nat);
    lemma_pow2_pos(s);
    assert(d * pow2(s) > 0) by (nonlinear_arith)
        requires
            d > 0,
            pow2(s) > 0,
    ;
    lemma_half_even_scaled(n, d * pow2(s), f);
    assert((d * pow2(s)) * f == (d * f) * pow2(s)) by (nonlinear_arith);
}

/// `2^k`.
pub(crate) fn power(k: u32) -> (p: u128)
    requires
        k < 128,
    ensures
        p == pow2(k as nat),
{
    let mut p: u128 = 1;
    let mut i: u32 = 0;
    proof {
        lemma2_to64();
    }
    while i < k
        invariant
            i <= k,
            k < 128,
            p == pow2(i as nat),
        decreases k - i,
    {
        proof {
            lemma_pow2_unfold((i + 1) as nat);
            lemma_small_power((i + 1) as nat);
        }
        p = p * 2;
        i = i + 1;
    }
    p
}

/// Powers of two below 2^128 fit their type.
proof fn lemma_small_power(k: nat)
    requires
        k < 128,
    ensures
        pow2(k) <= u128::MAX,
{
    lemma2_to64();
    lemma_pow2_adds(64, 64);
    if k < 128 {
        lemma_pow2_strictly_increases(k, 128);
    }
}

/// The number of bits of `x`.
fn bit_length(x: u128) -> (l: u32)
    ensures
        l <= 128,
        x < pow2(l as nat),
        l > 0 ==> pow2((l - 1) as nat) <= x,
{
    let mut y: u128 = x;
    let mut l: u32 = 0;
    proof {
        lemma2_to64();
        lemma_pow2_adds(64, 64);
        assert(x / 1 == x);
    }
    while y > 0
        invariant
            l <= 128,
            y == x as nat / pow2(l as nat),
            l > 0 ==> pow2((l - 1) as nat) <= x,
            pow2(128) == u128::MAX + 1,
        decreases y,
    {
        proof {
            let p: int = pow2(l as nat) as int;
            lemma_pow2_pos(l as nat);
            lemma_pow2_unfold((l + 1) as nat);
            vstd::arithmetic::div_mod::lemma_fundamental_div_mod(x as int, p);
            let rest: int = x as int % p;
            assert(x >= p) by (nonlinear_arith)
                requires
                    x == p * y + rest,
                    rest >= 0,
                    y >= 1,
                    p > 0,
            ;
            if l == 128 {
                assert(false);
            }
            vstd::arithmetic::div_mod::lemma_div_denominator(x as int, p, 2);
            assert(p * 2 == 2 * p);
        }
        y = y / 2;
        l = l + 1;
    }
    proof {
        let p: int = pow2(l as nat) as int;
        lemma_pow2_pos(l as nat);
        vstd::arithmetic::div_mod::lemma_fundamental_div_mod(x as int, p);
        assert(p * 0 == 0);
    }
    l
}

/// `c * x + r` over `c * 2^k` rounds as the bits of `x` and a sticky bit say.
proof fn lemma_half_even_parts(c: nat, x: nat, r: nat, k: nat)
    requires
        r < c,
        k == 0 ==> r == 0,
    ensures
        ({
            let p: nat = pow2(k);
            let q: nat = x / p;
            let low: nat = x % p;
            half_even(c * x + r, c * p) == if 2 * low < p || (2 * low == p && r == 0 && q % 2
                == 0) {
                q
            } else {
                q + 1
            }
        }),
{
    let p: int = pow2(k) as int;
    lemma_pow2_pos(k);
    let q: int = x as int / p;
    let low: int = x as int % p;
    vstd::arithmetic::div_mod::lemma_fundamental_div_mod(x as int, p);
    assert(c * x + r == q * (c * p) + (c * low + r) && 0 <= c * low + r < c * p && c * p > 0)
        by (nonlinear_arith)
        requires
            x == p * q + low,
            0 <= low < p,
            0 <= r < c,
            p > 0,
    ;
    lemma_fundamental_div_mod_converse((c * x + r) as int, (c * p) as int, q, c * low + r);
    if k == 0 {
        lemma2_to64();
        assert(p == 1 && low == 0);
        assert(c * low == 0) by (nonlinear_arith)
            requires
                low == 0,
        ;
    } else {
        lemma_pow2_unfold(k);
        let h: int = pow2((k - 1) as nat) as int;
        assert(p == 2 * h);
        assert((2 * (c * low + r) < c * p) == (low < h) && (2 * (c * low + r) == c * p) == (low
            == h && r == 0)) by (nonlinear_arith)
            requires
                p == 2 * h,
                0 <= r < c,
                0 <= low,
                h > 0,
        ;
    }
}

/// Rounds `x`, with `sticky` for a rest below its last bit, to `x / 2^k`.
fn shifted(x: u128, k: u32, sticky: bool, Ghost(c): Ghost<nat>, Ghost(r): Ghost<nat>) -> (m: u128)
    requires
        x < pow2(120),
        r < c,
        sticky == (r > 0),
        k == 0 ==> !sticky,
    ensures
        m == half_even(c * x as nat + r, c * pow2(k as nat)),
{
    proof {
        lemma_half_even_parts(c, x as nat, r, k as nat);
        lemma_pow2_pos(k as nat);
    }
    if k > 120 {
        proof {
            lemma_pow2_unfold(k as nat);
            if k > 121 {
                lemma_pow2_strictly_increases(120, (k - 1) as nat);
            }
            assert(x < pow2(k as nat));
            assert(x as nat / pow2(k as nat) == 0 && x as nat % pow2(k as nat) == x) by {
                vstd::arithmetic::div_mod::lemma_small_mod(x as nat, pow2(k as nat));
                vstd::arithmetic::div_mod::lemma_basic_div(x as int, pow2(k as nat) as int);
            }
        }
        0
    } else {
        let p: u128 = power(k);
        let q: u128 = x / p;
        let low: u128 = x % p;
        proof {
            lemma_small_power(120);
            lemma_small_power(121);
            lemma_pow2_unfold(121);
            if k < 120 {
                lemma_pow2_strictly_increases(k as nat, 120);
            }
            vstd::arithmetic::div_mod::lemma_div_is_ordered_by_denominator(
                x as int,
                1,
                p as int,
            );
        }
        if 2 * low < p || (2 * low == p && !sticky && q % 2 == 0) {
            q
        } else {
            q + 1
        }
    }
}

/// The facts that tie `x`, `r` and the exponent `t` to the exact `n / d`:
/// `n * 2^u == d * 2^(u + t) * x + r`.
pub open spec fn ties(n: nat, d: nat, x: nat, t: int, u: nat, r: nat) -> bool {
    &&& d > 0
    &&& u + t >= 0
    &&& n * pow2(u) == d * pow2((u + t) as nat) * x + r
    &&& r < d * pow2((u + t) as nat)
}

/// The scale of `n / d` follows from the number of bits of `x`.
proof fn lemma_scale(n: nat, d: nat, x: nat, t: int, u: nat, r: nat, l: nat, k: nat, p: nat)
    requires
        ties(n, d, x, t, u, r),
        x < pow2(l),
        l > 0 ==> pow2((l - 1) as nat) <= x,
        k >= l - 1 - p,
        k + t >= 0,
        k + t > 0 ==> k == l - 1 - p,
    ensures
        scale_of(n / d, pow2(p)) == k + t,
        n < d * (2 * pow2(p) * pow2((k + t) as nat)),
        k + t > 0 ==> n >= d * (pow2(p) * pow2((k + t) as nat)),
{
    let s: nat = (k + t) as nat;
    let c: int = (d * pow2((u + t) as nat)) as int;
    let pu: int = pow2(u) as int;
    let ps: int = pow2(s) as int;
    lemma2_to64();
    lemma_pow2_pos(u);
    lemma_pow2_pos(s);
    lemma_pow2_pos(l);
    // c * 2^(p + 1 + k) == d * 2^(p + 1) * 2^s * 2^u
    lemma_pow2_adds(p + 1, k);
    lemma_pow2_unfold(p + 1);
    lemma_pow2_pos(p);
    let step: int = pow2(p) as int;
    lemma_pow2_adds(k, (u + t) as nat);
    lemma_pow2_adds(s, u);
    let pk: int = pow2(k) as int;
    let put: int = pow2((u + t) as nat) as int;
    assert(pk * put == ps * pu);
    if l < p + 1 + k {
        lemma_pow2_strictly_increases(l, p + 1 + k);
    }
    let top: int = pow2(p + 1 + k) as int;
    let two: int = 2 * step;
    assert(top == two * pk);
    assert(n * pu < (d * (two * ps)) * pu) by (nonlinear_arith)
        requires
            n * pu == c * x + r,
            r < c,
            x < top,
            top == two * pk,
            c == d * put,
            pk * put == ps * pu,
            c > 0,
    ;
    assert(n < d * (two * ps)) by (nonlinear_arith)
        requires
            n * pu < (d * (two * ps)) * pu,
            pu > 0,
    ;
    vstd::arithmetic::div_mod::lemma_fundamental_div_mod(n as int, d as int);
    let q: int = n as int / d as int;
    let rest: int = n as int % d as int;
    assert(q < two * ps) by (nonlinear_arith)
        requires
            n == d * q + rest,
            rest >= 0,
            n < d * (two * ps),
            d > 0,
    ;
    if s > 0 {
        lemma_pow2_adds(p, k);
        let bottom: int = pow2(p + k) as int;
        assert(bottom == step * pk);
        assert(l - 1 == p + k);
        assert(n * pu >= (d * (step * ps)) * pu) by (nonlinear_arith)
            requires
                n * pu == c * x + r,
                r >= 0,
                x >= bottom,
                bottom == step * pk,
                c == d * put,
                pk * put == ps * pu,
                c > 0,
        ;
        assert(n >= d * (step * ps)) by (nonlinear_arith)
            requires
                n * pu >= (d * (step * ps)) * pu,
                pu > 0,
        ;
        assert(q >= step * ps) by (nonlinear_arith)
            requires
                n == d * q + rest,
                rest < d,
                n >= d * (step * ps),
                d > 0,
        ;
    }
    lemma_scale_unique(q as nat, s, pow2(p));
}

/// A quotient below `2 * step` rounds to one that is no larger than that.
pub proof fn lemma_half_even_bounds(n: nat, d: nat, p: nat, low: bool, step: nat)
    requires
        d > 0,
        p > 0,
        n < d * (2 * step * p),
        low ==> n >= d * (step * p),
    ensures
        half_even(n, d * p) <= 2 * step,
        low ==> half_even(n, d * p) >= step,
{
    let w: int = (d * p) as int;
    assert(w > 0) by (nonlinear_arith)
        requires
            w == d * p,
            d > 0,
            p > 0,
    ;
    let q: int = n as int / w;
    let rest: int = n as int % w;
    vstd::arithmetic::div_mod::lemma_fundamental_div_mod(n as int, w);
    let two: int = 2 * step as int;
    assert(q < two) by (nonlinear_arith)
        requires
            n == w * q + rest,
            rest >= 0,
            w == d * p,
            n < d * (two * p),
            w > 0,
    ;
    if low {
        assert(q >= step) by (nonlinear_arith)
            requires
                n == w * q + rest,
                rest < w,
                w == d * p,
                n >= d * (step * p),
                w > 0,
        ;
    }
}

/// Whether `p`, `top` and `cap` are the fraction bits, the largest scale and the
/// pattern of infinity of the double or of the single format.
pub open spec fn is_format(p: u32, top: i32, cap: u64) -> bool {
    ||| p == 52 && top == 2046 && cap == INFINITE
    ||| p == 23 && top == 254 && cap == 0x7f80_0000
}

/// The nearest number to `(x + rest) * 2^t` units, where `sticky` says that
/// there is a rest below the last bit of `x`.
pub(crate) fn round(
    x: u128,
    sticky: bool,
    t: i32,
    p: u32,
    top: i32,
    cap: u64,
    Ghost(n): Ghost<nat>,
    Ghost(d): Ghost<nat>,
    Ghost(u): Ghost<nat>,
    Ghost(r): Ghost<nat>,
) -> (m: u64)
    requires
        is_format(p, top, cap),
        ties(n, d, x as nat, t as int, u, r),
        sticky == (r > 0),
        x < pow2(120),
        -5000 <= t <= 5000,
        x >= pow2(p as nat) || t <= 0,
        sticky ==> x >= 4 * STEP,
    ensures
        m == rounded_below(n, d, pow2(p as nat), cap as nat),
        m <= cap,
{
    let l: u32 = bit_length(x);
    let ghost step: nat = pow2(p as nat);
    proof {
        lemma2_to64();
        assert(pow2(53) == 2 * STEP) by {
            lemma_pow2_adds(32, 21);
        }
        assert(pow2(23) == 0x80_0000);
        lemma_pow2_unfold(53);
        if l > 120 {
            if l > 121 {
                lemma_pow2_strictly_increases(120, (l - 1) as nat);
            }
            assert(false);
        }
        if l < p {
            lemma_pow2_strictly_increases(l as nat, p as nat);
        }
        lemma_pow2_unfold(54);
        if l < 54 {
            lemma_pow2_strictly_increases(l as nat, 54);
        }
    }
    let by_bits: i32 = l as i32 - 1 - p as i32;
    let k: i32 = if by_bits > -t {
        by_bits
    } else {
        -t
    };
    let s: i32 = k + t;
    proof {
        lemma_scale(n, d, x as nat, t as int, u, r, l as nat, k as nat, p as nat);
        lemma_pow2_adds(k as nat, (u + t) as nat);
        lemma_pow2_adds(s as nat, u);
        lemma_pow2_pos(s as nat);
        lemma_pow2_pos(u);
    }
    let ghost c: nat = d * pow2((u + t) as nat);
    let m: u128 = shifted(x, k as u32, sticky, Ghost(c), Ghost(r));
    proof {
        let whole: nat = d * pow2(s as nat);
        assert(whole * pow2(u) == c * pow2(k as nat)) by (nonlinear_arith)
            requires
                whole == d * pow2(s as nat),
                c == d * pow2((u + t) as nat),
                pow2(k as nat) * pow2((u + t) as nat) == pow2(s as nat) * pow2(u),
        ;
        assert(whole > 0) by (nonlinear_arith)
            requires
                whole == d * pow2(s as nat),
                d > 0,
                pow2(s as nat) > 0,
        ;
        lemma_half_even_scaled(n, whole, pow2(u));
        assert(m == half_even(n, whole));
        assert(rounded(n, d, step) == s * step + m);
        lemma_half_even_bounds(n, d, pow2(s as nat), s > 0, step);
    }
    if s >= top {
        proof {
            assert(s * step >= top * step) by (nonlinear_arith)
                requires
                    s >= top,
                    step >= 0,
            ;
        }
        cap
    } else {
        let unit: u64 = power(p) as u64;
        proof {
            assert(s * step <= top * step) by (nonlinear_arith)
                requires
                    s <= top,
                    step >= 0,
            ;
        }
        let total: u64 = s as u64 * unit + m as u64;
        if total >= cap {
            cap
        } else {
            total
        }
    }
}

/// The significand and the shift of an unsigned pattern below infinity.
pub fn parts(m: u64) -> (r: (u64, u32))
    requires
        m < INFINITE,
    ensures
        r.0 == significand(m as nat),
        r.1 == shift_of(m as nat),
        r.0 < 2 * STEP,
        r.1 <= 2045,
        r.1 > 0 ==> r.0 >= STEP,
        m > 0 ==> r.0 > 0,
        m < STEP ==> r.1 == 0,
        m >= STEP ==> r.0 >= STEP,
{
    if m < STEP {
        (m, 0)
    } else {
        (STEP + m % STEP, (m / STEP - 1) as u32)
    }
}

/// `x / 2^k`, rounded to the nearest integer, ties to the even one.
pub fn half_even_of(x: u64, k: u32) -> (m: u64)
    requires
        k > 0,
    ensures
        m == half_even(x as nat, pow2(k as nat)),
{
    proof {
        lemma_powers();
        lemma_pow2_pos(k as nat);
        assert(1 * pow2(k as nat) == pow2(k as nat));
        assert(1nat * x as nat + 0 == x);
        lemma_pow2_unfold(k as nat);
        lemma_pow2_pos((k - 1) as nat);
        let p: int = pow2(k as nat) as int;
        vstd::arithmetic::div_mod::lemma_fundamental_div_mod(x as int, p);
        let q: int = x as int / p;
        let rest: int = x as int % p;
        assert(q + 1 <= u64::MAX) by (nonlinear_arith)
            requires
                x == p * q + rest,
                p >= 2,
                rest >= 0,
                0 <= x <= u64::MAX,
                q >= 0,
        ;
    }
    shifted(x as u128, k, false, Ghost(1), Ghost(0)) as u64
}

/// The larger pattern has the larger shift.
proof fn lemma_shift_grows(a: nat, b: nat)
    requires
        a <= b,
    ensures
        shift_of(a) <= shift_of(b),
{
}

/// The powers of two that the operations meet.
pub proof fn lemma_powers()
    ensures
        pow2(64) == 0x1_0000_0000_0000_0000,
        pow2(52) == STEP,
        pow2(53) == 2 * STEP,
        pow2(55) == 0x80_0000_0000_0000,
        pow2(62) == 0x4000_0000_0000_0000,
        pow2(120) == 0x1_0000_0000_0000_0000 * 0x100_0000_0000_0000,
{
    lemma2_to64();
    lemma_pow2_adds(32, 21);
    lemma_pow2_unfold(53);
    lemma_pow2_adds(31, 31);
    lemma_pow2_adds(32, 23);
    lemma_pow2_adds(64, 56);
    lemma_pow2_adds(32, 24);
}

/// `m * 2^64` over `2^gap`, with its rest.
fn aligned(m: u64, gap: u32) -> (r: (u128, u128))
    requires
        m < 2 * STEP,
    ensures
        m * pow2(64) == r.0 * pow2(gap as nat) + r.1,
        r.1 < pow2(gap as nat),
        r.0 <= m * pow2(64),
{
    let wide: u128 = m as u128 * 0x1_0000_0000_0000_0000;
    proof {
        lemma_powers();
        lemma_pow2_pos(gap as nat);
    }
    if gap >= 120 {
        proof {
            if gap > 120 {
                lemma_pow2_strictly_increases(120, gap as nat);
            }
        }
        (0, wide)
    } else {
        let p: u128 = power(gap);
        proof {
            vstd::arithmetic::div_mod::lemma_fundamental_div_mod(wide as int, p as int);
            let q: int = wide as int / p as int;
            assert(q * p == p * q) by (nonlinear_arith);
            assert(q <= wide) by (nonlinear_arith)
                requires
                    wide >= p * q,
                    p >= 1,
                    q >= 0,
            ;
        }
        (wide / p, wide % p)
    }
}

/// The aligned sum or difference stands for the exact one.
proof fn lemma_aligned_ties(
    ma: nat,
    mb: nat,
    sb: nat,
    gap: nat,
    part: nat,
    rest: nat,
)
    requires
        mb * pow2(64) == part * pow2(gap) + rest,
        rest < pow2(gap),
    ensures
        ({
            let sa: nat = sb + gap;
            let a: int = (ma * pow2(sa)) as int;
            let b: int = (mb * pow2(sb)) as int;
            let tail: int = (rest * pow2(sb)) as int;
            &&& tail < pow2(sa)
            &&& tail >= 0
            &&& rest > 0 <==> tail > 0
            &&& (a + b) * pow2(64) == pow2(sa) * (ma * pow2(64) + part) + tail
            &&& (a - b) * pow2(64) == pow2(sa) * (ma * pow2(64) - part) - tail
        }),
{
    let sa: nat = sb + gap;
    lemma_pow2_adds(gap, sb);
    lemma_pow2_pos(sb);
    let pa: int = pow2(sa) as int;
    let pb: int = pow2(sb) as int;
    let pg: int = pow2(gap) as int;
    let w: int = pow2(64) as int;
    assert(pg * pb == pa);
    let tail: int = rest * pb;
    assert(0 <= tail < pa && (rest > 0 <==> tail > 0)) by (nonlinear_arith)
        requires
            tail == rest * pb,
            pg * pb == pa,
            0 <= rest < pg,
            pb > 0,
    ;
    assert((mb * pb) * w == part * pa + tail) by (nonlinear_arith)
        requires
            mb * w == part * pg + rest,
            tail == rest * pb,
            pg * pb == pa,
    ;
    assert((ma * pa + mb * pb) * w == pa * (ma * w + part) + tail) by (nonlinear_arith)
        requires
            (mb * pb) * w == part * pa + tail,
    ;
    assert((ma * pa - mb * pb) * w == pa * (ma * w - part) - tail) by (nonlinear_arith)
        requires
            (mb * pb) * w == part * pa + tail,
    ;
}

/// The magnitudes `ma * 2^sa` and `mb * 2^sb` added up, as the nearest number.
pub(crate) fn add_parts(ma: u64, sa: u32, mb: u64, sb: u32, p: u32, top: i32, cap: u64) -> (m: u64)
    requires
        is_format(p, top, cap),
        ma < 2 * pow2(p as nat),
        mb < 2 * pow2(p as nat),
        sb <= sa <= 2045,
        sa > 0 ==> ma >= pow2(p as nat),
    ensures
        m == rounded_below(
            ma as nat * pow2(sa as nat) + mb as nat * pow2(sb as nat),
            1,
            pow2(p as nat),
            cap as nat,
        ),
        m <= cap,
{
    proof {
        lemma_powers();
        lemma2_to64();
    }
    let gap: u32 = sa - sb;
    let (part, rest) = aligned(mb, gap);
    let high: u128 = ma as u128 * 0x1_0000_0000_0000_0000;
    let ghost tail: nat = rest as nat * pow2(sb as nat);
    let ghost n: nat = ma as nat * pow2(sa as nat) + mb as nat * pow2(sb as nat);
    proof {
        lemma_aligned_ties(ma as nat, mb as nat, sb as nat, gap as nat, part as nat, rest as nat);
        lemma2_to64();
        assert(1 * pow2(sa as nat) == pow2(sa as nat));
        if gap == 0 {
            assert(rest == 0);
        }
    }
    round(
        high + part,
        rest > 0,
        sa as i32 - 64,
        p,
        top,
        cap,
        Ghost(n),
        Ghost(1),
        Ghost(64),
        Ghost(tail),
    )
}

/// A difference keeps more than 54 bits wherever a rest is cut off.
proof fn lemma_difference_size(ma: nat, mb: nat, gap: nat, part: nat, rest: nat, step: nat)
    requires
        mb * pow2(64) == part * pow2(gap) + rest,
        rest < pow2(gap),
        step >= 0x80_0000,
        step <= STEP,
        mb < 2 * step,
        gap > 0 ==> ma >= step,
        ma * pow2(64) - part > 0,
    ensures
        gap <= 1 ==> rest == 0,
        gap <= 1 ==> ma * pow2(64) - part >= 2 * STEP,
        gap >= 2 ==> ma * pow2(64) - part > 4 * STEP,
{
    lemma_powers();
    lemma2_to64();
    let w: int = pow2(64) as int;
    assert(mb * w == 0x1_0000_0000_0000_0000 * mb && ma * w == 0x1_0000_0000_0000_0000 * ma)
        by (nonlinear_arith)
        requires
            w == 0x1_0000_0000_0000_0000,
    ;
    if gap == 0 {
        assert(part * pow2(gap) == part) by (nonlinear_arith)
            requires
                pow2(gap) == 1,
        ;
    } else if gap == 1 {
        assert(part * pow2(gap) == 2 * part) by (nonlinear_arith)
            requires
                pow2(gap) == 2,
        ;
    } else {
        if gap > 2 {
            lemma_pow2_strictly_increases(2, gap);
        }
        let pg: int = pow2(gap) as int;
        assert(part * pg >= part * 4) by (nonlinear_arith)
            requires
                pg >= 4,
                part >= 0,
        ;
    }
}

/// The magnitude `mb * 2^sb` taken from the larger `ma * 2^sa`, as the nearest
/// number.
pub(crate) fn subtract_parts(ma: u64, sa: u32, mb: u64, sb: u32, p: u32, top: i32, cap: u64) -> (m:
    u64)
    requires
        is_format(p, top, cap),
        ma < 2 * pow2(p as nat),
        mb < 2 * pow2(p as nat),
        sb <= sa <= 2045,
        sa > 0 ==> ma >= pow2(p as nat),
        ma * pow2(sa as nat) > mb * pow2(sb as nat),
    ensures
        m == rounded_below(
            (ma * pow2(sa as nat) - mb * pow2(sb as nat)) as nat,
            1,
            pow2(p as nat),
            cap as nat,
        ),
        m <= cap,
{
    proof {
        lemma_powers();
        lemma2_to64();
    }
    let gap: u32 = sa - sb;
    let (part, rest) = aligned(mb, gap);
    let high: u128 = ma as u128 * 0x1_0000_0000_0000_0000;
    let ghost tail: nat = rest as nat * pow2(sb as nat);
    let ghost n: nat = (ma * pow2(sa as nat) - mb * pow2(sb as nat)) as nat;
    proof {
        lemma_aligned_ties(ma as nat, mb as nat, sb as nat, gap as nat, part as nat, rest as nat);
        assert(1 * pow2(sa as nat) == pow2(sa as nat));
        let pa: int = pow2(sa as nat) as int;
        lemma_pow2_pos(sa as nat);
        let apart: int = ma * pow2(64) - part;
        assert(apart > 0) by (nonlinear_arith)
            requires
                n * pow2(64) == pa * apart - tail,
                n > 0,
                pow2(64) > 0,
                tail >= 0,
                pa > 0,
        ;
        lemma_difference_size(
            ma as nat,
            mb as nat,
            gap as nat,
            part as nat,
            rest as nat,
            pow2(p as nat),
        );
    }
    if rest > 0 {
        let ghost r: nat = (pow2(sa as nat) - tail) as nat;
        proof {
            let x: int = high - part - 1;
            let pa: int = pow2(sa as nat) as int;
            assert(pa * (x + 1) == pa * x + pa) by (nonlinear_arith);
        }
        round(
            high - part - 1,
            true,
            sa as i32 - 64,
            p,
            top,
            cap,
            Ghost(n),
            Ghost(1),
            Ghost(64),
            Ghost(r),
        )
    } else {
        round(
            high - part,
            false,
            sa as i32 - 64,
            p,
            top,
            cap,
            Ghost(n),
            Ghost(1),
            Ghost(64),
            Ghost(0),
        )
    }
}

/// The product of the magnitudes `ma * 2^sa` and `mb * 2^sb`, in units of
/// `2^-unit`, as the nearest number.
pub(crate) fn multiply_parts(
    ma: u64,
    sa: u32,
    mb: u64,
    sb: u32,
    unit: u32,
    p: u32,
    top: i32,
    cap: u64,
) -> (m: u64)
    requires
        is_format(p, top, cap),
        unit <= 1074,
        ma < 2 * pow2(p as nat),
        mb < 2 * pow2(p as nat),
        sa <= 2045,
        sb <= 2045,
        sa > 0 ==> ma >= pow2(p as nat),
        sb > 0 ==> mb >= pow2(p as nat),
    ensures
        m == rounded_below(
            (ma as nat * pow2(sa as nat)) * (mb as nat * pow2(sb as nat)),
            pow2(unit as nat),
            pow2(p as nat),
            cap as nat,
        ),
        m <= cap,
{
    let ghost n: nat = (ma as nat * pow2(sa as nat)) * (mb as nat * pow2(sb as nat));
    let ghost d: nat = pow2(unit as nat);
    let ghost step: nat = pow2(p as nat);
    proof {
        lemma_powers();
        lemma2_to64();
        assert(ma * mb < 0x1_0000_0000_0000_0000_0000_0000_0000) by (nonlinear_arith)
            requires
                0 <= ma < 2 * STEP,
                0 <= mb < 2 * STEP,
        ;
        lemma_pow2_pos(unit as nat);
        lemma_pow2_pos((sa + sb) as nat);
        lemma_pow2_adds(sa as nat, sb as nat);
    }
    let x: u128 = ma as u128 * mb as u128;
    let t: i32 = sa as i32 + sb as i32 - unit as i32;
    proof {
        let pa: int = pow2(sa as nat) as int;
        let pb: int = pow2(sb as nat) as int;
        let pab: int = pow2((sa + sb) as nat) as int;
        assert(n * d == d * pab * x) by (nonlinear_arith)
            requires
                n == (ma * pa) * (mb * pb),
                pa * pb == pab,
                x == ma * mb,
        ;
        assert(d * pab > 0) by (nonlinear_arith)
            requires
                d > 0,
                pab > 0,
        ;
        assert(unit + t == sa + sb);
        if t > 0 && x < step {
            assert(ma >= step || mb >= step);
            if ma == 0 || mb == 0 {
                assert(x == 0) by (nonlinear_arith)
                    requires
                        x == ma * mb,
                        ma == 0 || mb == 0,
                ;
            } else {
                assert(x >= step) by (nonlinear_arith)
                    requires
                        x == ma * mb,
                        ma >= 1,
                        mb >= 1,
                        ma >= step || mb >= step,
                ;
            }
        }
    }
    if x == 0 {
        proof {
            lemma_rounded_zero(d, step);
            assert(n == 0) by (nonlinear_arith)
                requires
                    n * d == d * pow2((sa + sb) as nat) * x,
                    x == 0,
                    d > 0,
            ;
        }
        return 0;
    }
    round(x, false, t, p, top, cap, Ghost(n), Ghost(d), Ghost(unit as nat), Ghost(0))
}

/// Nothing rounds to zero.
pub proof fn lemma_rounded_zero(d: nat, step: nat)
    requires
        d > 0,
    ensures
        rounded(0, d, step) == 0,
{
    lemma2_to64();
    assert(0nat / d == 0 && 0nat % d == 0) by {
        vstd::arithmetic::div_mod::lemma_small_mod(0, d);
        vstd::arithmetic::div_mod::lemma_basic_div(0, d as int);
    }
    assert(scale_of(0, step) == 0);
    assert(d * 1 == d);
    assert(0 * step == 0);
}

/// Nothing rounds to zero.
pub proof fn lemma_nearest_zero(d: nat)
    requires
        d > 0,
    ensures
        nearest(0, d) == 0,
{
    lemma_rounded_zero(d, STEP as nat);
}

/// The quotient of the widened significands stands for the exact one.
proof fn lemma_quotient_ties(ma: nat, sa: nat, mb: nat, sb: nat, j: nat, x: nat, rest: nat, u: nat)
    requires
        (ma * pow2(j)) * pow2(62) == mb * x + rest,
        rest < mb,
    ensures
        ({
            let n: nat = (ma * pow2(sa)) * pow2(u);
            let d: nat = mb * pow2(sb);
            let r: nat = rest * pow2(sa + u + sb);
            &&& n * pow2(j + 62 + sb) == d * pow2(sa + u) * x + r
            &&& r < d * pow2(sa + u)
            &&& rest > 0 <==> r > 0
        }),
{
    let pa: int = pow2(sa) as int;
    let pb: int = pow2(sb) as int;
    let pj: int = pow2(j) as int;
    let p62: int = pow2(62) as int;
    let unit: int = pow2(u) as int;
    let au: int = pow2(sa + u) as int;
    let aub: int = pow2(sa + u + sb) as int;
    let jb: int = pow2(j + 62 + sb) as int;
    lemma_pow2_adds(sa, u);
    lemma_pow2_adds(sa + u, sb);
    lemma_pow2_adds(j, 62);
    lemma_pow2_adds(j + 62, sb);
    lemma_pow2_pos(sa + u + sb);
    assert(pa * unit == au && au * pb == aub && (pj * p62) * pb == jb);
    let n: int = (ma * pa) * unit;
    let r: int = rest * aub;
    assert(n * jb == ((ma * pj) * p62) * aub) by (nonlinear_arith)
        requires
            n == (ma * pa) * unit,
            pa * unit == au,
            au * pb == aub,
            (pj * p62) * pb == jb,
    ;
    let whole: int = (mb * x + rest) as int;
    assert(whole * aub == (mb * pb) * au * x + r) by (nonlinear_arith)
        requires
            whole == mb * x + rest,
            r == rest * aub,
            au * pb == aub,
    ;
    assert(r < (mb * pb) * au && (rest > 0 <==> r > 0)) by (nonlinear_arith)
        requires
            r == rest * aub,
            au * pb == aub,
            0 <= rest < mb,
            aub > 0,
    ;
}

/// The quotient of the magnitudes `ma * 2^sa` and `mb * 2^sb`, in units of
/// `2^-unit`, as the nearest number.
pub(crate) fn divide_parts(
    ma: u64,
    sa: u32,
    mb: u64,
    sb: u32,
    unit: u32,
    p: u32,
    top: i32,
    cap: u64,
) -> (m: u64)
    requires
        is_format(p, top, cap),
        unit <= 1074,
        0 < ma < 2 * pow2(p as nat),
        0 < mb < 2 * pow2(p as nat),
        sa <= 2045,
        sb <= 2045,
    ensures
        m == rounded_below(
            (ma * pow2(sa as nat)) as nat * pow2(unit as nat),
            (mb * pow2(sb as nat)) as nat,
            pow2(p as nat),
            cap as nat,
        ),
        m <= cap,
{
    let ghost n: nat = (ma * pow2(sa as nat)) as nat * pow2(unit as nat);
    let ghost d: nat = (mb * pow2(sb as nat)) as nat;
    proof {
        lemma_pow2_pos(sb as nat);
        lemma_pow2_pos(unit as nat);
        assert(d > 0) by (nonlinear_arith)
            requires
                d == mb * pow2(sb as nat),
                mb > 0,
                pow2(sb as nat) > 0,
        ;
    }
    let mut wide: u64 = ma;
    let mut j: u32 = 0;
    proof {
        lemma2_to64();
        lemma_powers();
        lemma_pow2_unfold(53);
    }
    while wide < STEP
        invariant
            0 < wide < 2 * STEP,
            wide == ma * pow2(j as nat),
            j <= 52,
            j < 52 || wide >= STEP,
            wide >= pow2(j as nat),
            pow2(53) == 2 * STEP,
            pow2(52) == STEP,
        decreases 60 - j,
    {
        proof {
            lemma_pow2_unfold((j + 1) as nat);
            assert(ma * pow2((j + 1) as nat) == 2 * wide) by (nonlinear_arith)
                requires
                    wide == ma * pow2(j as nat),
                    pow2((j + 1) as nat) == 2 * pow2(j as nat),
            ;
        }
        wide = wide * 2;
        j = j + 1;
    }
    let num: u128 = wide as u128 * 0x4000_0000_0000_0000;
    let x: u128 = num / mb as u128;
    let rest: u128 = num % mb as u128;
    let t: i32 = sa as i32 - j as i32 - 62 + unit as i32 - sb as i32;
    let ghost u: nat = (j + 62 + sb) as nat;
    let ghost r: nat = rest as nat * pow2((sa + unit + sb) as nat);
    proof {
        assert((ma * pow2(j as nat)) * pow2(62) == num) by (nonlinear_arith)
            requires
                wide == ma * pow2(j as nat),
                pow2(62) == 0x4000_0000_0000_0000,
                num == wide * 0x4000_0000_0000_0000,
        ;
        vstd::arithmetic::div_mod::lemma_fundamental_div_mod(num as int, mb as int);
        lemma_quotient_ties(
            ma as nat,
            sa as nat,
            mb as nat,
            sb as nat,
            j as nat,
            x as nat,
            rest as nat,
            unit as nat,
        );
        assert(x >= 4 * STEP) by (nonlinear_arith)
            requires
                num == mb * x + rest,
                rest < mb,
                mb < 2 * STEP,
                num >= STEP * 0x4000_0000_0000_0000,
        ;
        assert(x <= num) by (nonlinear_arith)
            requires
                num == mb * x + rest,
                rest >= 0,
                mb >= 1,
        ;
    }
    round(x, rest > 0, t, p, top, cap, Ghost(n), Ghost(d), Ghost(u), Ghost(r))
}

/// The magnitudes `b <= a` added up.
fn add_magnitudes(a: u64, b: u64) -> (m: u64)
    requires
        b <= a < INFINITE,
    ensures
        m == nearest(magnitude(a as nat) + magnitude(b as nat), 1),
{
    let (ma, sa) = parts(a);
    let (mb, sb) = parts(b);
    proof {
        lemma_shift_grows(b as nat, a as nat);
        lemma_powers();
    }
    add_parts(ma, sa, mb, sb, 52, 2046, INFINITE)
}

/// The magnitude `b` taken from the larger `a`.
fn subtract_magnitudes(a: u64, b: u64) -> (m: u64)
    requires
        b < a < INFINITE,
    ensures
        m == nearest((magnitude(a as nat) - magnitude(b as nat)) as nat, 1),
{
    let (ma, sa) = parts(a);
    let (mb, sb) = parts(b);
    proof {
        lemma_shift_grows(b as nat, a as nat);
        lemma_powers();
        lemma_order_is_value_order(b, a);
    }
    subtract_parts(ma, sa, mb, sb, 52, 2046, INFINITE)
}

/// The product of two magnitudes.
fn multiply_magnitudes(a: u64, b: u64) -> (m: u64)
    requires
        a < INFINITE,
        b < INFINITE,
    ensures
        m == nearest(magnitude(a as nat) * magnitude(b as nat), pow2(1074)),
{
    let (ma, sa) = parts(a);
    let (mb, sb) = parts(b);
    proof {
        lemma_powers();
    }
    multiply_parts(ma, sa, mb, sb, 1074, 52, 2046, INFINITE)
}

/// The quotient of two magnitudes.
fn divide_magnitudes(a: u64, b: u64) -> (m: u64)
    requires
        a < INFINITE,
        0 < b < INFINITE,
    ensures
        m == nearest(magnitude(a as nat) * pow2(1074), magnitude(b as nat)),
{
    let (ma, sa) = parts(a);
    let (mb, sb) = parts(b);
    proof {
        lemma_powers();
    }
    if a == 0 {
        proof {
            lemma_pow2_pos(sb as nat);
            let d: nat = magnitude(b as nat);
            assert(d > 0) by (nonlinear_arith)
                requires
                    d == mb * pow2(sb as nat),
                    mb > 0,
                    pow2(sb as nat) > 0,
            ;
            lemma_zero_magnitude();
            assert(0 * pow2(1074) == 0);
            lemma_nearest_zero(d);
        }
        return 0;
    }
    divide_parts(ma, sa, mb, sb, 1074, 52, 2046, INFINITE)
}

/// The pattern with the sign `neg` and the unsigned pattern `m`.
fn signed(neg: bool, m: u64) -> (r: Num)
    requires
        m <= INFINITE,
    ensures
        r.bits == with_sign(neg, m),
{
    if neg {
        Num { bits: m + SIGN }
    } else {
        Num { bits: m }
    }
}

/// The number nearest to the integer `v`.
pub open spec fn whole(v: int) -> u64 {
    if v < 0 {
        with_sign(true, nearest((-v) as nat * pow2(1074), 1))
    } else {
        nearest(v as nat * pow2(1074), 1)
    }
}

/// `ns` nanoseconds in seconds: the whole seconds and the rest, each rounded.
pub open spec fn seconds(ns: u64) -> u64 {
    sum(
        whole((ns / 1_000_000_000) as int),
        quotient(whole((ns % 1_000_000_000) as int), whole(1_000_000_000)),
    )
}

impl Num {
    /// The number nearest to `v`.
    pub fn of_u64(v: u64) -> (r: Num)
        ensures
            r.bits == whole(v as int),
    {
        let ghost n: nat = v as nat * pow2(1074);
        if v == 0 {
            proof {
                assert(n == 0) by (nonlinear_arith)
                    requires
                        n == 0 * pow2(1074),
                ;
                lemma_nearest_zero(1);
            }
            return Num { bits: 0 };
        }
        proof {
            lemma_powers();
            lemma_pow2_pos(1074);
        }
        let x: u128 = v as u128 * 0x80_0000_0000_0000;
        proof {
            let unit: int = pow2(1074) as int;
            assert(n * pow2(55) == 1 * unit * x) by (nonlinear_arith)
                requires
                    n == v * unit,
                    x == v * 0x80_0000_0000_0000,
                    pow2(55) == 0x80_0000_0000_0000,
            ;
        }
        Num {
            bits: round(
                x,
                false,
                1019,
                52,
                2046,
                INFINITE,
                Ghost(n),
                Ghost(1),
                Ghost(55),
                Ghost(0),
            ),
        }
    }

    /// The number nearest to `v`.
    pub fn of_i64(v: i64) -> (r: Num)
        ensures
            r.bits == whole(v as int),
    {
        if v >= 0 {
            Num::of_u64(v as u64)
        } else {
            let up: u64 = (-(v + 1)) as u64 + 1;
            signed(true, Num::of_u64(up).bits)
        }
    }

    /// A span of `ns` nanoseconds in seconds.
    pub fn of_nanos(ns: u64) -> (r: Num)
        ensures
            r.bits == seconds(ns),
    {
        let full = Num::of_u64(ns / 1_000_000_000);
        let rest = Num::of_u64(ns % 1_000_000_000);
        full.plus(rest.over(Num::of_u64(1_000_000_000)))
    }

    /// `self + other`.
    pub fn plus(self, other: Num) -> (r: Num)
        ensures
            r.bits == sum(self.bits, other.bits),
    {
        if self.is_nan() || other.is_nan() {
            return Num { bits: NAN };
        }
        let a: u64 = self.unsigned_bits();
        let b: u64 = other.unsigned_bits();
        if a == INFINITE {
            if b == INFINITE && self.bits != other.bits {
                return Num { bits: NAN };
            }
            return self;
        }
        if b == INFINITE {
            return other;
        }
        proof {
            lemma_order_is_value_order(a, b);
            lemma_order_is_value_order(a, 0);
            lemma_order_is_value_order(b, 0);
            lemma_zero_magnitude();
        }
        if self.is_negative() == other.is_negative() {
            if a == 0 && b == 0 {
                return self;
            }
            let m: u64 = if b <= a {
                add_magnitudes(a, b)
            } else {
                add_magnitudes(b, a)
            };
            signed(self.is_negative(), m)
        } else if a == b {
            Num { bits: 0 }
        } else if b < a {
            signed(self.is_negative(), subtract_magnitudes(a, b))
        } else {
            signed(other.is_negative(), subtract_magnitudes(b, a))
        }
    }

    /// `self - other`.
    pub fn minus(self, other: Num) -> (r: Num)
        ensures
            r.bits == difference(self.bits, other.bits),
    {
        if self.is_nan() || other.is_nan() {
            Num { bits: NAN }
        } else {
            self.plus(other.neg())
        }
    }

    /// `self * other`.
    pub fn times(self, other: Num) -> (r: Num)
        ensures
            r.bits == product(self.bits, other.bits),
    {
        if self.is_nan() || other.is_nan() {
            return Num { bits: NAN };
        }
        let neg: bool = self.is_negative() != other.is_negative();
        let a: u64 = self.unsigned_bits();
        let b: u64 = other.unsigned_bits();
        if a == INFINITE || b == INFINITE {
            if a == 0 || b == 0 {
                return Num { bits: NAN };
            }
            return signed(neg, INFINITE);
        }
        signed(neg, multiply_magnitudes(a, b))
    }

    /// `self / other`.
    pub fn over(self, other: Num) -> (r: Num)
        ensures
            r.bits == quotient(self.bits, other.bits),
    {
        if self.is_nan() || other.is_nan() {
            return Num { bits: NAN };
        }
        let neg: bool = self.is_negative() != other.is_negative();
        let a: u64 = self.unsigned_bits();
        let b: u64 = other.unsigned_bits();
        if a == INFINITE {
            if b == INFINITE {
                return Num { bits: NAN };
            }
            return signed(neg, INFINITE);
        }
        if b == INFINITE {
            return signed(neg, 0);
        }
        if b == 0 {
            if a == 0 {
                return Num { bits: NAN };
            }
            return signed(neg, INFINITE);
        }
        signed(neg, divide_magnitudes(a, b))
    }
}

/// A rounded quotient is no further from the exact one than a half, and even where
/// it is just that far.
pub proof fn lemma_half_even_is_nearest(n: nat, d: nat)
    requires
        d > 0,
    ensures
        2 * (half_even(n, d) * d) <= 2 * n + d,
        2 * n <= 2 * (half_even(n, d) * d) + d,
        2 * (half_even(n, d) * d) == 2 * n + d || 2 * n == 2 * (half_even(n, d) * d) + d
            ==> half_even(n, d) % 2 == 0,
{
    let q: int = (n / d) as int;
    let r: int = (n % d) as int;
    vstd::arithmetic::div_mod::lemma_fundamental_div_mod(n as int, d as int);
    assert(q * d == d * q) by (nonlinear_arith);
    assert((q + 1) * d == q * d + d) by (nonlinear_arith);
}

} // verus!
