//! Decimal text read as the nearest number.
use vstd::arithmetic::div_mod::{lemma_div_denominator, lemma_fundamental_div_mod, lemma_fundamental_div_mod_converse};
use vstd::arithmetic::power2::{lemma2_to64, lemma_pow2_adds, lemma_pow2_pos, lemma_pow2_strictly_increases, lemma_pow2_unfold, pow2};
use vstd::prelude::*;
use vstd::slice::slice_subrange;

use crate::arith::{half_even, lemma_half_even_scaled, lemma_nearest_scaled, lemma_nearest_zero, lemma_scale_unique, nearest, product, quotient, rounded, scale_of, whole, with_sign};
use crate::digits::{all_digits, lemma_low_first_cut, lemma_low_first_push, lemma_pow10, low_first, pow10, scaled};
use crate::num::{magnitude, nan, Num, INFINITE, NAN, SIGN, STEP};
use crate::text::{chars_of, digits_value, same_chars};

verus! {

/// The unsigned pattern of the number nearest to `d * 10^k`.
pub open spec fn nearest_decimal(d: nat, k: int) -> u64 {
    if k >= 0 {
        nearest((d * pow10(k as nat)) * pow2(1074), 1)
    } else {
        nearest(d * pow2(1074), pow10((-k) as nat))
    }
}

/// `c` in lower case, where it is a letter of the Latin alphabet.
pub open spec fn lower(c: char) -> char {
    if 'A' <= c <= 'Z' {
        (c as u32 + 32) as char
    } else {
        c
    }
}

/// `s` with every Latin letter in lower case.
pub open spec fn lowered(s: Seq<char>) -> Seq<char> {
    s.map_values(|c: char| lower(c))
}

/// The number of decimal digits at the front of `s`.
pub open spec fn run(s: Seq<char>) -> nat
    decreases s.len(),
{
    if s.len() > 0 && '0' <= s[0] <= '9' {
        1 + run(s.skip(1))
    } else {
        0
    }
}

/// The exponent that `s` spells: nothing, or `e`, an optional sign and digits.
pub open spec fn exponent(s: Seq<char>) -> Option<int> {
    if s.len() == 0 {
        Some(0)
    } else if s[0] == 'e' || s[0] == 'E' {
        let minus: bool = s.len() > 1 && s[1] == '-';
        let plus: bool = s.len() > 1 && s[1] == '+';
        let digits: Seq<char> = s.skip(if minus || plus { 2 } else { 1 });
        if digits.len() == 0 || run(digits) != digits.len() {
            None
        } else if minus {
            Some(-(digits_value(digits, 10)->0 as int))
        } else {
            Some(digits_value(digits, 10)->0 as int)
        }
    } else {
        None
    }
}

/// The number that `s` spells without a sign: digits with an optional point
/// and an optional exponent.
pub open spec fn unsigned_number(s: Seq<char>) -> Option<u64> {
    let i: int = run(s) as int;
    let dot: bool = i < s.len() && s[i] == '.';
    let f: int = if dot {
        run(s.skip(i + 1)) as int
    } else {
        0
    };
    let frac: Seq<char> = if dot {
        s.subrange(i + 1, i + 1 + f)
    } else {
        seq![]
    };
    let tail: Seq<char> = if dot {
        s.skip(i + 1 + f)
    } else {
        s.skip(i)
    };
    if i + f == 0 {
        None
    } else {
        match exponent(tail) {
            Some(e) => Some(
                nearest_decimal(digits_value(s.take(i) + frac, 10)->0, e - f),
            ),
            None => None,
        }
    }
}

/// The number that `s` spells: an optional sign, then digits or one of the
/// words `inf`, `infinity` and `nan` in any case.
pub open spec fn number_in(s: Seq<char>) -> Option<u64> {
    let minus: bool = s.len() > 0 && s[0] == '-';
    let plus: bool = s.len() > 0 && s[0] == '+';
    let body: Seq<char> = if minus || plus {
        s.skip(1)
    } else {
        s
    };
    if lowered(body) == "inf"@ || lowered(body) == "infinity"@ {
        Some(with_sign(minus, INFINITE))
    } else if lowered(body) == "nan"@ {
        Some(NAN)
    } else {
        match unsigned_number(body) {
            Some(m) => Some(with_sign(minus, m)),
            None => None,
        }
    }
}

/// The powers of two that the conversions meet.
proof fn lemma_units()
    ensures
        pow2(52) == STEP,
        pow2(53) == 2 * STEP,
{
    lemma2_to64();
    lemma_pow2_adds(32, 21);
    lemma_pow2_unfold(53);
}

/// A significand of 53 bits at a scale is read back as it was written.
proof fn lemma_pattern(s: nat, m: nat)
    requires
        STEP <= m < 2 * STEP,
    ensures
        magnitude(s * STEP as nat + m) == m * pow2(s),
{
    let bits: nat = s * STEP as nat + m;
    let low: int = m - STEP;
    assert(bits == (s + 1) * STEP + low) by (nonlinear_arith)
        requires
            bits == s * STEP + m,
            low == m - STEP,
    ;
    lemma_fundamental_div_mod_converse(bits as int, STEP as int, (s + 1) as int, low);
}

/// The place of the top bit of `v`.
proof fn top_bit(v: nat, l: nat) -> (b: nat)
    requires
        0 < v,
        v < pow2(l),
    ensures
        b < l,
        pow2(b) <= v < pow2(b + 1),
    decreases l,
{
    lemma2_to64();
    assert(l > 0);
    let h: nat = (l - 1) as nat;
    if v < pow2(h) {
        top_bit(v, h)
    } else {
        h
    }
}

/// Integers below 2^53 are numbers themselves.
pub proof fn lemma_whole_exact(v: nat)
    requires
        v < 2 * STEP,
    ensures
        magnitude(whole(v as int) as nat) == v * pow2(1074),
        whole(v as int) < INFINITE,
        v == 0 <==> whole(v as int) == 0,
{
    lemma_units();
    lemma_pow2_pos(1074);
    let n: nat = v * pow2(1074);
    if v == 0 {
        assert(n == 0) by (nonlinear_arith)
            requires
                n == 0 * pow2(1074),
        ;
        lemma_nearest_zero(1);
        crate::num::lemma_zero_magnitude();
    } else {
        let b: nat = top_bit(v, 53);
        let s: nat = (1074 + b - 52) as nat;
        let up: nat = (52 - b) as nat;
        let m: nat = v * pow2(up);
        lemma_pow2_adds(up, s);
        lemma_pow2_adds(b, up);
        lemma_pow2_adds(b + 1, up);
        lemma_pow2_pos(up);
        lemma_pow2_pos(s);
        assert(up + s == 1074 && b + up == 52 && b + 1 + up == 53);
        let ps: int = pow2(s) as int;
        let pu: int = pow2(up) as int;
        assert(n == m * ps + 0) by (nonlinear_arith)
            requires
                n == v * pow2(1074),
                m == v * pu,
                pu * ps == pow2(1074),
        ;
        assert(STEP <= m < 2 * STEP) by (nonlinear_arith)
            requires
                m == v * pu,
                pow2(b) * pu == STEP,
                pow2(b + 1) * pu == 2 * STEP,
                pow2(b) <= v < pow2(b + 1),
                pu > 0,
        ;
        assert(STEP * ps <= n < 2 * STEP * ps) by (nonlinear_arith)
            requires
                n == m * ps,
                STEP <= m < 2 * STEP,
                ps > 0,
        ;
        assert(n / 1 == n);
        lemma_scale_unique(n, s, STEP as nat);
        lemma_fundamental_div_mod_converse(n as int, ps, m as int, 0);
        assert(1 * pow2(s) == pow2(s));
        assert(half_even(n, 1 * pow2(s)) == m);
        assert(rounded(n, 1, STEP as nat) == s * STEP + m);
        assert(s * STEP <= 1075 * STEP) by (nonlinear_arith)
            requires
                s <= 1075,
        ;
        lemma_pattern(s, m);
        assert(whole(v as int) == s * STEP + m);
    }
}

/// Whether `v` holds no digit but zero.
fn all_zero(v: &Vec<u64>) -> (r: bool)
    ensures
        r ==> low_first(v@) == 0,
        !r ==> low_first(v@) > 0,
{
    let mut i: usize = v.len();
    proof {
        assert(v@.skip(i as int) =~= seq![]);
    }
    while i > 0
        invariant
            i <= v.len(),
            low_first(v@.skip(i as int)) == 0,
        decreases i,
    {
        i = i - 1;
        proof {
            assert(v@.skip(i as int).skip(1) =~= v@.skip(i as int + 1));
        }
        if v[i] != 0 {
            proof {
                lemma_low_first_positive(v@, i as int);
            }
            return false;
        }
    }
    proof {
        assert(v@.skip(0) =~= v@);
    }
    true
}

/// A digit that is not zero makes the number positive.
proof fn lemma_low_first_positive(s: Seq<u64>, i: int)
    requires
        0 <= i < s.len(),
        s[i] > 0,
    ensures
        low_first(s) > 0,
    decreases s.len(),
{
    if i > 0 {
        lemma_low_first_positive(s.skip(1), i - 1);
    }
}

/// The number that the digits of `v` from `from` on stand for, where it is
/// below 2^53.
fn small_value(v: &Vec<u64>, from: usize) -> (r: Option<u64>)
    requires
        all_digits(v@),
        from <= v.len(),
    ensures
        match r {
            Some(x) => x == low_first(v@.skip(from as int)) && x < 2 * STEP,
            None => low_first(v@.skip(from as int)) >= 2 * STEP,
        },
{
    let mut i: usize = v.len();
    let mut x: u64 = 0;
    proof {
        assert(v@.skip(i as int) =~= seq![]);
    }
    while i > from
        invariant
            from <= i <= v.len(),
            all_digits(v@),
            x == low_first(v@.skip(i as int)),
            x < 2 * STEP,
        decreases i,
    {
        i = i - 1;
        proof {
            assert(v@.skip(i as int).skip(1) =~= v@.skip(i as int + 1));
            lemma_low_first_tail(v@, from as int, i as int);
        }
        x = x * 10 + v[i];
        if x >= 2 * STEP {
            return None;
        }
    }
    Some(x)
}

/// More digits below make no smaller number.
proof fn lemma_low_first_tail(s: Seq<u64>, a: int, b: int)
    requires
        0 <= a <= b <= s.len(),
    ensures
        low_first(s.skip(a)) >= low_first(s.skip(b)),
    decreases b - a,
{
    if a < b {
        lemma_low_first_tail(s, a + 1, b);
        assert(s.skip(a).skip(1) =~= s.skip(a + 1));
    }
}

/// `v * 10^k`.
fn with_zeros(v: &Vec<u64>, k: u64) -> (r: Vec<u64>)
    requires
        all_digits(v@),
    ensures
        all_digits(r@),
        low_first(r@) == low_first(v@) * pow10(k as nat),
        r@.len() <= v@.len() + k + 1,
{
    let mut r: Vec<u64> = scaled(v, 1, 0);
    let mut i: u64 = 0;
    proof {
        assert(pow10(0) == 1);
        assert(low_first(v@) * 1 == low_first(v@));
    }
    while i < k
        invariant
            i <= k,
            all_digits(r@),
            low_first(r@) == low_first(v@) * pow10(i as nat),
            r@.len() <= v@.len() + i + 1,
        decreases k - i,
    {
        r = scaled(&r, 10, 0);
        proof {
            let p: int = pow10(i as nat) as int;
            let d: int = low_first(v@) as int;
            assert(d * (10 * p) == 10 * (d * p)) by (nonlinear_arith);
        }
        i = i + 1;
    }
    r
}

/// `v * 2^k`.
fn doubled(v: &Vec<u64>, k: u64) -> (r: Vec<u64>)
    requires
        all_digits(v@),
    ensures
        all_digits(r@),
        low_first(r@) == low_first(v@) * pow2(k as nat),
        r@.len() <= v@.len() + k + 1,
{
    let mut r: Vec<u64> = scaled(v, 1, 0);
    let mut i: u64 = 0;
    proof {
        lemma2_to64();
    }
    while i < k
        invariant
            i <= k,
            all_digits(r@),
            low_first(r@) == low_first(v@) * pow2(i as nat),
            r@.len() <= v@.len() + i + 1,
        decreases k - i,
    {
        r = scaled(&r, 2, 0);
        proof {
            lemma_pow2_unfold((i + 1) as nat);
            let p: int = pow2(i as nat) as int;
            let d: int = low_first(v@) as int;
            assert(d * (2 * p) == 2 * (d * p)) by (nonlinear_arith);
        }
        i = i + 1;
    }
    r
}

/// Makes room: `v` has `n` digits at least, with zeros at the top.
fn widen(v: &mut Vec<u64>, n: usize)
    requires
        all_digits(old(v)@),
    ensures
        all_digits(final(v)@),
        low_first(final(v)@) == low_first(old(v)@),
        final(v)@.len() >= n,
        final(v)@.len() == old(v)@.len() || final(v)@.len() == n,
{
    let ghost start = v@;
    while v.len() < n
        invariant
            all_digits(v@),
            low_first(v@) == low_first(start),
            v@.len() == start.len() || v@.len() <= n,
        decreases n - v.len(),
    {
        proof {
            lemma_low_first_push(v@, 0);
            assert(0 * pow10(v@.len()) == 0);
        }
        v.push(0);
    }
}

/// `5^k`.
pub open spec fn pow5(k: nat) -> nat
    decreases k,
{
    if k == 0 {
        1
    } else {
        5 * pow5((k - 1) as nat)
    }
}

/// `10^k == 2^k * 5^k`.
proof fn lemma_pow5(k: nat)
    ensures
        pow5(k) > 0,
        pow10(k) == pow2(k) * pow5(k),
    decreases k,
{
    lemma2_to64();
    if k > 0 {
        lemma_pow5((k - 1) as nat);
        lemma_pow2_unfold(k);
        let x: int = pow2((k - 1) as nat) as int;
        let y: int = pow5((k - 1) as nat) as int;
        assert(10 * (x * y) == (2 * x) * (5 * y)) by (nonlinear_arith);
    }
}

/// What the digits `v` with `f` places stand for, in the search of the scale:
/// `n * 5^s` with `f` places more than `d` has.
pub open spec fn at_scale(v: Seq<u64>, n: nat, places: nat, s: nat) -> bool {
    &&& all_digits(v)
    &&& v.len() >= places + s
    &&& low_first(v) == n * pow5(s)
}

/// The digits above the point are the quotient at the scale.
proof fn lemma_at_scale(v: Seq<u64>, n: nat, places: nat, s: nat)
    requires
        at_scale(v, n, places, s),
    ensures
        ({
            let d: nat = pow10(places) * pow2(s);
            let q: nat = low_first(v.skip((places + s) as int));
            let low: nat = low_first(v.take((places + s) as int));
            let p: nat = pow10(places + s);
            &&& d > 0
            &&& n / d == q
            &&& p > 0
            &&& low < p
            &&& half_even(n, d) == if 2 * low < p || (2 * low == p && q % 2 == 0) {
                q
            } else {
                q + 1
            }
        }),
{
    let d: nat = pow10(places) * pow2(s);
    let f: nat = pow5(s);
    let p: nat = pow10(places + s);
    let q: nat = low_first(v.skip((places + s) as int));
    let low: nat = low_first(v.take((places + s) as int));
    lemma_pow5(s);
    lemma_pow10(places, s);
    lemma_pow2_pos(s);
    lemma_pow10(places + s, 0);
    lemma_low_first_cut(v, places + s);
    assert(d > 0 && d * f == p) by (nonlinear_arith)
        requires
            d == pow10(places) * pow2(s),
            p == pow10(places) * (pow2(s) * f),
            pow10(places) > 0,
            pow2(s) > 0,
    ;
    lemma_half_even_scaled(n, d, f);
    lemma_fundamental_div_mod_converse((n * f) as int, p as int, q as int, low as int);
    assert((n * f) / (d * f) == n / d) by {
        lemma_fundamental_div_mod(n as int, d as int);
        let x: int = n as int / d as int;
        let r: int = n as int % d as int;
        assert(n * f == x * (d * f) + r * f && 0 <= r * f < d * f) by (nonlinear_arith)
            requires
                n == d * x + r,
                0 <= r < d,
                f > 0,
        ;
        lemma_fundamental_div_mod_converse((n * f) as int, (d * f) as int, x, r * f);
    }
}

/// The nearest number to `v / 10^places` units.
fn nearest_digits(v: Vec<u64>, places: usize) -> (m: u64)
    requires
        all_digits(v@),
        v@.len() >= places,
        v@.len() < TEXT_LIMIT + 1500,
    ensures
        m == nearest(low_first(v@), pow10(places as nat)),
{
    let ghost n: nat = low_first(v@);
    let ghost d: nat = pow10(places as nat);
    let mut v: Vec<u64> = v;
    let mut s: usize = 0;
    proof {
        lemma2_to64();
        lemma_pow10(places as nat, 0);
        assert(n * 1 == n);
        assert(d * 1 == d);
        lemma_at_scale(v@, n, places as nat, 0);
    }
    let mut q: Option<u64> = small_value(&v, places);
    while q.is_none() && s < 3000
        invariant
            s <= 3000,
            at_scale(v@, n, places as nat, s as nat),
            v@.len() < TEXT_LIMIT + 1500 + 2 * s,
            places < TEXT_LIMIT + 1500,
            d == pow10(places as nat),
            d > 0,
            match q {
                Some(x) => x == low_first(v@.skip(places + s)) && x < 2 * STEP,
                None => low_first(v@.skip(places + s)) >= 2 * STEP,
            },
            scale_of(n / d, STEP as nat) == s + scale_of(
                low_first(v@.skip(places + s)),
                STEP as nat,
            ),
            s > 0 ==> low_first(v@.skip(places + s)) >= STEP,
            n / (d * pow2(s as nat)) == low_first(v@.skip(places + s)),
        decreases 3000 - s,
    {
        let ghost before = low_first(v@.skip(places + s));
        v = scaled(&v, 5, 0);
        proof {
            let y: int = pow5(s as nat) as int;
            assert(n * (5 * y) == 5 * (n * y)) by (nonlinear_arith);
        }
        widen(&mut v, places + s + 1);
        proof {
            lemma_at_scale(v@, n, places as nat, (s + 1) as nat);
            lemma_pow2_unfold((s + 1) as nat);
            lemma_pow2_pos(s as nat);
            let w: int = (d * pow2(s as nat)) as int;
            assert(w > 0) by (nonlinear_arith)
                requires
                    w == d * pow2(s as nat),
                    d > 0,
                    pow2(s as nat) > 0,
            ;
            lemma_div_denominator(n as int, w, 2);
            assert(w * 2 == d * pow2((s + 1) as nat)) by (nonlinear_arith)
                requires
                    w == d * pow2(s as nat),
                    pow2((s + 1) as nat) == 2 * pow2(s as nat),
            ;
        }
        s = s + 1;
        q = small_value(&v, places + s);
    }
    match q {
        None => {
            proof {
                let x: nat = low_first(v@.skip(places + s));
                assert(half_even(n, d * pow2(scale_of(n / d, STEP as nat))) >= 0);
                assert(scale_of(n / d, STEP as nat) * STEP >= 3000 * STEP) by (nonlinear_arith)
                    requires
                        scale_of(n / d, STEP as nat) >= 3000,
                ;
            }
            INFINITE
        },
        Some(x) => {
            proof {
                lemma_at_scale(v@, n, places as nat, s as nat);
                assert(scale_of(x as nat, STEP as nat) == 0);
            }
            let up: bool = round_up(&v, places + s, x);
            let m: u64 = if up {
                x + 1
            } else {
                x
            };
            proof {
                assert(m == half_even(n, d * pow2(s as nat)));
                assert(rounded(n, d, STEP as nat) == s * STEP + m);
            }
            if s >= 2046 {
                proof {
                    assert(s * STEP >= 2046 * STEP) by (nonlinear_arith)
                        requires
                            s >= 2046,
                    ;
                }
                INFINITE
            } else {
                let total: u64 = s as u64 * STEP + m;
                if total >= INFINITE {
                    INFINITE
                } else {
                    total
                }
            }
        },
    }
}

/// Whether the digits of `v` below `f` round the quotient `q` up.
fn round_up(v: &Vec<u64>, f: usize, q: u64) -> (r: bool)
    requires
        all_digits(v@),
        f <= v@.len(),
    ensures
        ({
            let low: nat = low_first(v@.take(f as int));
            let p: nat = pow10(f as nat);
            r == !(2 * low < p || (2 * low == p && q % 2 == 0))
        }),
{
    let ghost low: nat = low_first(v@.take(f as int));
    if f == 0 {
        proof {
            assert(v@.take(0) =~= seq![]);
        }
        return false;
    }
    let top: u64 = v[f - 1];
    let ghost rest: nat = low_first(v@.take(f - 1));
    let ghost p: nat = pow10((f - 1) as nat);
    proof {
        assert(v@.take(f as int) =~= v@.take(f - 1).push(top));
        lemma_low_first_push(v@.take(f - 1), top);
        lemma_low_first_cut(v@, (f - 1) as nat);
        assert(rest < p);
        assert(top < 5 ==> top * p <= 4 * p) by (nonlinear_arith)
            requires
                p > 0,
        ;
        assert(top > 5 ==> top * p >= 6 * p) by (nonlinear_arith)
            requires
                p > 0,
        ;
    }
    if top < 5 {
        false
    } else if top > 5 {
        true
    } else {
        let below: &[u64] = slice_subrange(v.as_slice(), 0, f - 1);
        proof {
            assert(below@ =~= v@.take(f - 1));
            assert(low == rest + 5 * p);
            assert(below@.skip(f - 1) =~= seq![]);
        }
        let mut k: usize = f - 1;
        while k > 0 && below[k - 1] == 0
            invariant
                k <= f - 1,
                below@.len() == f - 1,
                low_first(below@.skip(k as int)) == 0,
            decreases k,
        {
            k = k - 1;
            proof {
                assert(below@.skip(k as int).skip(1) =~= below@.skip(k as int + 1));
            }
        }
        proof {
            assert(below@.skip(0) =~= below@);
            if k > 0 {
                lemma_low_first_positive(below@, k - 1);
            }
        }
        k > 0 || q % 2 == 1
    }
}

/// A positive number of many bits rounds to infinity.
proof fn lemma_nearest_huge(n: nat)
    requires
        n >= pow2(2274),
    ensures
        nearest(n, 1) == INFINITE,
{
    assert(n / 1 == n);
    lemma_scale_at_least(n, 2274);
    let s: nat = scale_of(n, STEP as nat);
    assert(s * STEP >= 2221 * STEP) by (nonlinear_arith)
        requires
            s >= 2221,
    ;
}

/// Numbers of `k` bits and more have a scale of `k - 53` and more.
proof fn lemma_scale_at_least(n: nat, k: nat)
    requires
        n >= pow2(k),
        k >= 53,
    ensures
        scale_of(n, STEP as nat) >= k - 53,
    decreases k,
{
    lemma_units();
    if k > 53 {
        lemma_pow2_strictly_increases(53, k);
        lemma_pow2_unfold(k);
        lemma_scale_at_least(n / 2, (k - 1) as nat);
    }
}

/// Less than half a unit rounds to zero.
proof fn lemma_nearest_tiny(n: nat, d: nat)
    requires
        2 * n < d,
    ensures
        nearest(n, d) == 0,
{
    lemma2_to64();
    vstd::arithmetic::div_mod::lemma_small_mod(n, d);
    vstd::arithmetic::div_mod::lemma_basic_div(n as int, d as int);
    assert(d * 1 == d);
}

/// `10^k` is at least `2^(3k)`.
proof fn lemma_pow10_large(k: nat)
    ensures
        pow10(k) >= pow2(3 * k),
    decreases k,
{
    lemma2_to64();
    if k > 0 {
        lemma_pow10_large((k - 1) as nat);
        lemma_pow2_adds(3, (3 * (k - 1)) as nat);
        assert(3 * k == 3 + 3 * (k - 1));
    }
}

/// Digits are below their power of ten.
proof fn lemma_low_first_bound(s: Seq<u64>)
    requires
        all_digits(s),
    ensures
        low_first(s) < pow10(s.len()),
{
    lemma_low_first_cut(s, s.len());
    assert(s.take(s.len() as int) =~= s);
    assert(s.skip(s.len() as int) =~= seq![]);
    assert(0 * pow10(s.len()) == 0);
}

/// A far exponent leaves only infinity or zero.
proof fn lemma_far_exponents(d: nat, len: nat, k: int)
    requires
        d > 0,
        d < pow10(len),
    ensures
        k >= 400 ==> nearest_decimal(d, k) == INFINITE,
        -k >= len + 400 ==> nearest_decimal(d, k) == 0,
{
    lemma_pow2_pos(1074);
    let unit: int = pow2(1074) as int;
    if k >= 400 {
        lemma_pow10_large(400);
        lemma_pow10(400, (k - 400) as nat);
        lemma_pow10((k - 400) as nat, 0);
        lemma_pow2_adds(1200, 1074);
        let p: int = pow10(k as nat) as int;
        let a: int = pow10(400) as int;
        let b: int = pow10((k - 400) as nat) as int;
        assert(p >= pow2(1200)) by (nonlinear_arith)
            requires
                p == a * b,
                a >= pow2(1200),
                b >= 1,
        ;
        assert((d * p) * unit >= pow2(1200) * unit) by (nonlinear_arith)
            requires
                d >= 1,
                p >= pow2(1200),
                unit > 0,
        ;
        lemma_nearest_huge(((d * p) * unit) as nat);
    }
    if -k >= len + 400 {
        let e: nat = (-k) as nat;
        lemma_pow10_large(400);
        lemma_pow10(len, (e - len) as nat);
        lemma_pow10(400, (e - len - 400) as nat);
        lemma_pow10((e - len - 400) as nat, 0);
        lemma_pow2_strictly_increases(1075, 1200);
        lemma_pow2_unfold(1075);
        let a: int = pow10(len) as int;
        let b: int = pow10((e - len) as nat) as int;
        let c: int = pow10(400) as int;
        let g: int = pow10((e - len - 400) as nat) as int;
        assert(b >= 2 * unit) by (nonlinear_arith)
            requires
                b == c * g,
                c >= 2 * unit,
                g >= 1,
                unit > 0,
        ;
        assert(2 * (d * unit) < a * b) by (nonlinear_arith)
            requires
                0 < d < a,
                b >= 2 * unit,
                unit > 0,
        ;
        lemma_nearest_tiny((d * unit) as nat, pow10(e));
    }
}

/// The number nearest to `10^k`, for a small `k`.
fn exact_power(k: u64) -> (p: u64)
    requires
        k <= 15,
    ensures
        p == pow10(k as nat),
        0 < p < 2 * STEP,
{
    let mut p: u64 = 1;
    let mut i: u64 = 0;
    proof {
        reveal_with_fuel(pow10, 17);
        assert(pow10(15) == 1_000_000_000_000_000);
    }
    while i < k
        invariant
            i <= k <= 15,
            p == pow10(i as nat),
            pow10(15) == 1_000_000_000_000_000,
        decreases k - i,
    {
        proof {
            lemma_pow10((i + 1) as nat, (15 - i - 1) as nat);
            lemma_pow10((15 - i - 1) as nat, 0);
            let a: int = pow10((i + 1) as nat) as int;
            let b: int = pow10((15 - i - 1) as nat) as int;
            assert(a <= a * b) by (nonlinear_arith)
                requires
                    a > 0,
                    b >= 1,
            ;
        }
        p = p * 10;
        i = i + 1;
    }
    proof {
        lemma_pow10(k as nat, (15 - k) as nat);
        lemma_pow10((15 - k) as nat, 0);
        let a: int = pow10(k as nat) as int;
        let b: int = pow10((15 - k) as nat) as int;
        assert(a <= a * b) by (nonlinear_arith)
            requires
                a > 0,
                b >= 1,
        ;
    }
    p
}

/// Two exact factors give the nearest decimal in one rounding.
proof fn lemma_one_rounding(d: nat, k: nat)
    requires
        d < 2 * STEP,
        pow10(k) < 2 * STEP,
    ensures
        product(whole(d as int), whole(pow10(k) as int)) == nearest_decimal(d, k as int),
        d > 0 && k > 0 ==> quotient(whole(d as int), whole(pow10(k) as int)) == nearest_decimal(
            d,
            -(k as int),
        ),
{
    lemma_whole_exact(d);
    lemma_whole_exact(pow10(k));
    lemma_pow10(k, 0);
    lemma_pow2_pos(1074);
    let unit: nat = pow2(1074);
    let p: nat = pow10(k);
    assert((d * unit) * (p * unit) == ((d * p) * unit) * unit) by (nonlinear_arith);
    assert(1 * unit == unit);
    lemma_nearest_scaled((d * p) * unit, 1, unit);
    lemma_nearest_scaled(d * unit, p, unit);
}

/// The number nearest to `v * 10^k`.
fn decimal_bits(v: &Vec<u64>, k: i128) -> (m: u64)
    requires
        all_digits(v@),
        v@.len() < TEXT_LIMIT,
        -2 * FAR < k < 2 * FAR,
    ensures
        m == nearest_decimal(low_first(v@), k as int),
        m <= INFINITE,
{
    let ghost d: nat = low_first(v@);
    if all_zero(v) {
        proof {
            lemma_decimal_zero(k as int);
        }
        return 0;
    }
    proof {
        lemma_low_first_bound(v@);
        lemma_far_exponents(d, v@.len(), k as int);
    }
    if k >= 400 {
        return INFINITE;
    }
    if -k >= v.len() as i128 + 400 {
        return 0;
    }
    if -15 <= k && k <= 15 {
        let small = small_value(v, 0);
        proof {
            assert(v@.skip(0) =~= v@);
        }
        match small {
            Some(x) => {
                let e: u64 = if k < 0 {
                    (-k) as u64
                } else {
                    k as u64
                };
                let p: u64 = exact_power(e);
                proof {
                    lemma_one_rounding(d, e as nat);
                    lemma_whole_exact(d);
                    lemma_whole_exact(pow10(e as nat));
                }
                let a = Num::of_u64(x);
                let b = Num::of_u64(p);
                let r = if k < 0 {
                    a.over(b)
                } else {
                    a.times(b)
                };
                return r.bits;
            },
            None => {},
        }
    }
    if k >= 0 {
        let w = doubled(&with_zeros(v, k as u64), 1074);
        proof {
            assert(pow10(0) == 1);
        }
        nearest_digits(w, 0)
    } else {
        let places: usize = (-k) as usize;
        let mut w = doubled(v, 1074);
        widen(&mut w, places);
        nearest_digits(w, places)
    }
}

/// A run of digits is no longer than the text, and made of digits.
proof fn lemma_run(s: Seq<char>)
    ensures
        run(s) <= s.len(),
        forall|i: int| 0 <= i < run(s) ==> '0' <= #[trigger] s[i] <= '9',
    decreases s.len(),
{
    if s.len() > 0 && '0' <= s[0] <= '9' {
        lemma_run(s.skip(1));
        assert forall|i: int| 0 <= i < run(s) implies '0' <= #[trigger] s[i] <= '9' by {
            if i > 0 {
                assert(s[i] == s.skip(1)[i - 1]);
            }
        }
    }
}

/// Digits have a value.
proof fn lemma_digits_some(s: Seq<char>)
    requires
        forall|i: int| 0 <= i < s.len() ==> '0' <= #[trigger] s[i] <= '9',
    ensures
        digits_value(s, 10) is Some,
    decreases s.len(),
{
    if s.len() > 0 {
        lemma_digits_some(s.drop_last());
    }
}

/// The number of digits of `s` from `from` on.
fn run_from(s: &[char], from: usize) -> (r: usize)
    requires
        from <= s.len(),
    ensures
        r == run(s@.skip(from as int)),
        from + r <= s.len(),
{
    let mut n: usize = 0;
    proof {
        assert(s@.skip(from as int).skip(0) =~= s@.skip(from as int));
    }
    while from + n < s.len() && '0' <= s[from + n] && s[from + n] <= '9'
        invariant
            from + n <= s.len(),
            run(s@.skip(from as int)) == n + run(s@.skip(from + n)),
        decreases s.len() - n,
    {
        proof {
            assert(s@.skip(from + n).skip(1) =~= s@.skip(from + n + 1));
        }
        n = n + 1;
    }
    n
}

/// The digits of the text `s`, lowest first.
fn digits_in(s: &Vec<char>) -> (r: Vec<u64>)
    requires
        forall|i: int| 0 <= i < s@.len() ==> '0' <= #[trigger] s@[i] <= '9',
    ensures
        all_digits(r@),
        digits_value(s@, 10) == Some(low_first(r@)),
        r@.len() == s@.len(),
{
    let mut r: Vec<u64> = Vec::new();
    let mut i: usize = s.len();
    while i > 0
        invariant
            i <= s.len(),
            r@.len() == s@.len() - i,
            all_digits(r@),
            forall|k: int| 0 <= k < s@.len() ==> '0' <= #[trigger] s@[k] <= '9',
            forall|k: int|
                0 <= k < r@.len() ==> #[trigger] r@[k] == s@[s@.len() - 1 - k] as u32 - '0' as u32,
        decreases i,
    {
        i = i - 1;
        r.push(s[i] as u64 - '0' as u64);
    }
    proof {
        lemma_digits_reversed(s@, r@);
    }
    r
}

/// The digits of a text, turned round.
proof fn lemma_digits_reversed(s: Seq<char>, r: Seq<u64>)
    requires
        r.len() == s.len(),
        forall|k: int| 0 <= k < s.len() ==> '0' <= #[trigger] s[k] <= '9',
        forall|k: int|
            0 <= k < r.len() ==> #[trigger] r[k] == s[s.len() - 1 - k] as u32 - '0' as u32,
    ensures
        digits_value(s, 10) == Some(low_first(r)),
    decreases s.len(),
{
    if s.len() > 0 {
        let t: Seq<char> = s.drop_last();
        let q: Seq<u64> = r.skip(1);
        assert forall|k: int| 0 <= k < q.len() implies #[trigger] q[k] == t[t.len() - 1 - k] as u32
            - '0' as u32 by {
            assert(q[k] == r[k + 1]);
        }
        lemma_digits_reversed(t, q);
        assert(r[0] == s.last() as u32 - '0' as u32);
    }
}

/// The exponent at which this module stops counting.
const FAR: u128 = 0x1_0000_0000_0000_0000_0000;

/// The value of the digits of `s`, or [`FAR`] where it is larger.
fn capped_value(s: &[char]) -> (r: u128)
    requires
        forall|i: int| 0 <= i < s@.len() ==> '0' <= #[trigger] s@[i] <= '9',
    ensures
        digits_value(s@, 10) is Some,
        r <= FAR,
        r < FAR ==> r == digits_value(s@, 10)->0,
        r == FAR ==> digits_value(s@, 10)->0 >= FAR,
{
    proof {
        lemma_digits_some(s@);
    }
    let mut v: u128 = 0;
    let mut i: usize = 0;
    while i < s.len()
        invariant
            i <= s.len(),
            v < FAR,
            digits_value(s@, 10) is Some,
            digits_value(s@.take(i as int), 10) == Some(v as nat),
            forall|k: int| 0 <= k < s@.len() ==> '0' <= #[trigger] s@[k] <= '9',
        decreases s.len() - i,
    {
        proof {
            assert(s@.take(i as int + 1).drop_last() =~= s@.take(i as int));
            assert(s@.take(i as int + 1).last() == s@[i as int]);
            crate::text::lemma_digits_prefix(s@, 10, i as int + 1);
        }
        let next: u128 = v * 10 + (s[i] as u128 - '0' as u128);
        if next >= FAR {
            return FAR;
        }
        v = next;
        i = i + 1;
    }
    proof {
        assert(s@.take(i as int) =~= s@);
    }
    v
}

/// Far exponents of one sign give one number.
proof fn lemma_same_far(d: nat, len: nat, k: int, j: int)
    requires
        d < pow10(len),
        (k >= 400 && j >= 400) || (-k >= len + 400 && -j >= len + 400),
    ensures
        nearest_decimal(d, k) == nearest_decimal(d, j),
{
    if d > 0 {
        lemma_far_exponents(d, len, k);
        lemma_far_exponents(d, len, j);
    } else {
        lemma_decimal_zero(k);
        lemma_decimal_zero(j);
    }
}

/// Zero stays zero at any exponent.
proof fn lemma_decimal_zero(k: int)
    ensures
        nearest_decimal(0, k) == 0,
{
    lemma_nearest_zero(1);
    if k >= 0 {
        assert((0 * pow10(k as nat)) * pow2(1074) == 0) by (nonlinear_arith);
    } else {
        lemma_pow10((-k) as nat, 0);
        assert(0 * pow2(1074) == 0);
        lemma_nearest_zero(pow10((-k) as nat));
    }
}

/// No text is this long: its characters would not fit into memory.
pub const TEXT_LIMIT: usize = usize::MAX / 8;

/// The number that `s` spells without a sign.
#[verifier::rlimit(60)]
fn parse_unsigned(s: &[char]) -> (r: Option<u64>)
    requires
        s@.len() < TEXT_LIMIT,
    ensures
        r == unsigned_number(s@),
        r is Some ==> r->0 <= INFINITE,
{
    proof {
        assert(s@.skip(0) =~= s@);
        lemma_run(s@);
    }
    let i: usize = run_from(s, 0);
    let dot: bool = i < s.len() && s[i] == '.';
    let mut body: Vec<char> = crate::text::copy_chars(slice_subrange(s, 0, i));
    let mut f: usize = 0;
    let mut from: usize = i;
    if dot {
        proof {
            lemma_run(s@.skip(i + 1));
        }
        f = run_from(s, i + 1);
        from = i + 1 + f;
        crate::text::push_chars(&mut body, slice_subrange(s, i + 1, i + 1 + f));
    }
    let ghost frac: Seq<char> = if dot {
        s@.subrange(i + 1, i + 1 + f)
    } else {
        seq![]
    };
    proof {
        assert(body@ =~= s@.take(i as int) + frac);
        assert forall|k: int| 0 <= k < body@.len() implies '0' <= #[trigger] body@[k] <= '9' by {
            if k >= i {
                assert(body@[k] == s@.skip(i + 1)[k - i]);
            } else {
                assert(body@[k] == s@[k]);
            }
        }
    }
    if i == 0 && f == 0 {
        return None;
    }
    let v = digits_in(&body);
    let ghost d: nat = low_first(v@);
    proof {
        lemma_low_first_bound(v@);
    }
    let tail: &[char] = slice_subrange(s, from, s.len());
    proof {
        assert(tail@ =~= s@.skip(from as int));
    }
    if tail.len() == 0 {
        return Some(decimal_bits(&v, -(f as i128)));
    }
    if tail[0] != 'e' && tail[0] != 'E' {
        return None;
    }
    let minus: bool = tail.len() > 1 && tail[1] == '-';
    let plus: bool = tail.len() > 1 && tail[1] == '+';
    let skip: usize = if minus || plus {
        2
    } else {
        1
    };
    let digits: &[char] = slice_subrange(tail, skip, tail.len());
    proof {
        assert(digits@ =~= tail@.skip(skip as int));
        assert(digits@.skip(0) =~= digits@);
        lemma_run(digits@);
    }
    if digits.len() == 0 || run_from(digits, 0) != digits.len() {
        return None;
    }
    let e: u128 = capped_value(digits);
    let k: i128 = if minus {
        -(e as i128) - f as i128
    } else {
        e as i128 - f as i128
    };
    proof {
        let exact: int = exponent(tail@)->0 - f;
        if e < FAR {
            assert(k == exact);
        } else {
            lemma_same_far(d, v@.len(), k as int, exact);
        }
    }
    Some(decimal_bits(&v, k))
}

/// `c` in lower case, where it is a letter of the Latin alphabet.
pub fn to_lower(c: char) -> (r: char)
    ensures
        r == lower(c),
{
    if 'A' <= c && c <= 'Z' {
        (c as u8 + 32) as char
    } else {
        c
    }
}

/// `s` with every Latin letter in lower case.
pub fn to_lowered(s: &[char]) -> (r: Vec<char>)
    ensures
        r@ == lowered(s@),
{
    let mut r: Vec<char> = Vec::new();
    let mut i: usize = 0;
    while i < s.len()
        invariant
            i <= s.len(),
            r@ == lowered(s@.take(i as int)),
        decreases s.len() - i,
    {
        r.push(to_lower(s[i]));
        i = i + 1;
        proof {
            assert(r@ =~= lowered(s@.take(i as int)));
        }
    }
    proof {
        assert(s@.take(i as int) =~= s@);
    }
    r
}

/// The number that `s` spells.
pub fn parse_number(s: &[char]) -> (r: Option<Num>)
    requires
        s@.len() < TEXT_LIMIT,
    ensures
        match number_in(s@) {
            Some(bits) => r == Some(Num { bits }),
            None => r is None,
        },
{
    let minus: bool = s.len() > 0 && s[0] == '-';
    let plus: bool = s.len() > 0 && s[0] == '+';
    let body: &[char] = if minus || plus {
        slice_subrange(s, 1, s.len())
    } else {
        s
    };
    proof {
        if minus || plus {
            assert(body@ =~= s@.skip(1));
        }
    }
    let word = to_lowered(body);
    if same_chars(word.as_slice(), chars_of("inf").as_slice()) || same_chars(
        word.as_slice(),
        chars_of("infinity").as_slice(),
    ) {
        return Some(
            Num {
                bits: if minus {
                    INFINITE + SIGN
                } else {
                    INFINITE
                },
            },
        );
    }
    if same_chars(word.as_slice(), chars_of("nan").as_slice()) {
        return Some(Num { bits: NAN });
    }
    match parse_unsigned(body) {
        None => None,
        Some(m) => {
            if minus {
                Some(Num { bits: m + SIGN })
            } else {
                Some(Num { bits: m })
            }
        },
    }
}

} // verus!
