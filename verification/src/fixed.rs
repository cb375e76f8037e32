//! Numbers as decimal text with a fixed number of places.
use vstd::arithmetic::power2::{lemma_pow2_adds, lemma_pow2_pos, lemma_pow2_unfold, pow2};
use vstd::prelude::*;

use crate::arith::{half_even, half_even_of, lemma_half_even_is_nearest, parts};
use crate::digits::{all_digits, digits_of, digits_text, lemma_pow10, low_first, pow10, scaled};
use crate::num::{infinite, magnitude, nan, negative, unsigned, Num, INFINITE};
use crate::text::{decimal, decimal_chars, digit, digit_char, digits_value, lemma_decimal_read_back, lemma_digit_values, lemma_digits_in_places, push_chars, push_text, text_of};

verus! {

/// The last `width` decimal digits of `n`.
pub open spec fn padded(n: nat, width: nat) -> Seq<char>
    decreases width,
{
    if width == 0 {
        seq![]
    } else {
        padded(n / 10, (width - 1) as nat).push(digit_char(n % 10))
    }
}

/// `d / 10^places` written out with that many places.
pub open spec fn with_point(d: nat, places: nat) -> Seq<char> {
    let p: nat = pow10(places);
    if places == 0 {
        decimal(d)
    } else {
        decimal(d / p) + seq!['.'] + padded(d % p, places)
    }
}

/// The sign in front of a number; `plus` asks for one on numbers that are not
/// negative as well.
pub open spec fn sign_text(b: u64, plus: bool) -> Seq<char> {
    if negative(b) {
        seq!['-']
    } else if plus {
        seq!['+']
    } else {
        seq![]
    }
}

/// `b` rounded to `places` decimal places, ties to even, and written out.
pub open spec fn fixed(b: u64, places: nat, plus: bool) -> Seq<char> {
    if nan(b) {
        "NaN"@
    } else if infinite(b) {
        sign_text(b, plus) + "inf"@
    } else {
        sign_text(b, plus) + with_point(
            half_even(magnitude(unsigned(b)) * pow10(places), pow2(1074)),
            places,
        )
    }
}

/// Appends the last `width` digits of `v`.
fn push_padded(out: &mut Vec<char>, v: u64, width: u64)
    ensures
        final(out)@ == old(out)@ + padded(v as nat, width as nat),
    decreases width,
{
    let ghost start = out@;
    if width > 0 {
        push_padded(out, v / 10, width - 1);
        out.push(digit(v % 10));
    }
    proof {
        assert(out@ =~= start + padded(v as nat, width as nat));
    }
}

/// The digits of `m * 2^e`.
fn shifted_digits(m: u64, e: u32) -> (r: Vec<u64>)
    requires
        m > 0,
    ensures
        all_digits(r@),
        low_first(r@) == m * pow2(e as nat),
        r@.len() >= 1,
        r@.last() != 0,
{
    let mut r: Vec<u64> = digits_of(m);
    let mut i: u32 = 0;
    proof {
        vstd::arithmetic::power2::lemma2_to64();
        assert(m * 1 == m);
    }
    while i < e
        invariant
            i <= e,
            all_digits(r@),
            low_first(r@) == m * pow2(i as nat),
            r@.len() >= 1,
            r@.last() != 0,
        decreases e - i,
    {
        proof {
            lemma_pow2_unfold((i + 1) as nat);
            let p: int = pow2(i as nat) as int;
            assert(m * (2 * p) == 2 * (m * p)) by (nonlinear_arith);
        }
        r = scaled(&r, 2, 0);
        i = i + 1;
    }
    r
}

/// An integer value is its own rounding, at any number of places.
proof fn lemma_integer_places(m: nat, e: nat, p: nat)
    requires
        p > 0,
    ensures
        half_even((m * pow2(1074 + e)) * p, pow2(1074)) == (m * pow2(e)) * p,
        ((m * pow2(e)) * p) / p == m * pow2(e),
        ((m * pow2(e)) * p) % p == 0,
{
    lemma_pow2_adds(1074, e);
    lemma_pow2_pos(1074);
    let unit: int = pow2(1074) as int;
    let v: int = ((m * pow2(e)) * p) as int;
    assert((m * pow2(1074 + e)) * p == v * unit + 0) by (nonlinear_arith)
        requires
            v == (m * pow2(e)) * p,
            pow2(1074 + e) == unit * pow2(e),
    ;
    vstd::arithmetic::div_mod::lemma_fundamental_div_mod_converse(
        ((m * pow2(1074 + e)) * p) as int,
        unit,
        v,
        0,
    );
    let w: int = (m * pow2(e)) as int;
    vstd::arithmetic::div_mod::lemma_fundamental_div_mod_converse(w * p, p as int, w, 0);
}

/// Zero padded is zeros.
proof fn lemma_padded_zero(width: nat)
    ensures
        padded(0, width) == Seq::new(width, |i: int| '0'),
    decreases width,
{
    if width > 0 {
        lemma_padded_zero((width - 1) as nat);
    }
    assert(padded(0, width) =~= Seq::new(width, |i: int| '0'));
}

/// `10^k` for a small `k`.
fn small_power(k: u64) -> (p: u64)
    requires
        k <= 3,
    ensures
        p == pow10(k as nat),
        1 <= p <= 1000,
{
    proof {
        reveal_with_fuel(pow10, 5);
    }
    if k == 0 {
        1
    } else if k == 1 {
        10
    } else if k == 2 {
        100
    } else {
        1000
    }
}

impl Num {
    /// The number with `places` decimal places; `plus` asks for a sign on
    /// numbers that are not negative as well.
    pub fn to_fixed(self, places: u64, plus: bool) -> (r: String)
        requires
            places <= 3,
        ensures
            r@ == fixed(self.bits, places as nat, plus),
    {
        if self.is_nan() {
            return "NaN".to_string();
        }
        let mut out: Vec<char> = Vec::new();
        if self.is_negative() {
            out.push('-');
        } else if plus {
            out.push('+');
        }
        proof {
            assert(out@ =~= sign_text(self.bits, plus));
        }
        let m: u64 = self.unsigned_bits();
        if m == INFINITE {
            push_text(&mut out, "inf");
            return text_of(out.as_slice());
        }
        let p: u64 = small_power(places);
        let (frac, shift) = parts(m);
        let ghost d = half_even(magnitude(m as nat) * pow10(places as nat), pow2(1074));
        let ghost sign = out@;
        if shift >= 1074 {
            proof {
                lemma_integer_places(frac as nat, (shift - 1074) as nat, p as nat);
            }
            let v = shifted_digits(frac, shift - 1074);
            let t = digits_text(&v);
            push_chars(&mut out, t.as_slice());
            if places > 0 {
                out.push('.');
                push_padded(&mut out, 0, places);
                proof {
                    assert(out@ =~= sign + (t@ + seq!['.'] + padded(0, places as nat)));
                }
            } else {
                proof {
                    let w: int = (frac * pow2((shift - 1074) as nat)) as int;
                    assert(w * 1 == w);
                }
            }
        } else {
            proof {
                assert(frac * p <= 0x20_0000_0000_0000 * 1000) by (nonlinear_arith)
                    requires
                        frac <= 0x20_0000_0000_0000,
                        p <= 1000,
                ;
            }
            let v: u64 = half_even_of(frac * p, 1074 - shift);
            proof {
                lemma_shifted_places(frac as nat, shift as nat, p as nat);
                assert(v == d);
            }
            if places == 0 {
                let t = decimal_chars(v);
                push_chars(&mut out, t.as_slice());
            } else {
                let t = decimal_chars(v / p);
                push_chars(&mut out, t.as_slice());
                out.push('.');
                push_padded(&mut out, v % p, places);
                proof {
                    assert(out@ =~= sign + (t@ + seq!['.'] + padded(
                        (v % p) as nat,
                        places as nat,
                    )));
                }
            }
        }
        text_of(out.as_slice())
    }
}

/// Rounding a scaled significand is rounding the magnitude.
proof fn lemma_shifted_places(frac: nat, shift: nat, p: nat)
    requires
        shift < 1074,
    ensures
        half_even((frac * pow2(shift)) * p, pow2(1074)) == half_even(
            frac * p,
            pow2((1074 - shift) as nat),
        ),
{
    let k: nat = (1074 - shift) as nat;
    lemma_pow2_adds(k, shift);
    lemma_pow2_pos(k);
    lemma_pow2_pos(shift);
    crate::arith::lemma_half_even_scaled(frac * p, pow2(k), pow2(shift));
    assert((frac * p) * pow2(shift) == (frac * pow2(shift)) * p) by (nonlinear_arith);
}

/// Digits with zeros in front are read as the number that they are the end of.
proof fn lemma_padded_value(n: nat, width: nat)
    ensures
        padded(n, width).len() == width,
        digits_value(padded(n, width), 10) == Some(n % pow10(width)),
    decreases width,
{
    if width == 0 {
        assert(n % 1 == 0);
    } else {
        let front = padded(n / 10, (width - 1) as nat);
        lemma_padded_value(n / 10, (width - 1) as nat);
        lemma_pow10((width - 1) as nat, 0);
        let c = digit_char(n % 10);
        lemma_digit_values(c);
        lemma_digits_in_places(front, c, 10);
        vstd::arithmetic::div_mod::lemma_mod_breakdown(
            n as int,
            10,
            pow10((width - 1) as nat) as int,
        );
    }
}

/// What is shown of a number is a sign where it is negative or one is asked for,
/// digits, and behind a point as many digits as there are places. Read again, they
/// are the number with that many places that is nearest to the one shown, and of
/// two that are equally near the even one.
pub proof fn lemma_fixed_is_nearest(b: u64, places: nat, plus: bool)
    requires
        !nan(b),
        !infinite(b),
    ensures
        ({
            let t: Seq<char> = fixed(b, places, plus);
            let start: int = if negative(b) || plus {
                1
            } else {
                0
            };
            let point: int = if places == 0 {
                t.len() as int
            } else {
                t.len() - 1 - places
            };
            let whole: Option<nat> = digits_value(t.subrange(start, point), 10);
            let part: Option<nat> = if places == 0 {
                Some(0nat)
            } else {
                digits_value(t.subrange(point + 1, t.len() as int), 10)
            };
            let d: nat = (whole->0) * pow10(places) + part->0;
            let x: nat = magnitude(unsigned(b)) * pow10(places);
            &&& start < point <= t.len()
            &&& negative(b) ==> t[0] == '-'
            &&& !negative(b) && plus ==> t[0] == '+'
            &&& places > 0 ==> t[point] == '.'
            &&& whole is Some && part is Some
            &&& 2 * (d * pow2(1074)) <= 2 * x + pow2(1074)
            &&& 2 * x <= 2 * (d * pow2(1074)) + pow2(1074)
            &&& 2 * (d * pow2(1074)) == 2 * x + pow2(1074) || 2 * x == 2 * (d * pow2(1074)) + pow2(
                1074,
            ) ==> d % 2 == 0
        }),
{
    let t: Seq<char> = fixed(b, places, plus);
    let p: nat = pow10(places);
    let x: nat = magnitude(unsigned(b)) * p;
    let d: nat = half_even(x, pow2(1074));
    let sign: Seq<char> = sign_text(b, plus);
    lemma_pow2_pos(1074);
    lemma_half_even_is_nearest(x, pow2(1074));
    lemma_pow10(places, 0);
    if places == 0 {
        lemma_decimal_read_back(d);
        assert(t.subrange(sign.len() as int, t.len() as int) =~= decimal(d));
        assert(d * 1 + 0 == d);
    } else {
        let w: nat = d / p;
        let f: nat = d % p;
        vstd::arithmetic::div_mod::lemma_fundamental_div_mod(d as int, p as int);
        vstd::arithmetic::div_mod::lemma_mod_bound(d as int, p as int);
        lemma_decimal_read_back(w);
        lemma_padded_value(f, places);
        vstd::arithmetic::div_mod::lemma_small_mod(f, p);
        let point: int = t.len() - 1 - places;
        assert(t.subrange(sign.len() as int, point) =~= decimal(w));
        assert(t.subrange(point + 1, t.len() as int) =~= padded(f, places));
        assert(w * p + f == d) by (nonlinear_arith)
            requires
                d == p * w + f,
        ;
    }
}

/// What is no number is shown as such, and what is infinite with its sign.
pub proof fn lemma_fixed_without_digits(b: u64, places: nat, plus: bool)
    ensures
        nan(b) ==> fixed(b, places, plus) == "NaN"@,
        infinite(b) && negative(b) ==> fixed(b, places, plus) == "-inf"@,
        infinite(b) && !negative(b) && plus ==> fixed(b, places, plus) == "+inf"@,
        infinite(b) && !negative(b) && !plus ==> fixed(b, places, plus) == "inf"@,
{
    reveal_strlit("inf");
    reveal_strlit("-inf");
    reveal_strlit("+inf");
    assert(seq!['-'] + "inf"@ =~= "-inf"@);
    assert(seq!['+'] + "inf"@ =~= "+inf"@);
    assert(Seq::<char>::empty() + "inf"@ =~= "inf"@);
}

} // verus!
