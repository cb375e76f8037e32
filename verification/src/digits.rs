//! Natural numbers of any size as decimal digits, lowest first.
use vstd::prelude::*;

use crate::text::{decimal, digit, digit_char};

verus! {

/// `10^k`.
pub open spec fn pow10(k: nat) -> nat
    decreases k,
{
    if k == 0 {
        1
    } else {
        10 * pow10((k - 1) as nat)
    }
}

/// Powers of ten are positive and multiply.
pub proof fn lemma_pow10(a: nat, b: nat)
    ensures
        pow10(a) > 0,
        pow10(a + b) == pow10(a) * pow10(b),
    decreases a,
{
    if a > 0 {
        lemma_pow10((a - 1) as nat, b);
        let x: int = pow10((a - 1) as nat) as int;
        let y: int = pow10(b) as int;
        assert((10 * x) * y == 10 * (x * y)) by (nonlinear_arith);
        assert((a + b - 1) as nat == (a - 1) as nat + b);
    } else {
        assert(1 * pow10(b) == pow10(b));
    }
}

/// The number that the digits `s` stand for, lowest first.
pub open spec fn low_first(s: Seq<u64>) -> nat
    decreases s.len(),
{
    if s.len() == 0 {
        0
    } else {
        s[0] as nat + 10 * low_first(s.skip(1))
    }
}

/// Whether every element of `s` is a digit.
pub open spec fn all_digits(s: Seq<u64>) -> bool {
    forall|i: int| 0 <= i < s.len() ==> s[i] < 10
}

/// A digit at the top counts with its power of ten.
pub proof fn lemma_low_first_push(s: Seq<u64>, d: u64)
    ensures
        low_first(s.push(d)) == low_first(s) + d * pow10(s.len()),
    decreases s.len(),
{
    if s.len() == 0 {
        assert(s.push(d).skip(1) =~= seq![]);
        assert(low_first(s.push(d).skip(1)) == 0);
        assert(d * 1 == d);
    } else {
        assert(s.push(d).skip(1) =~= s.skip(1).push(d));
        lemma_low_first_push(s.skip(1), d);
        let p: int = pow10((s.len() - 1) as nat) as int;
        assert(10 * (d * p) == d * (10 * p)) by (nonlinear_arith);
    }
}

/// The digits above position `k` are the quotient by `10^k`, those below it
/// are the rest.
pub proof fn lemma_low_first_cut(s: Seq<u64>, k: nat)
    requires
        all_digits(s),
        k <= s.len(),
    ensures
        low_first(s) == low_first(s.skip(k as int)) * pow10(k) + low_first(s.take(k as int)),
        low_first(s.take(k as int)) < pow10(k),
    decreases k,
{
    if k == 0 {
        assert(s.skip(0) =~= s);
        assert(s.take(0) =~= seq![]);
        assert(low_first(s) * 1 == low_first(s));
    } else {
        let t: Seq<u64> = s.skip(1);
        lemma_low_first_cut(t, (k - 1) as nat);
        assert(t.skip(k - 1) =~= s.skip(k as int));
        assert(s.take(k as int).skip(1) =~= t.take(k - 1));
        let hi: int = low_first(s.skip(k as int)) as int;
        let p: int = pow10((k - 1) as nat) as int;
        assert(10 * (hi * p) == hi * (10 * p)) by (nonlinear_arith);
    }
}

/// Digits without a leading zero read, from the top, as the decimal text.
proof fn lemma_decimal_of_digits(s: Seq<u64>)
    requires
        all_digits(s),
        s.len() >= 1,
        s.len() > 1 ==> s.last() != 0,
    ensures
        decimal(low_first(s)) == s.reverse().map_values(|d: u64| digit_char(d as nat)),
        s.last() != 0 ==> low_first(s) > 0,
    decreases s.len(),
{
    let n: nat = low_first(s);
    let t: Seq<u64> = s.skip(1);
    if s.len() == 1 {
        assert(t =~= seq![]);
        assert(low_first(t) == 0);
        assert(decimal(n) =~= s.reverse().map_values(|d: u64| digit_char(d as nat)));
    } else {
        assert(t.last() == s.last());
        lemma_decimal_of_digits(t);
        assert(n / 10 == low_first(t) && n % 10 == s[0]);
        assert(s.reverse().map_values(|d: u64| digit_char(d as nat)) =~= t.reverse().map_values(
            |d: u64| digit_char(d as nat),
        ).push(digit_char(s[0] as nat)));
    }
}

/// `f * v + carry`, digit by digit.
pub fn scaled(v: &Vec<u64>, f: u64, carry: u64) -> (r: Vec<u64>)
    requires
        all_digits(v@),
        1 <= f <= 10,
        carry < 10,
    ensures
        all_digits(r@),
        low_first(r@) == f * low_first(v@) + carry,
        v@.len() > 0 && v@.last() != 0 ==> r@.len() > 0 && r@.last() != 0,
        r@.len() <= v@.len() + 1,
{
    let mut r: Vec<u64> = Vec::new();
    let mut over: u64 = carry;
    let mut i: usize = 0;
    proof {
        assert(v@.take(0) =~= seq![]);
        assert(f * 0 + carry == over * 1);
    }
    while i < v.len()
        invariant
            i <= v.len(),
            r.len() == i,
            all_digits(v@),
            all_digits(r@),
            1 <= f <= 10,
            over < 10,
            low_first(r@) + over * pow10(i as nat) == f * low_first(v@.take(i as int)) + carry,
            i > 0 && v@[i - 1] != 0 ==> over > 0 || r@[i - 1] != 0,
        decreases v.len() - i,
    {
        proof {
            assert(0 <= f * v@[i as int] <= 90) by (nonlinear_arith)
                requires
                    1 <= f <= 10,
                    0 <= v@[i as int] < 10,
            ;
        }
        let t: u64 = f * v[i] + over;
        proof {
            assert(v@.take(i as int + 1) =~= v@.take(i as int).push(v@[i as int]));
            lemma_low_first_push(v@.take(i as int), v@[i as int]);
            lemma_low_first_push(r@, (t % 10) as u64);
            let p: int = pow10(i as nat) as int;
            let lo: int = low_first(v@.take(i as int)) as int;
            let vd: int = v@[i as int] as int;
            let q: int = (t / 10) as int;
            let m: int = (t % 10) as int;
            let before: int = low_first(r@) as int;
            assert(pow10((i + 1) as nat) == 10 * p);
            assert(before + m * p + q * (10 * p) == f * (lo + vd * p) + carry) by (nonlinear_arith)
                requires
                    10 * q + m == f * vd + over,
                    before + over * p == f * lo + carry,
            ;
            if v@[i as int] != 0 {
                assert(f * vd > 0) by (nonlinear_arith)
                    requires
                        f >= 1,
                        vd >= 1,
                ;
            }
        }
        r.push(t % 10);
        over = t / 10;
        i = i + 1;
    }
    proof {
        assert(v@.take(i as int) =~= v@);
    }
    if over > 0 {
        proof {
            lemma_low_first_push(r@, over);
        }
        r.push(over);
    } else {
        proof {
            assert(over * pow10(i as nat) == 0) by (nonlinear_arith)
                requires
                    over == 0,
            ;
        }
    }
    r
}

/// The digits of `v`.
pub fn digits_of(v: u64) -> (r: Vec<u64>)
    ensures
        all_digits(r@),
        low_first(r@) == v,
        r@.len() >= 1,
        v > 0 ==> r@.last() != 0,
        v == 0 ==> r@.len() == 1,
    decreases v,
{
    if v < 10 {
        let mut r: Vec<u64> = Vec::new();
        r.push(v);
        proof {
            assert(r@.skip(1) =~= seq![]);
            assert(low_first(r@.skip(1)) == 0);
        }
        r
    } else {
        let high = digits_of(v / 10);
        let r = scaled(&high, 10, v % 10);
        r
    }
}

/// The decimal text of the digits `v`, which have no leading zero.
pub fn digits_text(v: &Vec<u64>) -> (r: Vec<char>)
    requires
        all_digits(v@),
        v@.len() >= 1,
        v@.len() > 1 ==> v@.last() != 0,
    ensures
        r@ == decimal(low_first(v@)),
{
    let mut r: Vec<char> = Vec::new();
    let mut i: usize = v.len();
    while i > 0
        invariant
            i <= v.len(),
            all_digits(v@),
            r@ == v@.skip(i as int).reverse().map_values(|d: u64| digit_char(d as nat)),
        decreases i,
    {
        i = i - 1;
        r.push(digit(v[i]));
        proof {
            assert(r@ =~= v@.skip(i as int).reverse().map_values(|d: u64| digit_char(d as nat)));
        }
    }
    proof {
        assert(v@.skip(0) =~= v@);
        lemma_decimal_of_digits(v@);
    }
    r
}

} // verus!
