//! The functions that formulas can call besides those of the `evalexpr` crate, or
//! in place of those that do not return on every value.
use vstd::arithmetic::div_mod::{lemma_fundamental_div_mod, lemma_fundamental_div_mod_converse};
use vstd::arithmetic::power2::{lemma_pow2_adds, lemma_pow2_pos, lemma_pow2_strictly_increases, pow2};
use vstd::prelude::*;
use vstd::slice::slice_subrange;

use crate::arith::{lemma_powers, parts, power, whole};
use crate::num::{absolute, clamped, finite, less, magnitude, nan, opposite, unsigned, value, Num};
use crate::text::{byte_length, chars_of, text_of, width_of};

verus! {

/// One of the functions.
#[derive(Clone, Copy, PartialEq, Eq, Structural)]
pub enum Helper {
    Abs,
    Floor,
    Ceil,
    Min,
    Max,
    Clamp,
    ShiftLeft,
    ShiftRight,
    Substring,
}

/// A value that a function takes or gives.
pub enum Item {
    Int(i64),
    /// A floating-point number, by its bit pattern.
    Float(u64),
    Text(String),
    /// A truth value, a list or nothing.
    Other,
}

/// The contents of an [`Item`].
pub enum ItemView {
    Int(i64),
    Float(u64),
    Text(Seq<char>),
    Other,
}

impl View for Item {
    type V = ItemView;

    open spec fn view(&self) -> ItemView {
        match self {
            Item::Int(i) => ItemView::Int(*i),
            Item::Float(bits) => ItemView::Float(*bits),
            Item::Text(t) => ItemView::Text(t@),
            Item::Other => ItemView::Other,
        }
    }
}

/// The contents of items.
pub open spec fn item_views(items: Seq<Item>) -> Seq<ItemView> {
    items.map_values(|i: Item| i@)
}

/// The contents of an optional item.
pub open spec fn option_item(i: Option<Item>) -> Option<ItemView> {
    match i {
        Some(i) => Some(i@),
        None => None,
    }
}

/// The number that an item is.
pub open spec fn number_in(i: ItemView) -> Option<u64> {
    match i {
        ItemView::Int(v) => Some(whole(v as int)),
        ItemView::Float(bits) => Some(bits),
        _ => None,
    }
}

/// The largest integer that is not above `b`. A number of 2^52 or more is an
/// integer.
pub open spec fn floor(b: u64) -> u64 {
    if !finite(b) || unsigned(b) == 0 || magnitude(unsigned(b)) >= pow2(1126) {
        b
    } else {
        whole(value(b) / (pow2(1074) as int))
    }
}

/// The least integer that is not below `b`.
pub open spec fn ceiling(b: u64) -> u64 {
    opposite(floor(opposite(b)))
}

/// The smaller of two numbers; "not a number" gives way.
pub open spec fn smaller(a: u64, b: u64) -> u64 {
    if nan(a) || less(b, a) {
        b
    } else {
        a
    }
}

/// The larger of two numbers; "not a number" gives way.
pub open spec fn larger(a: u64, b: u64) -> u64 {
    if nan(a) || less(a, b) {
        b
    } else {
        a
    }
}

/// The absolute value of a number. The least integer has none.
pub open spec fn absolute_item(i: ItemView) -> Option<ItemView> {
    match i {
        ItemView::Float(bits) => Some(ItemView::Float(absolute(bits))),
        ItemView::Int(v) => if v == i64::MIN {
            None
        } else if v < 0 {
            Some(ItemView::Int((-v) as i64))
        } else {
            Some(i)
        },
        _ => None,
    }
}

/// An integer shifted by a number of bits that is smaller than 64.
pub open spec fn shifted_item(a: ItemView, b: ItemView, left: bool) -> Option<ItemView> {
    match (a, b) {
        (ItemView::Int(v), ItemView::Int(n)) => if 0 <= n < 64 {
            Some(
                ItemView::Int(
                    if left {
                        v << n
                    } else {
                        v >> n
                    },
                ),
            )
        } else {
            None
        },
        _ => None,
    }
}

/// How many characters of `s` take the first `n` bytes; nothing where the bytes
/// end inside a character or there are fewer.
pub open spec fn chars_in(s: Seq<char>, n: int) -> Option<int>
    decreases s.len(),
{
    if byte_length(s) == n {
        Some(s.len() as int)
    } else if s.len() == 0 {
        None
    } else {
        chars_in(s.drop_last(), n)
    }
}

/// The characters of `s` from the byte `from` to the byte `to`.
pub open spec fn bytes_between(s: Seq<char>, from: int, to: int) -> Option<Seq<char>> {
    match (chars_in(s, from), chars_in(s, to)) {
        (Some(i), Some(j)) => if i <= j {
            Some(s.subrange(i, j))
        } else {
            None
        },
        _ => None,
    }
}

/// A text from one byte to another, or to its end.
pub open spec fn substring_item(args: Seq<ItemView>) -> Option<ItemView> {
    match (args[0], args[1]) {
        (ItemView::Text(s), ItemView::Int(from)) => {
            let to: Option<int> = if args.len() == 2 {
                Some(byte_length(s) as int)
            } else {
                match args[2] {
                    ItemView::Int(to) => Some(to as int),
                    _ => None,
                }
            };
            match to {
                Some(to) => match bytes_between(s, from as int, to) {
                    Some(t) => Some(ItemView::Text(t)),
                    None => None,
                },
                None => None,
            }
        },
        _ => None,
    }
}

/// What a function of numbers gives on `args`; nothing where it takes another
/// number of them.
pub open spec fn number_value(h: Helper, args: Seq<u64>) -> Option<u64> {
    match h {
        Helper::Floor => if args.len() == 1 {
            Some(floor(args[0]))
        } else {
            None
        },
        Helper::Ceil => if args.len() == 1 {
            Some(ceiling(args[0]))
        } else {
            None
        },
        Helper::Min => if args.len() == 2 {
            Some(smaller(args[0], args[1]))
        } else {
            None
        },
        Helper::Max => if args.len() == 2 {
            Some(larger(args[0], args[1]))
        } else {
            None
        },
        Helper::Clamp => if args.len() == 3 {
            Some(clamped(args[0], args[1], args[2]))
        } else {
            None
        },
        _ => None,
    }
}

/// Whether all items are numbers.
pub open spec fn all_numbers(args: Seq<ItemView>) -> bool {
    forall|i: int| 0 <= i < args.len() ==> number_in(#[trigger] args[i]) is Some
}

/// The numbers that items are.
pub open spec fn numbers_in(args: Seq<ItemView>) -> Seq<u64> {
    args.map_values(|i: ItemView| number_in(i)->0)
}

/// What a function gives on `args`; nothing where it takes other values.
pub open spec fn helper_value(h: Helper, args: Seq<ItemView>) -> Option<ItemView> {
    match h {
        Helper::Abs => if args.len() == 1 {
            absolute_item(args[0])
        } else {
            None
        },
        Helper::ShiftLeft | Helper::ShiftRight => if args.len() == 2 {
            shifted_item(args[0], args[1], h == Helper::ShiftLeft)
        } else {
            None
        },
        Helper::Substring => if args.len() == 2 || args.len() == 3 {
            substring_item(args)
        } else {
            None
        },
        _ => if all_numbers(args) {
            match number_value(h, numbers_in(args)) {
                Some(bits) => Some(ItemView::Float(bits)),
                None => None,
            }
        } else {
            None
        },
    }
}

/// The names of the functions.
pub open spec fn all_helpers() -> Map<Seq<char>, Helper> {
    Map::empty().insert("math::abs"@, Helper::Abs).insert("math::floor"@, Helper::Floor).insert(
        "math::ceil"@,
        Helper::Ceil,
    ).insert("math::min"@, Helper::Min).insert("math::max"@, Helper::Max).insert(
        "math::clamp"@,
        Helper::Clamp,
    ).insert("shl"@, Helper::ShiftLeft).insert("shr"@, Helper::ShiftRight).insert(
        "str::substring"@,
        Helper::Substring,
    )
}

impl Num {
    /// The largest integer that is not above this number.
    pub fn floor(self) -> (r: Num)
        ensures
            r.bits == floor(self.bits),
    {
        let m: u64 = self.unsigned_bits();
        if !self.is_finite() || m == 0 {
            return self;
        }
        let (f, s): (u64, u32) = parts(m);
        proof {
            lemma_powers();
            lemma_pow2_pos(s as nat);
        }
        if s >= 1074 {
            proof {
                lemma_pow2_adds(52, s as nat);
                let a = pow2(s as nat);
                assert(f * a >= pow2(52) * a) by (nonlinear_arith)
                    requires
                        f >= pow2(52),
                ;
                if s > 1074 {
                    lemma_pow2_strictly_increases(1126, 52 + s as nat);
                }
            }
            return self;
        }
        let k: u32 = 1074 - s;
        let (q, rest): (u64, u64) = if k >= 64 {
            (0, f)
        } else {
            let p: u128 = power(k);
            proof {
                lemma_pow2_pos(k as nat);
            }
            ((f as u128 / p) as u64, (f as u128 % p) as u64)
        };
        proof {
            let a: int = pow2(s as nat) as int;
            let p: int = pow2(k as nat) as int;
            let unit: int = pow2(1074) as int;
            let v: int = magnitude(m as nat) as int;
            lemma_pow2_pos(k as nat);
            lemma_pow2_adds(s as nat, k as nat);
            if k > 64 {
                lemma_pow2_strictly_increases(64, k as nat);
            }
            if k < 64 {
                lemma_fundamental_div_mod(f as int, p);
            }
            let x: int = f as int;
            let d: int = q as int;
            let t: int = rest as int;
            assert(x == p * d + t && 0 <= t < p);
            assert(unit == p * a) by (nonlinear_arith)
                requires
                    unit == a * p,
            ;
            assert(v == d * unit + t * a && 0 <= t * a < unit) by (nonlinear_arith)
                requires
                    v == x * a,
                    x == p * d + t,
                    0 <= t < p,
                    unit == p * a,
                    a > 0,
            ;
            lemma_fundamental_div_mod_converse(v, unit, d, t * a);
            if t == 0 {
                assert(-v == (-d) * unit + 0) by (nonlinear_arith)
                    requires
                        v == d * unit + t * a,
                        t == 0,
                ;
                lemma_fundamental_div_mod_converse(-v, unit, -d, 0);
            } else {
                assert(-v == (-d - 1) * unit + (p - t) * a && 0 <= (p - t) * a < unit)
                    by (nonlinear_arith)
                    requires
                        v == d * unit + t * a,
                        0 < t < p,
                        unit == p * a,
                        a > 0,
                ;
                lemma_fundamental_div_mod_converse(-v, unit, -d - 1, (p - t) * a);
            }
            lemma_pow2_adds(53, s as nat);
            assert(v < pow2(53) * a) by (nonlinear_arith)
                requires
                    v == x * a,
                    x < pow2(53),
                    a > 0,
            ;
            if s < 1073 {
                lemma_pow2_strictly_increases(53 + s as nat, 1126);
            }
            assert(d <= f) by (nonlinear_arith)
                requires
                    x == p * d + t,
                    x == f,
                    t >= 0,
                    p >= 1,
                    d >= 0,
            ;
        }
        if !self.is_negative() {
            Num::of_u64(q)
        } else if rest == 0 {
            Num::of_i64(-(q as i64))
        } else {
            Num::of_i64(-(q as i64) - 1)
        }
    }

    /// The least integer that is not below this number.
    pub fn ceil(self) -> (r: Num)
        ensures
            r.bits == ceiling(self.bits),
    {
        self.neg().floor().neg()
    }

    /// The smaller of two numbers; "not a number" gives way.
    pub fn min(self, other: Num) -> (r: Num)
        ensures
            r.bits == smaller(self.bits, other.bits),
    {
        if self.is_nan() || other.lt(self) {
            other
        } else {
            self
        }
    }

    /// The larger of two numbers; "not a number" gives way.
    pub fn max(self, other: Num) -> (r: Num)
        ensures
            r.bits == larger(self.bits, other.bits),
    {
        if self.is_nan() || self.lt(other) {
            other
        } else {
            self
        }
    }
}

/// What a function of numbers gives on `args`.
fn apply_to_numbers(h: Helper, args: &Vec<u64>) -> (r: Option<u64>)
    ensures
        r == number_value(h, args@),
{
    let n: usize = args.len();
    match h {
        Helper::Floor => if n == 1 {
            Some((Num { bits: args[0] }).floor().bits)
        } else {
            None
        },
        Helper::Ceil => if n == 1 {
            Some((Num { bits: args[0] }).ceil().bits)
        } else {
            None
        },
        Helper::Min => if n == 2 {
            Some((Num { bits: args[0] }).min(Num { bits: args[1] }).bits)
        } else {
            None
        },
        Helper::Max => if n == 2 {
            Some((Num { bits: args[0] }).max(Num { bits: args[1] }).bits)
        } else {
            None
        },
        Helper::Clamp => if n == 3 {
            Some((Num { bits: args[0] }).clamp(Num { bits: args[1] }, Num { bits: args[2] }).bits)
        } else {
            None
        },
        _ => None,
    }
}

/// The numbers that items are, where all are numbers.
fn read_numbers(args: &Vec<Item>) -> (r: Option<Vec<u64>>)
    ensures
        r is Some == all_numbers(item_views(args@)),
        r matches Some(v) ==> v@ == numbers_in(item_views(args@)),
{
    let ghost views = item_views(args@);
    let mut out: Vec<u64> = Vec::new();
    let mut i: usize = 0;
    while i < args.len()
        invariant
            i <= args.len(),
            views == item_views(args@),
            out@.len() == i,
            forall|k: int| 0 <= k < i ==> number_in(#[trigger] views[k]) == Some(out@[k]),
        decreases args.len() - i,
    {
        proof {
            assert(views[i as int] == args@[i as int]@);
        }
        match &args[i] {
            Item::Int(v) => out.push(Num::of_i64(*v).bits),
            Item::Float(bits) => out.push(*bits),
            _ => {
                return None;
            },
        }
        i = i + 1;
    }
    proof {
        assert(out@ =~= numbers_in(views));
    }
    Some(out)
}

/// The absolute value of a number.
fn absolute_of(i: &Item) -> (r: Option<Item>)
    ensures
        option_item(r) == absolute_item(i@),
{
    match i {
        Item::Float(bits) => Some(Item::Float((Num { bits: *bits }).abs().bits)),
        Item::Int(v) => if *v == i64::MIN {
            None
        } else if *v < 0 {
            Some(Item::Int(-*v))
        } else {
            Some(Item::Int(*v))
        },
        _ => None,
    }
}

/// An integer shifted by a number of bits.
fn shifted_by(a: &Item, b: &Item, left: bool) -> (r: Option<Item>)
    ensures
        option_item(r) == shifted_item(a@, b@, left),
{
    match (a, b) {
        (Item::Int(v), Item::Int(n)) => if 0 <= *n && *n < 64 {
            Some(
                Item::Int(
                    if left {
                        *v << *n
                    } else {
                        *v >> *n
                    },
                ),
            )
        } else {
            None
        },
        _ => None,
    }
}

/// The bytes of the first characters are fewer than those of all.
proof fn lemma_fewer_bytes(s: Seq<char>, i: int)
    requires
        0 <= i < s.len(),
    ensures
        byte_length(s.take(i)) < byte_length(s),
    decreases s.len(),
{
    let front = s.drop_last();
    if i < front.len() {
        lemma_fewer_bytes(front, i);
        assert(front.take(i) =~= s.take(i));
    } else {
        assert(s.take(i) =~= front);
    }
}

/// The characters that take some bytes are found by counting.
proof fn lemma_chars_in(s: Seq<char>, i: int, n: int)
    requires
        0 <= i <= s.len(),
    ensures
        byte_length(s.take(i)) == n ==> chars_in(s, n) == Some(i),
        (byte_length(s.take(i)) > n && (i > 0 ==> byte_length(s.take(i - 1)) < n)) ==> chars_in(
            s,
            n,
        ) is None,
        byte_length(s) < n ==> chars_in(s, n) is None,
    decreases s.len(),
{
    if i == s.len() {
        assert(s.take(i) =~= s);
        if s.len() > 0 {
            assert(s.take(i - 1) =~= s.drop_last());
            lemma_chars_in(s.drop_last(), i - 1, n);
            assert(s.drop_last().take(i - 1) =~= s.drop_last());
        }
    } else {
        lemma_fewer_bytes(s, i);
        lemma_chars_in(s.drop_last(), i, n);
        assert(s.drop_last().take(i) =~= s.take(i));
        if i > 0 {
            assert(s.drop_last().take(i - 1) =~= s.take(i - 1));
        }
    }
}

/// How many characters of `s` take the first `n` bytes.
fn count_chars(s: &[char], n: u64) -> (r: Option<usize>)
    requires
        n <= i64::MAX,
    ensures
        r is Some == chars_in(s@, n as int) is Some,
        r matches Some(i) ==> chars_in(s@, n as int) == Some(i as int) && i <= s.len(),
{
    let mut total: u64 = 0;
    let mut i: usize = 0;
    while i < s.len() && total < n
        invariant
            i <= s.len(),
            n <= i64::MAX,
            total == byte_length(s@.take(i as int)),
            i > 0 ==> byte_length(s@.take(i - 1)) < n,
        decreases s.len() - i,
    {
        proof {
            assert(s@.take(i as int + 1).drop_last() =~= s@.take(i as int));
        }
        total = total + width_of(s[i]) as u64;
        i = i + 1;
    }
    proof {
        lemma_chars_in(s@, i as int, n as int);
        if total < n {
            assert(s@.take(i as int) =~= s@);
        }
    }
    if total == n {
        Some(i)
    } else {
        None
    }
}

/// How many characters of `s` take the first `n` bytes.
fn count_signed(s: &[char], n: i64) -> (r: Option<usize>)
    ensures
        r is Some == chars_in(s@, n as int) is Some,
        r matches Some(i) ==> chars_in(s@, n as int) == Some(i as int) && i <= s.len(),
{
    if n < 0 {
        proof {
            lemma_chars_in(s@, 0, n as int);
        }
        return None;
    }
    count_chars(s, n as u64)
}

/// A text from one byte to another, or to its end.
fn substring_of(args: &Vec<Item>) -> (r: Option<Item>)
    requires
        args@.len() == 2 || args@.len() == 3,
    ensures
        option_item(r) == substring_item(item_views(args@)),
{
    let ghost views = item_views(args@);
    proof {
        assert(views[0] == args@[0]@ && views[1] == args@[1]@);
        if args@.len() == 3 {
            assert(views[2] == args@[2]@);
        }
    }
    match (&args[0], &args[1]) {
        (Item::Text(text), Item::Int(from)) => {
            let s = chars_of(text.as_str());
            let end: Option<usize> = if args.len() == 2 {
                proof {
                    assert(text@.take(text@.len() as int) =~= text@);
                    lemma_chars_in(text@, text@.len() as int, byte_length(text@) as int);
                }
                Some(s.len())
            } else {
                match &args[2] {
                    Item::Int(to) => count_signed(s.as_slice(), *to),
                    _ => None,
                }
            };
            match (count_signed(s.as_slice(), *from), end) {
                (Some(i), Some(j)) => if i <= j {
                    Some(Item::Text(text_of(slice_subrange(s.as_slice(), i, j))))
                } else {
                    None
                },
                _ => None,
            }
        },
        _ => None,
    }
}

/// What a function gives on `args`.
fn apply(h: Helper, args: &Vec<Item>) -> (r: Option<Item>)
    ensures
        option_item(r) == helper_value(h, item_views(args@)),
{
    let ghost views = item_views(args@);
    let n: usize = args.len();
    proof {
        assert(views.len() == args@.len());
        assert(forall|i: int| 0 <= i < args@.len() ==> #[trigger] views[i] == args@[i]@);
    }
    match h {
        Helper::Abs => if n == 1 {
            absolute_of(&args[0])
        } else {
            None
        },
        Helper::ShiftLeft => if n == 2 {
            shifted_by(&args[0], &args[1], true)
        } else {
            None
        },
        Helper::ShiftRight => if n == 2 {
            shifted_by(&args[0], &args[1], false)
        } else {
            None
        },
        Helper::Substring => if n == 2 || n == 3 {
            substring_of(args)
        } else {
            None
        },
        _ => match read_numbers(args) {
            Some(numbers) => match apply_to_numbers(h, &numbers) {
                Some(bits) => Some(Item::Float(bits)),
                None => None,
            },
            None => None,
        },
    }
}

/// What a function gives on `args`; [`Item::Other`] where it gives nothing.
pub fn answer(h: Helper, args: Vec<Item>) -> (r: Item)
    ensures
        r@ == (match helper_value(h, item_views(args@)) {
            Some(v) => v,
            None => ItemView::Other,
        }),
{
    match apply(h, &args) {
        Some(i) => i,
        None => Item::Other,
    }
}

/// The floor of a number below 2^52 is an integer, not above the number, and less
/// than one below it.
pub proof fn lemma_floor_is_below(b: u64)
    requires
        finite(b),
        magnitude(unsigned(b)) < pow2(1126),
    ensures
        finite(floor(b)),
        exists|q: int| value(floor(b)) == #[trigger] (q * pow2(1074)),
        value(floor(b)) <= value(b) < value(floor(b)) + pow2(1074),
{
    let unit: int = pow2(1074) as int;
    lemma_powers();
    lemma_pow2_pos(1074);
    crate::num::lemma_zero_magnitude();
    let v: int = value(b);
    if unsigned(b) == 0 {
        assert(v == 0);
        assert(0 * unit == 0);
        assert(value(floor(b)) == 0 * pow2(1074));
    } else {
        let q: int = v / unit;
        let r: int = v % unit;
        lemma_fundamental_div_mod(v, unit);
        lemma_pow2_adds(52, 1074);
        assert(-(pow2(52) as int) <= q < pow2(52)) by (nonlinear_arith)
            requires
                v == unit * q + r,
                0 <= r < unit,
                -(pow2(52) * unit) < v < pow2(52) * unit,
                unit > 0,
        ;
        let n: nat = if q < 0 {
            (-q) as nat
        } else {
            q as nat
        };
        crate::number::lemma_whole_exact(n);
        assert(value(whole(q)) == q * unit) by {
            if q < 0 {
                assert(-(n * unit) == q * unit) by (nonlinear_arith)
                    requires
                        n == -q,
                ;
            }
        }
        assert(q * unit <= v < q * unit + unit) by (nonlinear_arith)
            requires
                v == unit * q + r,
                0 <= r < unit,
        ;
        assert(value(floor(b)) == q * pow2(1074));
    }
}

/// The smaller of two numbers is one of them and not above either; the larger is
/// one of them and not below either.
pub proof fn lemma_smaller_and_larger(a: u64, b: u64)
    requires
        !nan(a),
        !nan(b),
    ensures
        smaller(a, b) == a || smaller(a, b) == b,
        !less(a, smaller(a, b)) && !less(b, smaller(a, b)),
        larger(a, b) == a || larger(a, b) == b,
        !less(larger(a, b), a) && !less(larger(a, b), b),
{
}

/// A number gives way to none: beside "not a number" it is the smaller and the
/// larger.
pub proof fn lemma_not_a_number_gives_way(a: u64, b: u64)
    requires
        nan(a),
        !nan(b),
    ensures
        smaller(a, b) == b && smaller(b, a) == b,
        larger(a, b) == b && larger(b, a) == b,
{
}

/// Each name calls its own function, on as many numbers as that takes.
pub proof fn lemma_functions_by_name(a: u64, b: u64, c: u64)
    ensures
        all_helpers()["math::floor"@] == Helper::Floor,
        all_helpers()["math::ceil"@] == Helper::Ceil,
        all_helpers()["math::min"@] == Helper::Min,
        all_helpers()["math::max"@] == Helper::Max,
        all_helpers()["math::clamp"@] == Helper::Clamp,
        all_helpers()["math::abs"@] == Helper::Abs,
        all_helpers()["shl"@] == Helper::ShiftLeft,
        all_helpers()["shr"@] == Helper::ShiftRight,
        all_helpers()["str::substring"@] == Helper::Substring,
        number_value(Helper::Floor, seq![a]) == Some(floor(a)),
        number_value(Helper::Ceil, seq![a]) == Some(opposite(floor(opposite(a)))),
        number_value(Helper::Min, seq![a, b]) == Some(smaller(a, b)),
        number_value(Helper::Max, seq![a, b]) == Some(larger(a, b)),
        number_value(Helper::Clamp, seq![a, b, c]) == Some(
            if less(a, b) {
                b
            } else if less(c, a) {
                c
            } else {
                a
            },
        ),
{
    reveal_strlit("math::floor");
    reveal_strlit("math::ceil");
    reveal_strlit("math::min");
    reveal_strlit("math::max");
    reveal_strlit("math::clamp");
    reveal_strlit("math::abs");
    reveal_strlit("shl");
    reveal_strlit("shr");
    reveal_strlit("str::substring");
    assert("math::floor"@.len() == 11 && "math::ceil"@.len() == 10 && "math::min"@.len() == 9
        && "math::max"@.len() == 9 && "math::clamp"@.len() == 11 && "math::abs"@.len() == 9
        && "shl"@.len() == 3 && "shr"@.len() == 3 && "str::substring"@.len() == 14);
    assert("math::floor"@[6] == 'f' && "math::clamp"@[6] == 'c');
    assert("math::min"@[7] == 'i' && "math::max"@[7] == 'a' && "math::abs"@[7] == 'b');
    assert("shl"@[2] == 'l' && "shr"@[2] == 'r');
}

} // verus!
