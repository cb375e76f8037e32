//! Overlay colours and their text forms.
use vstd::prelude::*;
use vstd::slice::slice_subrange;
use vstd::utf8::{encode_scalar, encode_utf8};

use crate::text::{begins, byte_length, chars_of, digit, digit_char, digit_value, digits_value, ends, ends_with, pieces, split, starts_with, text_of, trim, trimmed, value_of_digit, views, white, width, width_of, without_plus};

verus! {

/// A colour as red, green, blue and alpha, eight bits each.
///
/// Its text form is `#RRGGBB`, or `#RRGGBBAA` where the alpha is not 255.
/// Read are both of these, `rgb(r,g,b)` and `rgba(r,g,b,a)` with numbers up to
/// 255, and lists of three or four such numbers.
#[derive(Debug, Clone, Copy, PartialEq, Eq, Default)]
pub struct OverlayColor(pub [u8; 4]);

/// What is wrong with a number.
#[derive(Debug, Clone, Copy, PartialEq, Eq, Structural)]
pub enum NumberFault {
    /// There is none.
    Empty,
    /// A character of it is no digit.
    NotDigit,
    /// It is larger than 255.
    TooLarge,
}

/// Why a text is no colour.
#[derive(Debug, PartialEq, Eq)]
pub enum ColorError {
    /// A hexadecimal colour of so many bytes, neither 6 nor 8.
    HexLength(usize),
    /// `rgba()` with so many components.
    RgbaParts(usize),
    /// `rgb()` with so many components.
    RgbParts(usize),
    /// A component that is no number up to 255.
    Component(NumberFault),
    /// A list without the component at this place.
    Missing(usize),
    /// None of the known forms.
    Unknown(String),
}

/// The number that the digits `s` spell, scanned from the left.
pub open spec fn scanned(s: Seq<char>, radix: nat) -> Result<nat, NumberFault>
    decreases s.len(),
{
    if s.len() == 0 {
        Ok(0)
    } else {
        match scanned(s.drop_last(), radix) {
            Err(e) => Err(e),
            Ok(v) => match digit_value(s.last(), radix) {
                None => Err(NumberFault::NotDigit),
                Some(d) => if v * radix + d > 255 {
                    Err(NumberFault::TooLarge)
                } else {
                    Ok(v * radix + d)
                },
            },
        }
    }
}

/// The component that `s` spells: an optional plus sign and digits.
pub open spec fn component(s: Seq<char>, radix: nat) -> Result<nat, NumberFault> {
    if s.len() == 0 {
        Err(NumberFault::Empty)
    } else if without_plus(s).len() == 0 {
        Err(NumberFault::NotDigit)
    } else {
        scanned(without_plus(s), radix)
    }
}

/// The first `k` pairs of digits of `s`, or the fault of the first pair that
/// is none. Pairs are of two bytes each, so a longer character stands alone.
pub open spec fn hex_pairs(s: Seq<char>, k: nat) -> Result<Seq<nat>, NumberFault>
    decreases k,
{
    if k == 0 {
        Ok(seq![])
    } else {
        match hex_pairs(s, (k - 1) as nat) {
            Err(e) => Err(e),
            Ok(front) => {
                let at: int = 2 * (k - 1);
                let pair: Seq<char> = if at < s.len() && width(s[at]) >= 2 {
                    seq![s[at]]
                } else {
                    s.subrange(at, at + 2)
                };
                match component(pair, 16) {
                    Err(e) => Err(e),
                    Ok(v) => Ok(front.push(v)),
                }
            },
        }
    }
}

/// The body of a text of the form `head` ... `)`.
pub open spec fn call_body(s: Seq<char>, head: Seq<char>) -> Option<Seq<char>> {
    if begins(s, head) && ends(s.skip(head.len() as int), ")"@) {
        Some(s.skip(head.len() as int).drop_last())
    } else {
        None
    }
}

/// The first `k` components of `parts`, or the fault of the first that is none.
pub open spec fn listed(parts: Seq<Seq<char>>, k: nat) -> Result<Seq<nat>, NumberFault>
    decreases k,
{
    if k == 0 {
        Ok(seq![])
    } else {
        match listed(parts, (k - 1) as nat) {
            Err(e) => Err(e),
            Ok(front) => match component(trimmed(parts[k - 1]), 10) {
                Err(e) => Err(e),
                Ok(v) => Ok(front.push(v)),
            },
        }
    }
}

/// Whether `r` holds the colour `c`, with an alpha of 255 where `c` has none,
/// or its fault.
pub open spec fn gives(r: Result<OverlayColor, ColorError>, c: Result<Seq<nat>, NumberFault>) -> bool {
    match c {
        Err(e) => r matches Err(ColorError::Component(f)) && f == e,
        Ok(v) => r matches Ok(color) && color.0[0] == v[0] && color.0[1] == v[1] && color.0[2]
            == v[2] && color.0[3] == (if v.len() > 3 {
            v[3]
        } else {
            255
        }),
    }
}

/// Whether reading `text` as a colour gives `r`.
pub open spec fn reads_as(text: Seq<char>, r: Result<OverlayColor, ColorError>) -> bool {
    let s: Seq<char> = trimmed(text);
    if begins(s, "#"@) {
        let hex: Seq<char> = s.skip(1);
        let n: nat = byte_length(hex);
        if n == 6 || n == 8 {
            gives(r, hex_pairs(hex, n / 2))
        } else {
            r matches Err(ColorError::HexLength(m)) && m == n
        }
    } else if call_body(s, "rgba("@) is Some {
        let parts: Seq<Seq<char>> = pieces(call_body(s, "rgba("@)->0, ',');
        if parts.len() == 4 {
            gives(r, listed(parts, 4))
        } else {
            r matches Err(ColorError::RgbaParts(m)) && m == parts.len()
        }
    } else if call_body(s, "rgb("@) is Some {
        let parts: Seq<Seq<char>> = pieces(call_body(s, "rgb("@)->0, ',');
        if parts.len() == 3 {
            gives(r, listed(parts, 3))
        } else {
            r matches Err(ColorError::RgbParts(m)) && m == parts.len()
        }
    } else {
        r matches Err(ColorError::Unknown(t)) && t@ == s
    }
}

/// The two digits of a byte.
pub open spec fn hex_of(b: u8) -> Seq<char> {
    seq![digit_char((b / 16) as nat), digit_char((b % 16) as nat)]
}

/// The text of a colour.
pub open spec fn color_text(c: OverlayColor) -> Seq<char> {
    let rgb: Seq<char> = seq!['#'] + hex_of(c.0[0]) + hex_of(c.0[1]) + hex_of(c.0[2]);
    if c.0[3] == 255 {
        rgb
    } else {
        rgb + hex_of(c.0[3])
    }
}

impl OverlayColor {
    /// An opaque colour.
    pub fn rgb(r: u8, g: u8, b: u8) -> (c: Self)
        ensures
            c.0@ == seq![r, g, b, 255],
    {
        OverlayColor([r, g, b, 255])
    }

    /// A colour with an alpha.
    pub fn rgba(r: u8, g: u8, b: u8, a: u8) -> (c: Self)
        ensures
            c.0@ == seq![r, g, b, a],
    {
        OverlayColor([r, g, b, a])
    }

    /// Red, green, blue and alpha.
    pub fn to_rgba(self) -> (r: [u8; 4])
        ensures
            r == self.0,
    {
        self.0
    }

    /// The text of the colour.
    pub fn to_text(self) -> (r: String)
        ensures
            r@ == color_text(self),
    {
        let mut out: Vec<char> = Vec::new();
        out.push('#');
        push_hex(&mut out, self.0[0]);
        push_hex(&mut out, self.0[1]);
        push_hex(&mut out, self.0[2]);
        if self.0[3] != 255 {
            push_hex(&mut out, self.0[3]);
        }
        proof {
            assert(out@ =~= color_text(self));
        }
        text_of(out.as_slice())
    }

    /// The colour that a list gives: `None` stands for a component that the
    /// list does not have.
    pub fn of_components(r: Option<u8>, g: Option<u8>, b: Option<u8>, a: Option<u8>) -> (c: Result<
        Self,
        ColorError,
    >)
        ensures
            match (r, g, b) {
                (None, _, _) => c matches Err(ColorError::Missing(i)) && i == 0,
                (_, None, _) => c matches Err(ColorError::Missing(i)) && i == 1,
                (_, _, None) => c matches Err(ColorError::Missing(i)) && i == 2,
                (Some(r), Some(g), Some(b)) => c matches Ok(color) && color.0@ == seq![
                    r,
                    g,
                    b,
                    match a {
                        Some(a) => a,
                        None => 255,
                    },
                ],
            },
    {
        match (r, g, b) {
            (None, _, _) => Err(ColorError::Missing(0)),
            (_, None, _) => Err(ColorError::Missing(1)),
            (_, _, None) => Err(ColorError::Missing(2)),
            (Some(r), Some(g), Some(b)) => {
                let alpha: u8 = match a {
                    Some(a) => a,
                    None => 255,
                };
                Ok(OverlayColor([r, g, b, alpha]))
            },
        }
    }
}

/// Appends the two digits of a byte.
fn push_hex(out: &mut Vec<char>, b: u8)
    ensures
        final(out)@ == old(out)@ + hex_of(b),
{
    let ghost start = out@;
    out.push(digit((b / 16) as u64));
    out.push(digit((b % 16) as u64));
    proof {
        assert(out@ =~= start + hex_of(b));
    }
}

/// The bytes of a text are as many as its characters take.
proof fn lemma_encoded_length(s: Seq<char>)
    ensures
        encode_utf8(s).len() == byte_length(s),
    decreases s.len(),
{
    if s.len() > 0 {
        let rest: Seq<char> = s.drop_first();
        lemma_encoded_length(rest);
        lemma_first_bytes(s);
        let c: u32 = s[0] as u32;
        vstd::utf8::char_is_scalar(s[0]);
        assert(encode_scalar(c).len() == width(s[0]));
    }
}

/// The bytes of the first character, and of the others.
proof fn lemma_first_bytes(s: Seq<char>)
    requires
        s.len() > 0,
    ensures
        byte_length(s) == width(s[0]) + byte_length(s.drop_first()),
    decreases s.len(),
{
    if s.len() > 1 {
        lemma_first_bytes(s.drop_last());
        assert(s.drop_last().drop_first() =~= s.drop_first().drop_last());
    } else {
        assert(s.drop_last() =~= seq![]);
        assert(s.drop_first() =~= seq![]);
        reveal_with_fuel(byte_length, 2);
    }
}

/// The bytes behind characters of one byte each.
proof fn lemma_bytes_behind(s: Seq<char>, m: int)
    requires
        0 <= m <= s.len(),
        forall|i: int| 0 <= i < m ==> width(#[trigger] s[i]) == 1,
    ensures
        byte_length(s) == m + byte_length(s.skip(m)),
    decreases m,
{
    if m > 0 {
        let rest: Seq<char> = s.drop_first();
        lemma_first_bytes(s);
        assert forall|i: int| 0 <= i < m - 1 implies width(#[trigger] rest[i]) == 1 by {
            assert(rest[i] == s[i + 1]);
        }
        lemma_bytes_behind(rest, m - 1);
        assert(rest.skip(m - 1) =~= s.skip(m));
        assert(width(s[0]) == 1);
    } else {
        assert(s.skip(0) =~= s);
    }
}

/// The number of bytes of `s` in UTF-8.
fn bytes_in(s: &[char]) -> (n: usize)
    ensures
        n == byte_length(s@),
{
    let t = text_of(s);
    proof {
        lemma_encoded_length(s@);
    }
    t.as_str().as_bytes().len()
}

/// Whether `r` is the outcome `c` of reading one number.
spec fn agrees(r: Result<u8, NumberFault>, c: Result<nat, NumberFault>) -> bool {
    match c {
        Ok(v) => r matches Ok(x) && x == v,
        Err(e) => r matches Err(f) && f == e,
    }
}

/// A fault of a front part is the fault of the whole.
proof fn lemma_scanned_fault(s: Seq<char>, radix: nat, n: int)
    requires
        0 <= n <= s.len(),
        scanned(s.take(n), radix) is Err,
    ensures
        scanned(s, radix) == scanned(s.take(n), radix),
    decreases s.len(),
{
    if n < s.len() {
        assert(s.drop_last().take(n) =~= s.take(n));
        lemma_scanned_fault(s.drop_last(), radix, n);
    } else {
        assert(s.take(n) =~= s);
    }
}

/// The component that `s` spells.
fn parse_component(s: &[char], radix: u64) -> (r: Result<u8, NumberFault>)
    requires
        2 <= radix <= 16,
    ensures
        agrees(r, component(s@, radix as nat)),
{
    if s.len() == 0 {
        return Err(NumberFault::Empty);
    }
    let start: usize = if s[0] == '+' {
        1
    } else {
        0
    };
    let ghost body = without_plus(s@);
    proof {
        assert(body =~= s@.skip(start as int));
    }
    if start == s.len() {
        return Err(NumberFault::NotDigit);
    }
    let mut v: u64 = 0;
    let mut i: usize = start;
    while i < s.len()
        invariant
            start <= i <= s.len(),
            2 <= radix <= 16,
            v <= 255,
            s@.len() > 0,
            body == without_plus(s@),
            body == s@.skip(start as int),
            body.len() > 0,
            scanned(body.take(i - start), radix as nat) == Ok::<nat, NumberFault>(v as nat),
        decreases s.len() - i,
    {
        proof {
            assert(body.take(i - start + 1).drop_last() =~= body.take(i - start));
            assert(body.take(i - start + 1).last() == s@[i as int]);
            assert(0 <= v * radix <= 255 * 16) by (nonlinear_arith)
                requires
                    0 <= v <= 255,
                    0 <= radix <= 16,
            ;
        }
        match value_of_digit(s[i], radix) {
            None => {
                proof {
                    lemma_scanned_fault(body, radix as nat, i - start + 1);
                }
                return Err(NumberFault::NotDigit);
            },
            Some(d) => {
                let next: u64 = v * radix + d;
                if next > 255 {
                    proof {
                        lemma_scanned_fault(body, radix as nat, i - start + 1);
                    }
                    return Err(NumberFault::TooLarge);
                }
                v = next;
            },
        }
        i = i + 1;
    }
    proof {
        assert(body.take(i - start) =~= body);
    }
    Ok(v as u8)
}

/// The fault of the first pairs is the fault of all.
proof fn lemma_hex_fault(s: Seq<char>, k: nat, n: nat)
    requires
        k <= n,
        hex_pairs(s, k) is Err,
    ensures
        hex_pairs(s, n) == hex_pairs(s, k),
    decreases n,
{
    if k < n {
        lemma_hex_fault(s, k, (n - 1) as nat);
    }
}

/// A component that is a number is made of characters of one byte each.
proof fn lemma_component_narrow(s: Seq<char>, radix: nat)
    requires
        radix <= 16,
        component(s, radix) is Ok,
    ensures
        forall|i: int| 0 <= i < s.len() ==> width(#[trigger] s[i]) == 1,
{
    let body: Seq<char> = without_plus(s);
    lemma_scanned_narrow(body, radix);
    assert forall|i: int| 0 <= i < s.len() implies width(#[trigger] s[i]) == 1 by {
        if s[0] == '+' {
            if i > 0 {
                assert(s[i] == body[i - 1]);
            }
        } else {
            assert(s[i] == body[i]);
        }
    }
}

/// Digits are characters of one byte each.
proof fn lemma_scanned_narrow(s: Seq<char>, radix: nat)
    requires
        radix <= 16,
        scanned(s, radix) is Ok,
    ensures
        forall|i: int| 0 <= i < s.len() ==> width(#[trigger] s[i]) == 1,
    decreases s.len(),
{
    if s.len() > 0 {
        lemma_scanned_narrow(s.drop_last(), radix);
        assert forall|i: int| 0 <= i < s.len() implies width(#[trigger] s[i]) == 1 by {
            if i < s.len() - 1 {
                assert(s[i] == s.drop_last()[i]);
            }
        }
    }
}

/// The bytes that `k` pairs of digits spell.
fn parse_pairs(s: &[char], k: usize) -> (r: Result<Vec<u8>, NumberFault>)
    requires
        byte_length(s@) == 2 * k,
        k <= 4,
    ensures
        match hex_pairs(s@, k as nat) {
            Ok(v) => r matches Ok(x) && x@.len() == k && v.len() == k && forall|i: int|
                0 <= i < k ==> #[trigger] x@[i] == v[i],
            Err(e) => r matches Err(f) && f == e,
        },
{
    let mut out: Vec<u8> = Vec::new();
    let mut i: usize = 0;
    while i < k
        invariant
            i <= k <= 4,
            byte_length(s@) == 2 * k,
            2 * i <= s@.len(),
            forall|j: int| 0 <= j < 2 * i ==> width(#[trigger] s@[j]) == 1,
            out@.len() == i,
            hex_pairs(s@, i as nat) is Ok,
            hex_pairs(s@, i as nat)->Ok_0.len() == i,
            forall|j: int| 0 <= j < i ==> #[trigger] out@[j] == hex_pairs(s@, i as nat)->Ok_0[j],
        decreases k - i,
    {
        let at: usize = 2 * i;
        proof {
            let rest = s@.skip(at as int);
            lemma_bytes_behind(s@, at as int);
            assert(rest.len() > 0);
            lemma_first_bytes(rest);
            if rest.len() == 1 {
                assert(rest.drop_first() =~= seq![]);
            }
        }
        let wide: bool = width_of(s[at]) >= 2;
        let pair: &[char] = if wide {
            slice_subrange(s, at, at + 1)
        } else {
            slice_subrange(s, at, at + 2)
        };
        proof {
            if wide {
                assert(pair@ =~= seq![s@[at as int]]);
            }
        }
        match parse_component(pair, 16) {
            Err(e) => {
                proof {
                    lemma_hex_fault(s@, (i + 1) as nat, k as nat);
                }
                return Err(e);
            },
            Ok(v) => {
                proof {
                    lemma_component_narrow(pair@, 16);
                    if wide {
                        assert(width(pair@[0]) == 1);
                    }
                    assert forall|j: int| 0 <= j < 2 * i + 2 implies width(#[trigger] s@[j]) == 1 by {
                        if j >= at {
                            assert(s@[j] == pair@[j - at]);
                        }
                    }
                }
                out.push(v);
            },
        }
        i = i + 1;
    }
    Ok(out)
}

/// The fault of the first components is the fault of all.
proof fn lemma_listed_fault(parts: Seq<Seq<char>>, k: nat, n: nat)
    requires
        k <= n,
        listed(parts, k) is Err,
    ensures
        listed(parts, n) == listed(parts, k),
    decreases n,
{
    if k < n {
        lemma_listed_fault(parts, k, (n - 1) as nat);
    }
}

/// The bytes that the components spell.
fn parse_list(parts: &Vec<Vec<char>>) -> (r: Result<Vec<u8>, NumberFault>)
    ensures
        match listed(views(parts@), parts@.len()) {
            Ok(v) => r matches Ok(x) && x@.len() == parts@.len() && v.len() == parts@.len()
                && forall|i: int| 0 <= i < v.len() ==> #[trigger] x@[i] == v[i],
            Err(e) => r matches Err(f) && f == e,
        },
{
    let mut out: Vec<u8> = Vec::new();
    let mut i: usize = 0;
    let ghost all = views(parts@);
    while i < parts.len()
        invariant
            i <= parts.len(),
            all == views(parts@),
            out@.len() == i,
            listed(all, i as nat) is Ok,
            listed(all, i as nat)->Ok_0.len() == i,
            forall|j: int| 0 <= j < i ==> #[trigger] out@[j] == listed(all, i as nat)->Ok_0[j],
        decreases parts.len() - i,
    {
        proof {
            assert(all[i as int] == parts@[i as int]@);
        }
        match parse_component(trim(parts[i].as_slice()), 10) {
            Err(e) => {
                proof {
                    lemma_listed_fault(all, (i + 1) as nat, parts@.len());
                }
                return Err(e);
            },
            Ok(v) => {
                out.push(v);
            },
        }
        i = i + 1;
    }
    Ok(out)
}

/// The body of a text of the form `head` ... `)`.
fn body_of(s: &[char], head: &str) -> (r: Option<Vec<char>>)
    ensures
        match r {
            Some(b) => call_body(s@, head@) == Some(b@),
            None => call_body(s@, head@) is None,
        },
{
    if !starts_with(s, head) {
        return None;
    }
    let n: usize = chars_of(head).len();
    let rest: &[char] = slice_subrange(s, n, s.len());
    proof {
        assert(rest@ =~= s@.skip(head@.len() as int));
        reveal_strlit(")");
        assert(")"@.len() == 1);
    }
    if !ends_with(rest, ")") {
        return None;
    }
    let inner: &[char] = slice_subrange(rest, 0, rest.len() - 1);
    proof {
        assert(inner@ =~= rest@.drop_last());
    }
    Some(crate::text::copy_chars(inner))
}

/// The colour of three or four bytes, or the fault.
fn color_of(v: Result<Vec<u8>, NumberFault>) -> (r: Result<OverlayColor, ColorError>)
    requires
        v matches Ok(x) ==> 3 <= x@.len() <= 4,
    ensures
        match v {
            Ok(x) => r matches Ok(c) && c.0[0] == x@[0] && c.0[1] == x@[1] && c.0[2] == x@[2]
                && c.0[3] == (if x@.len() > 3 {
                x@[3]
            } else {
                255u8
            }),
            Err(e) => r matches Err(ColorError::Component(f)) && f == e,
        },
{
    match v {
        Err(e) => Err(ColorError::Component(e)),
        Ok(x) => {
            let a: u8 = if x.len() > 3 {
                x[3]
            } else {
                255
            };
            Ok(OverlayColor([x[0], x[1], x[2], a]))
        },
    }
}

/// Reads a colour.
pub fn parse_color(text: &str) -> (r: Result<OverlayColor, ColorError>)
    ensures
        reads_as(text@, r),
{
    let cs = chars_of(text);
    let s: &[char] = trim(cs.as_slice());
    proof {
        reveal_strlit("#");
        assert("#"@.len() == 1);
    }
    if starts_with(s, "#") {
        let hex: &[char] = slice_subrange(s, 1, s.len());
        proof {
            assert(hex@ =~= s@.skip(1));
        }
        let n: usize = bytes_in(hex);
        if n == 6 || n == 8 {
            return color_of(parse_pairs(hex, n / 2));
        }
        return Err(ColorError::HexLength(n));
    }
    if let Some(inner) = body_of(s, "rgba(") {
        let parts = split(inner.as_slice(), ',');
        proof {
            assert(parts@.len() == pieces(inner@, ',').len());
        }
        if parts.len() != 4 {
            return Err(ColorError::RgbaParts(parts.len()));
        }
        return color_of(parse_list(&parts));
    }
    if let Some(inner) = body_of(s, "rgb(") {
        let parts = split(inner.as_slice(), ',');
        proof {
            assert(parts@.len() == pieces(inner@, ',').len());
        }
        if parts.len() != 3 {
            return Err(ColorError::RgbParts(parts.len()));
        }
        return color_of(parse_list(&parts));
    }
    Err(ColorError::Unknown(text_of(s)))
}

/// The digit of a value is read as the value.
proof fn lemma_digit_back(d: nat)
    requires
        d < 16,
    ensures
        digit_value(digit_char(d), 16) == Some(d),
        !white(digit_char(d)),
        width(digit_char(d)) == 1,
        digit_char(d) != '+',
{
}

/// The two digits of a byte are read as the byte.
proof fn lemma_hex_back(b: u8)
    ensures
        component(hex_of(b), 16) == Ok::<nat, NumberFault>(b as nat),
        hex_of(b).len() == 2,
        width(hex_of(b)[0]) == 1,
        width(hex_of(b)[1]) == 1,
        !white(hex_of(b)[1]),
{
    lemma_digit_back((b / 16) as nat);
    lemma_digit_back((b % 16) as nat);
    let s: Seq<char> = hex_of(b);
    assert(s.drop_last() =~= seq![s[0]]);
    assert(s.drop_last().drop_last() =~= seq![]);
    assert(scanned(s.drop_last().drop_last(), 16) == Ok::<nat, NumberFault>(0));
    assert(scanned(s.drop_last(), 16) == Ok::<nat, NumberFault>((b / 16) as nat));
}

/// Pairs of digits of bytes are read as the bytes.
proof fn lemma_pairs_back(hex: Seq<char>, bytes: Seq<u8>, k: nat)
    requires
        k <= bytes.len(),
        hex.len() == 2 * bytes.len(),
        forall|i: int|
            0 <= i < bytes.len() ==> hex.subrange(2 * i, 2 * i + 2) == hex_of(#[trigger] bytes[i]),
    ensures
        hex_pairs(hex, k) == Ok::<Seq<nat>, NumberFault>(
            Seq::new(k, |i: int| bytes[i] as nat),
        ),
    decreases k,
{
    if k == 0 {
        assert(Seq::new(0, |i: int| bytes[i] as nat) =~= Seq::<nat>::empty());
    } else {
        let h: nat = (k - 1) as nat;
        lemma_pairs_back(hex, bytes, h);
        let b: u8 = bytes[h as int];
        lemma_hex_back(b);
        let pair: Seq<char> = hex.subrange(2 * h as int, 2 * h as int + 2);
        assert(pair == hex_of(b));
        assert(hex[2 * h as int] == pair[0] && hex[2 * h as int + 1] == pair[1]);
        assert(Seq::new(h, |i: int| bytes[i] as nat).push(b as nat) =~= Seq::new(
            k,
            |i: int| bytes[i] as nat,
        ));
    }
}

/// The bytes that the text of a colour spells.
spec fn spelled(c: OverlayColor) -> Seq<u8> {
    if c.0[3] == 255 {
        seq![c.0[0], c.0[1], c.0[2]]
    } else {
        seq![c.0[0], c.0[1], c.0[2], c.0[3]]
    }
}

/// The text of a colour is a number sign and the digits of its bytes.
proof fn lemma_color_text_shape(c: OverlayColor)
    ensures
        ({
            let t: Seq<char> = color_text(c);
            let hex: Seq<char> = t.skip(1);
            let bytes: Seq<u8> = spelled(c);
            &&& trimmed(t) == t
            &&& begins(t, "#"@)
            &&& hex.len() == 2 * bytes.len()
            &&& byte_length(hex) == hex.len()
            &&& forall|i: int|
                0 <= i < bytes.len() ==> hex.subrange(2 * i, 2 * i + 2) == hex_of(
                    #[trigger] bytes[i],
                )
        }),
{
    let t: Seq<char> = color_text(c);
    let hex: Seq<char> = t.skip(1);
    let bytes: Seq<u8> = spelled(c);
    reveal_strlit("#");
    lemma_hex_back(c.0[0]);
    lemma_hex_back(c.0[1]);
    lemma_hex_back(c.0[2]);
    lemma_hex_back(c.0[3]);
    assert(t[0] == '#');
    assert(!white('#'));
    assert(!white(t.last()));
    assert("#"@ =~= seq!['#']);
    assert(t.subrange(0, 1) =~= "#"@);
    assert forall|i: int| 0 <= i < bytes.len() implies hex.subrange(2 * i, 2 * i + 2) == hex_of(
        #[trigger] bytes[i],
    ) by {
        assert(hex.subrange(2 * i, 2 * i + 2) =~= hex_of(bytes[i]));
    }
    assert forall|i: int| 0 <= i < hex.len() implies width(#[trigger] hex[i]) == 1 by {
        let b: u8 = bytes[i / 2];
        lemma_hex_back(b);
        assert(hex.subrange(2 * (i / 2), 2 * (i / 2) + 2) == hex_of(b));
        assert(hex[i] == hex.subrange(2 * (i / 2), 2 * (i / 2) + 2)[i % 2]);
    }
    lemma_ascii_length(hex);
}

/// The text of a colour is read as the colour.
pub proof fn lemma_color_text_read_back(c: OverlayColor, r: Result<OverlayColor, ColorError>)
    requires
        reads_as(color_text(c), r),
    ensures
        r matches Ok(d) && d.0@ == c.0@,
{
    let hex: Seq<char> = color_text(c).skip(1);
    let bytes: Seq<u8> = spelled(c);
    lemma_color_text_shape(c);
    lemma_pairs_back(hex, bytes, bytes.len());
    let v: Seq<nat> = Seq::new(bytes.len(), |i: int| bytes[i] as nat);
    assert(gives(r, Ok::<Seq<nat>, NumberFault>(v)));
    assert(v[0] == c.0[0] && v[1] == c.0[1] && v[2] == c.0[2]);
    if r is Ok {
        assert((r->Ok_0).0@ =~= c.0@);
    }
}

/// Characters of one byte each are as many bytes.
proof fn lemma_ascii_length(s: Seq<char>)
    requires
        forall|i: int| 0 <= i < s.len() ==> width(#[trigger] s[i]) == 1,
    ensures
        byte_length(s) == s.len(),
    decreases s.len(),
{
    if s.len() > 0 {
        assert forall|i: int| 0 <= i < s.drop_last().len() implies width(
            #[trigger] s.drop_last()[i],
        ) == 1 by {
            assert(width(s[i]) == 1);
        }
        lemma_ascii_length(s.drop_last());
        assert(width(s[s.len() - 1]) == 1);
    }
}

/// A component is the number that its digits spell, where that is at most 255.
pub proof fn lemma_component_is_its_number(s: Seq<char>, radix: nat)
    requires
        radix >= 2,
    ensures
        scanned(s, radix) is Ok <==> digits_value(s, radix) is Some && digits_value(s, radix)->0 <= 255,
        scanned(s, radix) is Ok ==> scanned(s, radix)->Ok_0 == digits_value(s, radix)->0,
    decreases s.len(),
{
    if s.len() > 0 {
        lemma_component_is_its_number(s.drop_last(), radix);
        if digits_value(s.drop_last(), radix) is Some {
            let v: nat = digits_value(s.drop_last(), radix)->0;
            assert(v * radix >= 2 * v) by (nonlinear_arith)
                requires
                    radix >= 2,
                    v >= 0,
            ;
        }
    }
}

/// A number sign and six digits are a colour: two digits each for red, green and
/// blue; eight digits have the alpha, which is 255 without them.
pub proof fn lemma_hex_color(hex: Seq<char>, r: Result<OverlayColor, ColorError>)
    requires
        hex.len() == 6 || hex.len() == 8,
        forall|i: int|
            0 <= i < hex.len() ==> digit_value(#[trigger] hex[i], 16) is Some,
        reads_as(seq!['#'] + hex, r),
    ensures
        r is Ok,
        (r->Ok_0).0[0] == 16 * digit_value(hex[0], 16)->0 + digit_value(hex[1], 16)->0,
        (r->Ok_0).0[1] == 16 * digit_value(hex[2], 16)->0 + digit_value(hex[3], 16)->0,
        (r->Ok_0).0[2] == 16 * digit_value(hex[4], 16)->0 + digit_value(hex[5], 16)->0,
        hex.len() == 6 ==> (r->Ok_0).0[3] == 255,
        hex.len() == 8 ==> (r->Ok_0).0[3] == 16 * digit_value(hex[6], 16)->0 + digit_value(
            hex[7],
            16,
        )->0,
{
    let text = seq!['#'] + hex;
    assert forall|i: int| 0 <= i < hex.len() implies !white(#[trigger] hex[i]) && width(hex[i])
        == 1 && hex[i] != '+' by {
        assert(digit_value(hex[i], 16) is Some);
    }
    assert(text[0] == '#');
    assert(text.last() == hex[hex.len() - 1]);
    assert(trimmed(text) == text) by {
        assert(crate::text::trim_front(text) == text);
        assert(crate::text::trim_back(text) == text);
    }
    reveal_strlit("#");
    assert(text.take(1) =~= "#"@);
    assert(begins(text, "#"@));
    assert(text.skip(1) =~= hex);
    lemma_ascii_length(hex);
    lemma_hex_pairs_of_digits(hex, hex.len() / 2);
}

/// Pairs of digits are the numbers that they spell.
proof fn lemma_hex_pairs_of_digits(hex: Seq<char>, k: nat)
    requires
        2 * k <= hex.len(),
        forall|i: int|
            0 <= i < hex.len() ==> digit_value(#[trigger] hex[i], 16) is Some && width(hex[i]) == 1
                && hex[i] != '+',
    ensures
        hex_pairs(hex, k) is Ok,
        (hex_pairs(hex, k)->Ok_0).len() == k,
        forall|i: int|
            0 <= i < k ==> #[trigger] (hex_pairs(hex, k)->Ok_0)[i] == 16 * digit_value(
                hex[2 * i],
                16,
            )->0 + digit_value(hex[2 * i + 1], 16)->0,
    decreases k,
{
    if k > 0 {
        let h: nat = (k - 1) as nat;
        lemma_hex_pairs_of_digits(hex, h);
        let at: int = 2 * h as int;
        let pair = hex.subrange(at, at + 2);
        assert(pair[0] == hex[at] && pair[1] == hex[at + 1]);
        assert(digit_value(hex[at], 16) is Some && digit_value(hex[at + 1], 16) is Some);
        let a: nat = digit_value(hex[at], 16)->0;
        let b: nat = digit_value(hex[at + 1], 16)->0;
        assert(without_plus(pair) == pair);
        let one = pair.drop_last();
        assert(one =~= seq![hex[at]]);
        assert(one.drop_last() =~= Seq::<char>::empty());
        assert(scanned(one.drop_last(), 16) == Ok::<nat, NumberFault>(0));
        assert(0 * 16 + a == a);
        assert(scanned(one, 16) == Ok::<nat, NumberFault>(a));
        assert(scanned(pair, 16) == Ok::<nat, NumberFault>(a * 16 + b));
        assert(component(pair, 16) == Ok::<nat, NumberFault>(a * 16 + b));
    }
}

/// The text of a colour spells red, green and blue in this order, two digits
/// each, and the alpha behind them unless it is 255.
pub proof fn lemma_color_is_spelled(c: OverlayColor)
    ensures
        color_text(c)[0] == '#',
        color_text(c).len() == if c.0[3] == 255 {
            7int
        } else {
            9int
        },
        digit_value(color_text(c)[1], 16) == Some((c.0[0] / 16) as nat),
        digit_value(color_text(c)[2], 16) == Some((c.0[0] % 16) as nat),
        digit_value(color_text(c)[3], 16) == Some((c.0[1] / 16) as nat),
        digit_value(color_text(c)[4], 16) == Some((c.0[1] % 16) as nat),
        digit_value(color_text(c)[5], 16) == Some((c.0[2] / 16) as nat),
        digit_value(color_text(c)[6], 16) == Some((c.0[2] % 16) as nat),
        c.0[3] != 255 ==> digit_value(color_text(c)[7], 16) == Some((c.0[3] / 16) as nat)
            && digit_value(color_text(c)[8], 16) == Some((c.0[3] % 16) as nat),
{
}

/// A colour of three or four components in brackets has them in their order.
pub proof fn lemma_listed_components(parts: Seq<Seq<char>>, k: nat)
    requires
        k <= parts.len(),
        listed(parts, k) is Ok,
    ensures
        (listed(parts, k)->Ok_0).len() == k,
        forall|i: int| #![trigger parts[i]]
            0 <= i < k ==> component(trimmed(parts[i]), 10) == Ok::<nat, NumberFault>(
                (listed(parts, k)->Ok_0)[i],
            ),
    decreases k,
{
    if k > 0 {
        lemma_listed_components(parts, (k - 1) as nat);
    }
}

} // verus!
