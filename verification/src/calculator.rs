//! Rows of a window: indicators evaluated over a frame.
use vstd::arithmetic::power2::{lemma_pow2_adds, lemma_pow2_pos, pow2};
use vstd::prelude::*;

use crate::arith::parts;
use crate::defs::{IndicatorDef, RenderStyle, Threshold};
use crate::fixed::fixed;
use crate::expression::{lemma_name_is_short, plain_name, short};
use crate::formula::{can_be, eval_formula, lacks_variable, patterns, portable, reads, surely_float};
use crate::num::{finite, less, magnitude, same, unsigned, Num};
use crate::syntax::syntax_error;
use crate::table::{RawFrame, StringFrame};
use crate::text::{decimal, decimal_chars, push_chars, push_two_digits, same_text, text_of, two_digits};

verus! {

/// One row as it is shown.
#[derive(Debug)]
pub struct DisplayRow {
    pub label: String,
    pub value_str: String,
    pub unit: String,
    /// One of the colour tokens.
    pub color: String,
    /// The colours of the row, where it has its own.
    pub style: Option<RenderStyle>,
}

/// The contents of a row.
pub struct RowView {
    pub label: Seq<char>,
    pub value: Seq<char>,
    pub unit: Seq<char>,
    pub color: Seq<char>,
    pub style: Option<RenderStyle>,
}

impl View for DisplayRow {
    type V = RowView;

    open spec fn view(&self) -> RowView {
        RowView {
            label: self.label@,
            value: self.value_str@,
            unit: self.unit@,
            color: self.color@,
            style: self.style,
        }
    }
}

impl Clone for DisplayRow {
    fn clone(&self) -> (r: Self)
        ensures
            r@ == self@,
    {
        DisplayRow {
            label: self.label.clone(),
            value_str: self.value_str.clone(),
            unit: self.unit.clone(),
            color: self.color.clone(),
            style: self.style,
        }
    }
}

/// The contents of rows.
pub open spec fn row_views(rows: Seq<DisplayRow>) -> Seq<RowView> {
    rows.map_values(|r: DisplayRow| r@)
}

/// The whole part of the finite number `b` that is not negative, as far as it
/// fits 64 bits.
pub open spec fn whole_part(b: u64) -> nat {
    let v: nat = magnitude(unsigned(b)) / pow2(1074);
    if v > u64::MAX {
        u64::MAX as nat
    } else {
        v
    }
}

/// `total` seconds as hours, minutes and seconds; the hours where there are any.
pub open spec fn clock_text(total: nat) -> Seq<char> {
    let h: nat = total / 3600;
    let m: nat = (total % 3600) / 60;
    let s: nat = total % 60;
    if h > 0 {
        decimal(h) + seq![':'] + two_digits(m) + seq![':'] + two_digits(s)
    } else {
        decimal(m) + seq![':'] + two_digits(s)
    }
}

/// A value in the format that `fmt` names; an unknown name gives whole numbers.
pub open spec fn formatted(b: u64, fmt: Seq<char>) -> Seq<char> {
    if fmt == "decimal1"@ {
        fixed(b, 1, false)
    } else if fmt == "decimal2"@ {
        fixed(b, 2, false)
    } else if fmt == "+decimal1"@ {
        fixed(b, 1, true)
    } else if fmt == "+decimal2"@ {
        fixed(b, 2, true)
    } else if fmt == "time"@ {
        if !finite(b) || less(b, 0) {
            "--:--"@
        } else {
            clock_text(whole_part(b))
        }
    } else {
        fixed(b, 0, false)
    }
}

impl Num {
    /// The whole part of a finite number, as far as it fits 64 bits.
    pub fn whole_part(self) -> (r: u64)
        requires
            finite(self.bits),
        ensures
            r == whole_part(self.bits),
    {
        let m: u64 = self.unsigned_bits();
        let (frac, shift) = parts(m);
        let ghost unit: nat = pow2(1074);
        let ghost mag: nat = magnitude(m as nat);
        proof {
            lemma_pow2_pos(1074);
            lemma_pow2_pos(shift as nat);
        }
        if shift >= 1074 {
            let mut v: u64 = frac;
            let mut i: u32 = 1074;
            proof {
                lemma_pow2_adds(1074, (shift - 1074) as nat);
                let p: int = pow2((shift - 1074) as nat) as int;
                assert(mag == (frac * p) * unit + 0) by (nonlinear_arith)
                    requires
                        mag == frac * pow2(shift as nat),
                        pow2(shift as nat) == unit * p,
                ;
                vstd::arithmetic::div_mod::lemma_fundamental_div_mod_converse(
                    mag as int,
                    unit as int,
                    frac * p,
                    0,
                );
                vstd::arithmetic::power2::lemma2_to64();
                assert(frac * 1 == frac);
            }
            while i < shift
                invariant
                    1074 <= i <= shift,
                    v == frac * pow2((i - 1074) as nat),
                    mag / unit == frac * pow2((shift - 1074) as nat),
                    whole_part(self.bits) == (if mag / unit > u64::MAX {
                        u64::MAX as nat
                    } else {
                        mag / unit
                    }),
                decreases shift - i,
            {
                proof {
                    vstd::arithmetic::power2::lemma_pow2_unfold((i + 1 - 1074) as nat);
                    let p: int = pow2((i - 1074) as nat) as int;
                    assert(frac * (2 * p) == 2 * (frac * p)) by (nonlinear_arith);
                    lemma_pow2_adds((i + 1 - 1074) as nat, (shift - i - 1) as nat);
                    lemma_pow2_pos((shift - i - 1) as nat);
                    let q: int = pow2((i + 1 - 1074) as nat) as int;
                    let rest: int = pow2((shift - i - 1) as nat) as int;
                    assert(frac * (q * rest) >= frac * q) by (nonlinear_arith)
                        requires
                            rest >= 1,
                            frac >= 0,
                            q >= 0,
                    ;
                }
                if v > u64::MAX / 2 {
                    return u64::MAX;
                }
                v = v * 2;
                i = i + 1;
            }
            v
        } else {
            let mut v: u64 = frac;
            let mut i: u32 = shift;
            proof {
                vstd::arithmetic::power2::lemma2_to64();
                assert(frac / 1 == frac);
            }
            while i < 1074
                invariant
                    shift <= i <= 1074,
                    v == frac as nat / pow2((i - shift) as nat),
                decreases 1074 - i,
            {
                proof {
                    vstd::arithmetic::power2::lemma_pow2_unfold((i + 1 - shift) as nat);
                    lemma_pow2_pos((i - shift) as nat);
                    vstd::arithmetic::div_mod::lemma_div_denominator(
                        frac as int,
                        pow2((i - shift) as nat) as int,
                        2,
                    );
                    let p: int = pow2((i - shift) as nat) as int;
                    assert(p * 2 == 2 * p);
                }
                v = v / 2;
                i = i + 1;
            }
            proof {
                lemma_pow2_adds((1074 - shift) as nat, shift as nat);
                lemma_pow2_pos((1074 - shift) as nat);
                vstd::arithmetic::div_mod::lemma_div_multiples_vanish_quotient(
                    pow2(shift as nat) as int,
                    frac as int,
                    pow2((1074 - shift) as nat) as int,
                );
                let p: int = pow2(shift as nat) as int;
                let q: int = pow2((1074 - shift) as nat) as int;
                assert(p * frac == frac * p) by (nonlinear_arith);
                assert(p * q == q * p) by (nonlinear_arith);
            }
            v
        }
    }
}

/// A value in the format that `fmt` names.
pub fn format_value(v: Num, fmt: &str) -> (r: String)
    ensures
        r@ == formatted(v.bits, fmt@),
{
    if same_text(fmt, "decimal1") {
        v.to_fixed(1, false)
    } else if same_text(fmt, "decimal2") {
        v.to_fixed(2, false)
    } else if same_text(fmt, "+decimal1") {
        v.to_fixed(1, true)
    } else if same_text(fmt, "+decimal2") {
        v.to_fixed(2, true)
    } else if same_text(fmt, "time") {
        if !v.is_finite() || v.lt(Num { bits: 0 }) {
            return "--:--".to_string();
        }
        let total: u64 = v.whole_part();
        let h: u64 = total / 3600;
        let m: u64 = (total % 3600) / 60;
        let s: u64 = total % 60;
        let mut out: Vec<char> = Vec::new();
        if h > 0 {
            let d = decimal_chars(h);
            push_chars(&mut out, d.as_slice());
            out.push(':');
            push_two_digits(&mut out, m);
        } else {
            let d = decimal_chars(m);
            push_chars(&mut out, d.as_slice());
        }
        out.push(':');
        push_two_digits(&mut out, s);
        proof {
            assert(out@ =~= clock_text(total as nat));
        }
        text_of(out.as_slice())
    } else {
        v.to_fixed(0, false)
    }
}

/// The levels of an indicator, each where it is known.
#[derive(Clone, Copy)]
pub struct Levels {
    pub crit_above: Option<Num>,
    pub crit_below: Option<Num>,
    pub warn_below: Option<Num>,
    pub warn_above: Option<Num>,
    pub good_above: Option<Num>,
    pub good_below: Option<Num>,
}

/// Whether `v` exceeds a level that is known.
pub open spec fn over(v: u64, level: Option<Num>) -> bool {
    level is Some && less(level->0.bits, v)
}

/// Whether `v` falls short of a level that is known.
pub open spec fn under(v: u64, level: Option<Num>) -> bool {
    level is Some && less(v, level->0.bits)
}

/// The colour token of a value: the fixed one, or that of the first level that
/// it passes, critical ones first.
pub open spec fn token(v: u64, fixed_color: Option<String>, l: Levels) -> Seq<char> {
    match fixed_color {
        Some(c) => c@,
        None => if over(v, l.crit_above) || under(v, l.crit_below) {
            "crit"@
        } else if under(v, l.warn_below) || over(v, l.warn_above) {
            "warn"@
        } else if over(v, l.good_above) || under(v, l.good_below) {
            "good"@
        } else {
            "value"@
        },
    }
}

fn exceeds(v: Num, level: Option<Num>) -> (r: bool)
    ensures
        r == over(v.bits, level),
{
    match level {
        Some(t) => t.lt(v),
        None => false,
    }
}

fn falls_short(v: Num, level: Option<Num>) -> (r: bool)
    ensures
        r == under(v.bits, level),
{
    match level {
        Some(t) => v.lt(t),
        None => false,
    }
}

/// The colour token of the value `v` of an indicator with the levels `l`.
pub fn resolve_color(v: Num, ind: &IndicatorDef, l: &Levels) -> (r: String)
    ensures
        r@ == token(v.bits, ind.color, *l),
{
    if let Some(c) = &ind.color {
        return c.clone();
    }
    if exceeds(v, l.crit_above) {
        return "crit".to_string();
    }
    if falls_short(v, l.crit_below) {
        return "crit".to_string();
    }
    if falls_short(v, l.warn_below) {
        return "warn".to_string();
    }
    if exceeds(v, l.warn_above) {
        return "warn".to_string();
    }
    if exceeds(v, l.good_above) {
        return "good".to_string();
    }
    if falls_short(v, l.good_below) {
        return "good".to_string();
    }
    "value".to_string()
}

/// What the evaluations of one indicator gave.
#[derive(Clone, Copy)]
pub struct Outcome {
    /// The condition, where the indicator has one and it has a value.
    pub shown: Option<Num>,
    /// The value.
    pub value: Option<Num>,
    pub levels: Levels,
}

/// Whether an indicator is shown: it has no condition, or the condition is
/// known and not zero.
pub open spec fn visible(ind: IndicatorDef, shown: Option<Num>) -> bool {
    ind.show_when is None || (shown is Some && !same(shown->0.bits, 0))
}

/// The row of an indicator: nothing while it is hidden; a text field as it is;
/// a value in its format and colour; nothing where the formula has no value.
pub open spec fn row_of(ind: IndicatorDef, o: Outcome, texts: Map<Seq<char>, String>) -> Option<
    RowView,
> {
    if !visible(ind, o.shown) {
        None
    } else if texts.contains_key(ind.formula@) {
        Some(
            RowView {
                label: ind.label@,
                value: texts[ind.formula@]@,
                unit: ind.unit@,
                color: match ind.color {
                    Some(c) => c@,
                    None => "info"@,
                },
                style: ind.style,
            },
        )
    } else {
        match o.value {
            Some(v) => Some(
                RowView {
                    label: ind.label@,
                    value: formatted(v.bits, ind.format@),
                    unit: ind.unit@,
                    color: token(v.bits, ind.color, o.levels),
                    style: ind.style,
                },
            ),
            None => None,
        }
    }
}

/// The row of an indicator, given what its evaluations gave.
pub fn display_row(ind: &IndicatorDef, o: &Outcome, texts: &StringFrame) -> (r: Option<DisplayRow>)
    ensures
        match row_of(*ind, *o, texts@) {
            Some(v) => r is Some && r->0@ == v,
            None => r is None,
        },
{
    if ind.show_when.is_some() {
        match o.shown {
            Some(v) => {
                if v.equals(Num { bits: 0 }) {
                    return None;
                }
            },
            None => {
                return None;
            },
        }
    }
    if let Some(s) = texts.get(ind.formula.as_str()) {
        let color: String = match &ind.color {
            Some(c) => c.clone(),
            None => "info".to_string(),
        };
        return Some(
            DisplayRow {
                label: ind.label.clone(),
                value_str: s.clone(),
                unit: ind.unit.clone(),
                color,
                style: ind.style,
            },
        );
    }
    match o.value {
        None => None,
        Some(v) => Some(
            DisplayRow {
                label: ind.label.clone(),
                value_str: format_value(v, ind.format.as_str()),
                unit: ind.unit.clone(),
                color: resolve_color(v, ind, &o.levels),
                style: ind.style,
            },
        ),
    }
}

/// Whether evaluating an optional level can give `r`.
pub open spec fn level_can_be(
    t: Option<Threshold>,
    names: Map<Seq<char>, u64>,
    r: Option<Num>,
) -> bool {
    match t {
        None => r is None,
        Some(Threshold::Fixed(v)) => r == Some(v),
        Some(Threshold::Formula(text)) => can_be(text@, names, r),
    }
}

/// Whether the evaluations of an indicator can give `o`.
pub open spec fn outcome_can_be(
    ind: IndicatorDef,
    names: Map<Seq<char>, u64>,
    o: Outcome,
) -> bool {
    &&& match ind.show_when {
        Some(text) => can_be(text@, names, o.shown),
        None => o.shown is None,
    }
    &&& can_be(ind.formula@, names, o.value)
    &&& level_can_be(ind.crit_above, names, o.levels.crit_above)
    &&& level_can_be(ind.crit_below, names, o.levels.crit_below)
    &&& level_can_be(ind.warn_below, names, o.levels.warn_below)
    &&& level_can_be(ind.warn_above, names, o.levels.warn_above)
    &&& level_can_be(ind.good_above, names, o.levels.good_above)
    &&& level_can_be(ind.good_below, names, o.levels.good_below)
}

/// Whether the evaluations of the indicators can give `o`, one each.
pub open spec fn outcomes_can_be(
    inds: Seq<IndicatorDef>,
    names: Map<Seq<char>, u64>,
    o: Seq<Outcome>,
) -> bool {
    &&& o.len() == inds.len()
    &&& forall|i: int| 0 <= i < inds.len() ==> outcome_can_be(inds[i], names, #[trigger] o[i])
}

/// The rows of the indicators that have one, in their order.
pub open spec fn rows_of(
    inds: Seq<IndicatorDef>,
    o: Seq<Outcome>,
    texts: Map<Seq<char>, String>,
) -> Seq<RowView>
    decreases inds.len(),
{
    if inds.len() == 0 {
        seq![]
    } else {
        let front: Seq<RowView> = rows_of(inds.drop_last(), o.drop_last(), texts);
        match row_of(inds.last(), o.last(), texts) {
            Some(row) => front.push(row),
            None => front,
        }
    }
}

/// Whether `rows` can be the rows of the indicators over a frame.
pub open spec fn rows_can_be(
    inds: Seq<IndicatorDef>,
    frame: Map<Seq<char>, Num>,
    texts: Map<Seq<char>, String>,
    rows: Seq<RowView>,
) -> bool {
    exists|o: Seq<Outcome>|
        #[trigger] outcomes_can_be(inds, patterns(frame), o) && rows == rows_of(inds, o, texts)
}

impl Threshold {
    /// The level over the fields of `frame`.
    pub fn eval(&self, frame: &RawFrame) -> (r: Option<Num>)
        ensures
            level_can_be(Some(*self), patterns(frame@), r),
    {
        match self {
            Threshold::Fixed(v) => Some(*v),
            Threshold::Formula(text) => eval_formula(text.as_str(), frame),
        }
    }
}

/// An optional level over the fields of `frame`.
fn eval_level(t: &Option<Threshold>, frame: &RawFrame) -> (r: Option<Num>)
    ensures
        level_can_be(*t, patterns(frame@), r),
{
    match t {
        Some(level) => level.eval(frame),
        None => None,
    }
}

/// Evaluates an indicator over `frame`.
fn outcome_of(ind: &IndicatorDef, frame: &RawFrame) -> (o: Outcome)
    ensures
        outcome_can_be(*ind, patterns(frame@), o),
{
    let shown: Option<Num> = match &ind.show_when {
        Some(text) => eval_formula(text.as_str(), frame),
        None => None,
    };
    Outcome {
        shown,
        value: eval_formula(ind.formula.as_str(), frame),
        levels: Levels {
            crit_above: eval_level(&ind.crit_above, frame),
            crit_below: eval_level(&ind.crit_below, frame),
            warn_below: eval_level(&ind.warn_below, frame),
            warn_above: eval_level(&ind.warn_above, frame),
            good_above: eval_level(&ind.good_above, frame),
            good_below: eval_level(&ind.good_below, frame),
        },
    }
}

/// The indicators of one window.
pub struct Calculator {
    indicators: Vec<IndicatorDef>,
}

impl View for Calculator {
    type V = Seq<IndicatorDef>;

    closed spec fn view(&self) -> Seq<IndicatorDef> {
        self.indicators@
    }
}

impl Calculator {
    /// A calculator for `indicators`.
    pub fn new(indicators: Vec<IndicatorDef>) -> (r: Self)
        ensures
            r@ == indicators@,
    {
        Calculator { indicators }
    }

    /// The rows of the indicators over the fields of `frame` and the texts of
    /// `sframe`.
    pub fn evaluate(&self, frame: &RawFrame, sframe: &StringFrame) -> (rows: Vec<DisplayRow>)
        ensures
            rows_can_be(self@, frame@, sframe@, row_views(rows@)),
    {
        let mut rows: Vec<DisplayRow> = Vec::new();
        let ghost mut o: Seq<Outcome> = seq![];
        let ghost inds = self.indicators@;
        let mut i: usize = 0;
        proof {
            assert(row_views(rows@) =~= seq![]);
        }
        while i < self.indicators.len()
            invariant
                i <= inds.len(),
                inds == self.indicators@,
                outcomes_can_be(inds.take(i as int), patterns(frame@), o),
                row_views(rows@) == rows_of(inds.take(i as int), o, sframe@),
            decreases inds.len() - i,
        {
            let ind: &IndicatorDef = &self.indicators[i];
            let out = outcome_of(ind, frame);
            let ghost before = row_views(rows@);
            proof {
                assert(inds.take(i as int + 1).drop_last() =~= inds.take(i as int));
                assert(o.push(out).drop_last() =~= o);
                assert forall|j: int| 0 <= j < i + 1 implies outcome_can_be(
                    inds.take(i as int + 1)[j],
                    patterns(frame@),
                    #[trigger] o.push(out)[j],
                ) by {
                    if j < i {
                        assert(o.push(out)[j] == o[j]);
                        assert(inds.take(i as int)[j] == inds[j]);
                    }
                }
                o = o.push(out);
            }
            if let Some(row) = display_row(ind, &out, sframe) {
                rows.push(row);
                proof {
                    assert(row_views(rows@) =~= before.push(row@));
                }
            }
            i = i + 1;
        }
        proof {
            assert(inds.take(i as int) =~= inds);
        }
        rows
    }
}

/// Whether an optional text is the same on every machine.
pub open spec fn level_portable(t: Option<Threshold>) -> bool {
    match t {
        Some(Threshold::Formula(text)) => portable(text@),
        _ => true,
    }
}

/// Whether every formula of an indicator is the same on every machine.
pub open spec fn indicator_portable(ind: IndicatorDef) -> bool {
    &&& ind.show_when is Some ==> portable((ind.show_when->0)@)
    &&& portable(ind.formula@)
    &&& level_portable(ind.crit_above)
    &&& level_portable(ind.crit_below)
    &&& level_portable(ind.warn_below)
    &&& level_portable(ind.warn_above)
    &&& level_portable(ind.good_above)
    &&& level_portable(ind.good_below)
}

/// The rows of indicators whose formulas are the same on every machine are
/// determined by the fields and the texts.
pub proof fn lemma_rows_determined(
    inds: Seq<IndicatorDef>,
    frame: Map<Seq<char>, Num>,
    texts: Map<Seq<char>, String>,
    a: Seq<RowView>,
    b: Seq<RowView>,
)
    requires
        forall|i: int| 0 <= i < inds.len() ==> indicator_portable(#[trigger] inds[i]),
        rows_can_be(inds, frame, texts, a),
        rows_can_be(inds, frame, texts, b),
    ensures
        a == b,
{
    let names: Map<Seq<char>, u64> = patterns(frame);
    let o: Seq<Outcome> = choose|o: Seq<Outcome>|
        #[trigger] outcomes_can_be(inds, names, o) && a == rows_of(inds, o, texts);
    let p: Seq<Outcome> = choose|p: Seq<Outcome>|
        #[trigger] outcomes_can_be(inds, names, p) && b == rows_of(inds, p, texts);
    assert forall|i: int| 0 <= i < inds.len() implies o[i] == p[i] by {
        assert(indicator_portable(inds[i]));
        assert(outcome_can_be(inds[i], names, o[i]));
        assert(outcome_can_be(inds[i], names, p[i]));
    }
    assert(o =~= p);
}

/// Each indicator gives at most one row.
pub proof fn lemma_no_more_rows(
    inds: Seq<IndicatorDef>,
    o: Seq<Outcome>,
    texts: Map<Seq<char>, String>,
)
    requires
        o.len() == inds.len(),
    ensures
        rows_of(inds, o, texts).len() <= inds.len(),
    decreases inds.len(),
{
    if inds.len() > 0 {
        lemma_no_more_rows(inds.drop_last(), o.drop_last(), texts);
    }
}

/// The rows of two lists of indicators, one behind the other, are the rows of
/// the first and then those of the second: an indicator's row does not depend
/// on the others.
pub proof fn lemma_rows_joined(
    a: Seq<IndicatorDef>,
    b: Seq<IndicatorDef>,
    frame: Map<Seq<char>, Num>,
    texts: Map<Seq<char>, String>,
    rows: Seq<RowView>,
)
    ensures
        rows_can_be(a + b, frame, texts, rows) <==> exists|first: Seq<RowView>, second: Seq<RowView>|
            #[trigger] rows_can_be(a, frame, texts, first) && #[trigger] rows_can_be(
                b,
                frame,
                texts,
                second,
            ) && rows == first + second,
{
    let names: Map<Seq<char>, u64> = patterns(frame);
    if rows_can_be(a + b, frame, texts, rows) {
        let o: Seq<Outcome> = choose|o: Seq<Outcome>|
            #[trigger] outcomes_can_be(a + b, names, o) && rows == rows_of(a + b, o, texts);
        let p = o.take(a.len() as int);
        let q = o.skip(a.len() as int);
        assert(o =~= p + q);
        assert forall|i: int| 0 <= i < a.len() implies outcome_can_be(
            a[i],
            names,
            #[trigger] p[i],
        ) by {
            assert(p[i] == o[i] && (a + b)[i] == a[i]);
        }
        assert forall|i: int| 0 <= i < b.len() implies outcome_can_be(
            b[i],
            names,
            #[trigger] q[i],
        ) by {
            assert(q[i] == o[i + a.len()] && (a + b)[i + a.len()] == b[i]);
        }
        lemma_rows_of_joined(a, b, p, q, texts);
        assert(outcomes_can_be(a, names, p));
        assert(outcomes_can_be(b, names, q));
        assert(rows_can_be(a, frame, texts, rows_of(a, p, texts)));
        assert(rows_can_be(b, frame, texts, rows_of(b, q, texts)));
    }
    assert forall|first: Seq<RowView>, second: Seq<RowView>| #[trigger]
        rows_can_be(a, frame, texts, first) && #[trigger] rows_can_be(b, frame, texts, second)
            && rows == first + second implies rows_can_be(a + b, frame, texts, rows) by {
        let p: Seq<Outcome> = choose|p: Seq<Outcome>|
            #[trigger] outcomes_can_be(a, names, p) && first == rows_of(a, p, texts);
        let q: Seq<Outcome> = choose|q: Seq<Outcome>|
            #[trigger] outcomes_can_be(b, names, q) && second == rows_of(b, q, texts);
        lemma_rows_of_joined(a, b, p, q, texts);
        let o = p + q;
        assert forall|i: int| 0 <= i < (a + b).len() implies outcome_can_be(
            (a + b)[i],
            names,
            #[trigger] o[i],
        ) by {
            if i < a.len() {
                assert(o[i] == p[i] && (a + b)[i] == a[i]);
            } else {
                assert(o[i] == q[i - a.len()] && (a + b)[i] == b[i - a.len()]);
            }
        }
        assert(outcomes_can_be(a + b, names, o));
    }
}

/// The rows of two lists, given what their evaluations gave.
proof fn lemma_rows_of_joined(
    a: Seq<IndicatorDef>,
    b: Seq<IndicatorDef>,
    p: Seq<Outcome>,
    q: Seq<Outcome>,
    texts: Map<Seq<char>, String>,
)
    requires
        p.len() == a.len(),
        q.len() == b.len(),
    ensures
        rows_of(a + b, p + q, texts) == rows_of(a, p, texts) + rows_of(b, q, texts),
    decreases b.len(),
{
    if b.len() == 0 {
        assert(a + b =~= a);
        assert(p + q =~= p);
        assert(rows_of(a, p, texts) + rows_of(b, q, texts) =~= rows_of(a, p, texts));
    } else {
        lemma_rows_of_joined(a, b.drop_last(), p, q.drop_last(), texts);
        assert((a + b).drop_last() =~= a + b.drop_last());
        assert((p + q).drop_last() =~= p + q.drop_last());
        assert((a + b).last() == b.last());
        assert((p + q).last() == q.last());
        assert(rows_of(a + b, p + q, texts) =~= rows_of(a, p, texts) + rows_of(b, q, texts));
    }
}

/// One indicator gives one row, or none. It gives none exactly where its
/// condition hides it, or its formula is neither the name of a text nor has a
/// value.
pub proof fn lemma_one_row(
    ind: IndicatorDef,
    frame: Map<Seq<char>, Num>,
    texts: Map<Seq<char>, String>,
    rows: Seq<RowView>,
)
    ensures
        rows_can_be(seq![ind], frame, texts, rows) <==> exists|o: Outcome|
            #[trigger] outcome_can_be(ind, patterns(frame), o) && if visible(ind, o.shown) && (
            texts.contains_key(ind.formula@) || o.value is Some) {
                row_of(ind, o, texts) is Some && rows == seq![row_of(ind, o, texts)->0]
            } else {
                rows == Seq::<RowView>::empty()
            },
{
    let names: Map<Seq<char>, u64> = patterns(frame);
    let one = seq![ind];
    assert forall|o: Seq<Outcome>| #[trigger] outcomes_can_be(one, names, o) implies rows_of(
        one,
        o,
        texts,
    ) == single_row(ind, o[0], texts) && outcome_can_be(ind, names, o[0]) by {
        assert(outcome_can_be(one[0], names, o[0]));
        assert(one.drop_last() =~= Seq::<IndicatorDef>::empty());
        assert(rows_of(one.drop_last(), o.drop_last(), texts) =~= Seq::<RowView>::empty());
        assert(o.last() == o[0] && one.last() == ind);
        assert(rows_of(one, o, texts) =~= single_row(ind, o[0], texts));
    }
    assert forall|o: Outcome| #[trigger] outcome_can_be(ind, names, o) implies outcomes_can_be(
        one,
        names,
        seq![o],
    ) by {}
    if rows_can_be(one, frame, texts, rows) {
        let o: Seq<Outcome> = choose|o: Seq<Outcome>|
            #[trigger] outcomes_can_be(one, names, o) && rows == rows_of(one, o, texts);
        assert(outcome_can_be(ind, names, o[0]));
    }
    if exists|o: Outcome| #[trigger]
        outcome_can_be(ind, names, o) && rows == single_row(ind, o, texts) {
        let o: Outcome = choose|o: Outcome| #[trigger]
            outcome_can_be(ind, names, o) && rows == single_row(ind, o, texts);
        assert(outcomes_can_be(one, names, seq![o]));
        assert(seq![o][0] == o);
    }
}

/// The row of one indicator, where it has one.
spec fn single_row(ind: IndicatorDef, o: Outcome, texts: Map<Seq<char>, String>) -> Seq<RowView> {
    match row_of(ind, o, texts) {
        Some(row) => seq![row],
        None => seq![],
    }
}

/// An indicator whose formula is no expression, nor the name of a text, gives
/// no row.
pub proof fn lemma_broken_formula_hides(
    ind: IndicatorDef,
    frame: Map<Seq<char>, Num>,
    texts: Map<Seq<char>, String>,
    rows: Seq<RowView>,
)
    requires
        rows_can_be(seq![ind], frame, texts, rows),
        syntax_error(ind.formula@) is Some,
        !texts.contains_key(ind.formula@),
    ensures
        rows.len() == 0,
{
    lemma_one_row(ind, frame, texts, rows);
}

/// A fixed colour is the colour, whatever the value and the levels.
pub proof fn lemma_fixed_color_wins(v: u64, c: String, l: Levels)
    ensures
        token(v, Some(c), l) == c@,
{
}

/// A critical value is shown as critical, whatever the other levels say, and a
/// warning comes before the good.
pub proof fn lemma_color_priority(v: u64, l: Levels)
    ensures
        over(v, l.crit_above) || under(v, l.crit_below) ==> token(v, None, l) == "crit"@,
        !over(v, l.crit_above) && !under(v, l.crit_below) && (under(v, l.warn_below) || over(
            v,
            l.warn_above,
        )) ==> token(v, None, l) == "warn"@,
{
}

/// An indicator whose formula is the name of a field shows the field.
pub proof fn lemma_field_is_shown(
    ind: IndicatorDef,
    frame: Map<Seq<char>, Num>,
    texts: Map<Seq<char>, String>,
    o: Outcome,
)
    requires
        outcome_can_be(ind, patterns(frame), o),
        visible(ind, o.shown),
        plain_name(ind.formula@),
        frame.contains_key(ind.formula@),
        !crate::num::nan(frame[ind.formula@].bits),
        !texts.contains_key(ind.formula@),
    ensures
        row_of(ind, o, texts) is Some,
        (row_of(ind, o, texts)->0).value == formatted(frame[ind.formula@].bits, ind.format@),
{
    lemma_name_is_short(ind.formula@);
    assert(patterns(frame).contains_key(ind.formula@));
    assert(patterns(frame)[ind.formula@] == frame[ind.formula@].bits);
}

/// An indicator whose formula speaks of a field that is not there is hidden,
/// unless the formula is the name of a text.
pub proof fn lemma_unknown_field_hides(
    ind: IndicatorDef,
    frame: Map<Seq<char>, Num>,
    texts: Map<Seq<char>, String>,
    rows: Seq<RowView>,
)
    requires
        rows_can_be(seq![ind], frame, texts, rows),
        lacks_variable(ind.formula@, patterns(frame)),
        !texts.contains_key(ind.formula@),
    ensures
        rows.len() == 0,
{
    lemma_one_row(ind, frame, texts, rows);
}

/// An indicator whose condition speaks of a field that is not there is hidden.
pub proof fn lemma_unknown_condition_hides(
    ind: IndicatorDef,
    frame: Map<Seq<char>, Num>,
    texts: Map<Seq<char>, String>,
    rows: Seq<RowView>,
)
    requires
        rows_can_be(seq![ind], frame, texts, rows),
        ind.show_when is Some,
        lacks_variable((ind.show_when->0)@, patterns(frame)),
    ensures
        rows.len() == 0,
{
    lemma_one_row(ind, frame, texts, rows);
}

/// An indicator whose condition is the name of a field is shown exactly where
/// the field is there and not zero.
pub proof fn lemma_condition_is_a_field(
    ind: IndicatorDef,
    frame: Map<Seq<char>, Num>,
    o: Outcome,
)
    requires
        outcome_can_be(ind, patterns(frame), o),
        ind.show_when is Some,
        plain_name((ind.show_when->0)@),
        frame.contains_key((ind.show_when->0)@) ==> !crate::num::nan(
            frame[(ind.show_when->0)@].bits,
        ),
    ensures
        visible(ind, o.shown) <==> frame.contains_key((ind.show_when->0)@) && !same(
            frame[(ind.show_when->0)@].bits,
            0,
        ),
{
    let name = (ind.show_when->0)@;
    lemma_name_is_short(name);
    assert(reads(name, name));
    if frame.contains_key(name) {
        assert(patterns(frame).contains_key(name));
        assert(patterns(frame)[name] == frame[name].bits);
    }
}

/// An indicator whose formula joins fields that are there and numbers by
/// arithmetic, powers and functions of numbers has a row, unless its condition
/// hides it.
pub proof fn lemma_numbers_are_shown(
    ind: IndicatorDef,
    frame: Map<Seq<char>, Num>,
    texts: Map<Seq<char>, String>,
    o: Outcome,
)
    requires
        outcome_can_be(ind, patterns(frame), o),
        short(ind.formula@),
        surely_float(ind.formula@, patterns(frame)),
    ensures
        row_of(ind, o, texts) is Some <==> visible(ind, o.shown),
{
}

/// An indicator is hidden exactly where it has a condition without a value, or
/// with the value zero, or where its formula is no text and has no value.
pub proof fn lemma_hidden_exactly(ind: IndicatorDef, o: Outcome, texts: Map<Seq<char>, String>)
    ensures
        row_of(ind, o, texts) is None <==> (ind.show_when is Some && (o.shown is None || o.shown->0.bits
            == 0 || o.shown->0.bits == 0x8000_0000_0000_0000)) || (!texts.contains_key(ind.formula@)
            && o.value is None),
{
}

/// A row that is seen has the label, the unit and the style of its indicator.
pub proof fn lemma_row_is_the_indicators(
    ind: IndicatorDef,
    o: Outcome,
    texts: Map<Seq<char>, String>,
)
    requires
        row_of(ind, o, texts) is Some,
    ensures
        (row_of(ind, o, texts)->0).label == ind.label@,
        (row_of(ind, o, texts)->0).unit == ind.unit@,
        (row_of(ind, o, texts)->0).style == ind.style,
        ind.color is Some ==> (row_of(ind, o, texts)->0).color == (ind.color->0)@,
{
}

/// An indicator whose formula is the name of a text field shows that text, in
/// its own colour or as an information.
pub proof fn lemma_text_is_shown(ind: IndicatorDef, o: Outcome, texts: Map<Seq<char>, String>)
    requires
        texts.contains_key(ind.formula@),
        ind.show_when is None || (o.shown is Some && o.shown->0.bits != 0 && o.shown->0.bits
            != 0x8000_0000_0000_0000),
    ensures
        row_of(ind, o, texts) is Some,
        (row_of(ind, o, texts)->0).value == texts[ind.formula@]@,
        (row_of(ind, o, texts)->0).label == ind.label@,
        (row_of(ind, o, texts)->0).unit == ind.unit@,
        (row_of(ind, o, texts)->0).style == ind.style,
        (row_of(ind, o, texts)->0).color == if ind.color is Some {
            (ind.color->0)@
        } else {
            "info"@
        },
{
}

/// Two text fields that differ are shown differently: what a row shows of a text
/// is the text.
pub proof fn lemma_texts_tell_apart(
    ind: IndicatorDef,
    o: Outcome,
    a: Map<Seq<char>, String>,
    b: Map<Seq<char>, String>,
)
    requires
        a.contains_key(ind.formula@),
        b.contains_key(ind.formula@),
        row_of(ind, o, a) is Some,
    ensures
        row_of(ind, o, b) is Some,
        (row_of(ind, o, a)->0).value == (row_of(ind, o, b)->0).value <==> a[ind.formula@]@
            == b[ind.formula@]@,
{
}

/// A list of one indicator without a condition, whose formula is the name of a
/// text field, gives one row with that text.
pub proof fn lemma_text_row(
    ind: IndicatorDef,
    frame: Map<Seq<char>, Num>,
    texts: Map<Seq<char>, String>,
    rows: Seq<RowView>,
)
    requires
        rows_can_be(seq![ind], frame, texts, rows),
        ind.show_when is None,
        texts.contains_key(ind.formula@),
    ensures
        rows.len() == 1,
        rows[0].value == texts[ind.formula@]@,
        rows[0].label == ind.label@,
        rows[0].unit == ind.unit@,
        rows[0].style == ind.style,
{
    lemma_one_row(ind, frame, texts, rows);
}

/// A value is shown in the format of its indicator, and nothing else of a row
/// depends on the format.
pub proof fn lemma_value_is_formatted(ind: IndicatorDef, o: Outcome, texts: Map<Seq<char>, String>)
    requires
        row_of(ind, o, texts) is Some,
        !texts.contains_key(ind.formula@),
    ensures
        o.value is Some,
        ind.format@ == "decimal1"@ ==> (row_of(ind, o, texts)->0).value == fixed(
            o.value->0.bits,
            1,
            false,
        ),
        ind.format@ == "decimal2"@ ==> (row_of(ind, o, texts)->0).value == fixed(
            o.value->0.bits,
            2,
            false,
        ),
        ind.format@ == "+decimal1"@ ==> (row_of(ind, o, texts)->0).value == fixed(
            o.value->0.bits,
            1,
            true,
        ),
        ind.format@ == "+decimal2"@ ==> (row_of(ind, o, texts)->0).value == fixed(
            o.value->0.bits,
            2,
            true,
        ),
        ind.format@ == "integer"@ ==> (row_of(ind, o, texts)->0).value == fixed(
            o.value->0.bits,
            0,
            false,
        ),
{
    lemma_format_names();
}

/// The names of the formats differ.
proof fn lemma_format_names()
    ensures
        "decimal1"@ != "decimal2"@,
        "+decimal1"@ != "+decimal2"@,
        "decimal1"@ != "+decimal1"@,
        "decimal1"@ != "+decimal2"@,
        "decimal2"@ != "+decimal1"@,
        "decimal2"@ != "+decimal2"@,
        "time"@ != "decimal1"@,
        "time"@ != "decimal2"@,
        "time"@ != "+decimal1"@,
        "time"@ != "+decimal2"@,
        "integer"@ != "decimal1"@,
        "integer"@ != "decimal2"@,
        "integer"@ != "+decimal1"@,
        "integer"@ != "+decimal2"@,
        "integer"@ != "time"@,
{
    reveal_strlit("decimal1");
    reveal_strlit("decimal2");
    reveal_strlit("+decimal1");
    reveal_strlit("+decimal2");
    reveal_strlit("time");
    reveal_strlit("integer");
    assert("decimal1"@[7] == '1' && "decimal2"@[7] == '2');
    assert("+decimal1"@[8] == '1' && "+decimal2"@[8] == '2');
    assert("decimal1"@.len() == 8 && "decimal2"@.len() == 8 && "+decimal1"@.len() == 9
        && "+decimal2"@.len() == 9 && "time"@.len() == 4 && "integer"@.len() == 7);
}

/// Seconds are made up of hours, minutes and seconds.
proof fn lemma_hours(total: nat)
    ensures
        ({
            let h: nat = total / 3600;
            let m: nat = (total % 3600) / 60;
            let s: nat = total % 60;
            3600 * h + 60 * m + s == total && m < 60 && s < 60
        }),
{
}

/// A time is shown as minutes and seconds, or hours, minutes and seconds, that
/// make up its whole seconds; a time that is negative or no number is not shown.
#[verifier::rlimit(60)]
pub proof fn lemma_time_is_a_clock(b: u64)
    ensures
        !finite(b) || less(b, 0) ==> formatted(b, "time"@) == "--:--"@,
        finite(b) && !less(b, 0) ==> exists|h: nat, m: nat, s: nat|
            #![trigger decimal(h), two_digits(m), two_digits(s)]
            m < 60 && s < 60 && 3600 * h + 60 * m + s == whole_part(b) && formatted(b, "time"@) == if h
                > 0 {
                decimal(h) + seq![':'] + two_digits(m) + seq![':'] + two_digits(s)
            } else {
                decimal(m) + seq![':'] + two_digits(s)
            },
{
    lemma_format_names();
    if finite(b) && !less(b, 0) {
        let total: nat = whole_part(b);
        let h: nat = total / 3600;
        let m: nat = (total % 3600) / 60;
        let s: nat = total % 60;
        lemma_hours(total);
        assert(formatted(b, "time"@) == clock_text(total));
        let d = (decimal(h), two_digits(m), two_digits(s));
    }
}

/// The whole part of a number below 2^64 is the integer at or below it.
pub proof fn lemma_whole_part(b: u64)
    requires
        finite(b),
        magnitude(unsigned(b)) < 0x1_0000_0000_0000_0000 * pow2(1074),
    ensures
        whole_part(b) * pow2(1074) <= magnitude(unsigned(b)) < (whole_part(b) + 1) * pow2(1074),
{
    let unit: int = pow2(1074) as int;
    let m: int = magnitude(unsigned(b)) as int;
    lemma_pow2_pos(1074);
    vstd::arithmetic::div_mod::lemma_fundamental_div_mod(m, unit);
    let q: int = m / unit;
    let r: int = m % unit;
    assert(q * unit <= m < (q + 1) * unit) by (nonlinear_arith)
        requires
            m == unit * q + r,
            0 <= r < unit,
    ;
    assert(q < 0x1_0000_0000_0000_0000) by (nonlinear_arith)
        requires
            q * unit <= m,
            m < 0x1_0000_0000_0000_0000 * unit,
            unit > 0,
    ;
}

/// A value above a level for "above", or below one for "below", has the token of
/// that level unless a graver one applies; a value that passes no level has the
/// plain one. A level is passed only by values strictly beyond it.
pub proof fn lemma_token_by_levels(v: u64, l: Levels)
    ensures
        ({
            let crit: bool = (l.crit_above is Some && less(l.crit_above->0.bits, v)) || (
            l.crit_below is Some && less(v, l.crit_below->0.bits));
            let warn: bool = (l.warn_above is Some && less(l.warn_above->0.bits, v)) || (
            l.warn_below is Some && less(v, l.warn_below->0.bits));
            let good: bool = (l.good_above is Some && less(l.good_above->0.bits, v)) || (
            l.good_below is Some && less(v, l.good_below->0.bits));
            &&& crit ==> token(v, None, l) == "crit"@
            &&& !crit && warn ==> token(v, None, l) == "warn"@
            &&& !crit && !warn && good ==> token(v, None, l) == "good"@
            &&& !crit && !warn && !good ==> token(v, None, l) == "value"@
        }),
{
}

/// The colour of a value follows the levels that the evaluations gave.
pub proof fn lemma_color_of_value(ind: IndicatorDef, o: Outcome, texts: Map<Seq<char>, String>)
    requires
        row_of(ind, o, texts) is Some,
        !texts.contains_key(ind.formula@),
        ind.color is None,
    ensures
        o.value is Some,
        (row_of(ind, o, texts)->0).color == token(o.value->0.bits, None, o.levels),
{
}

/// The levels of an indicator are evaluated each from its own definition: a
/// fixed one is its number, and one that is not given is none.
pub proof fn lemma_levels_are_their_own(
    ind: IndicatorDef,
    names: Map<Seq<char>, u64>,
    o: Outcome,
    n: Num,
)
    requires
        outcome_can_be(ind, names, o),
    ensures
        ind.crit_above == Some(Threshold::Fixed(n)) ==> o.levels.crit_above == Some(n),
        ind.crit_below == Some(Threshold::Fixed(n)) ==> o.levels.crit_below == Some(n),
        ind.warn_above == Some(Threshold::Fixed(n)) ==> o.levels.warn_above == Some(n),
        ind.warn_below == Some(Threshold::Fixed(n)) ==> o.levels.warn_below == Some(n),
        ind.good_above == Some(Threshold::Fixed(n)) ==> o.levels.good_above == Some(n),
        ind.good_below == Some(Threshold::Fixed(n)) ==> o.levels.good_below == Some(n),
        ind.crit_above is None ==> o.levels.crit_above is None,
        ind.crit_below is None ==> o.levels.crit_below is None,
        ind.warn_above is None ==> o.levels.warn_above is None,
        ind.warn_below is None ==> o.levels.warn_below is None,
        ind.good_above is None ==> o.levels.good_above is None,
        ind.good_below is None ==> o.levels.good_below is None,
{
}

/// A level that is a formula is what the formula gives.
pub proof fn lemma_level_is_its_formula(
    text: String,
    names: Map<Seq<char>, u64>,
    r: Option<Num>,
)
    ensures
        level_can_be(Some(Threshold::Formula(text)), names, r) <==> can_be(text@, names, r),
{
}

} // verus!
