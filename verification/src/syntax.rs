//! The expressions of windows, and whether they can be read.
use vstd::prelude::*;

use crate::client::windows_ready;
use crate::defs::{IndicatorDef, Threshold, WindowDef, MOST_ROWS};
use crate::expression::{expression, is_short, read_expression, short};
use crate::text::{chars_of, option_text, push_text, text_of};

verus! {

/// Why a text is no expression, where it is none.
pub open spec fn syntax_error(text: Seq<char>) -> Option<Seq<char>> {
    match expression(text) {
        Ok(_) => None,
        Err(m) => Some(m),
    }
}

/// What is wrong with a text that is to be evaluated: it is too long to be
/// read, or no expression.
pub open spec fn text_fault(text: Seq<char>) -> Option<Seq<char>> {
    if !short(text) {
        Some("the expression is too long"@)
    } else {
        syntax_error(text)
    }
}

/// What is wrong with a text that is to be evaluated.
pub fn find_text_fault(text: &str) -> (r: Option<String>)
    ensures
        option_text(r) == text_fault(text@),
{
    if !is_short(text) {
        return Some("the expression is too long".to_string());
    }
    match read_expression(text) {
        Ok(_) => None,
        Err(m) => Some(m),
    }
}

/// The expression of a level, where it is one.
pub open spec fn level_text(t: Option<Threshold>) -> Seq<Seq<char>> {
    match t {
        Some(Threshold::Formula(text)) => seq![text@],
        _ => seq![],
    }
}

/// The expression that decides whether a row is shown, where there is one.
pub open spec fn condition_text(t: Option<String>) -> Seq<Seq<char>> {
    match t {
        Some(text) => seq![text@],
        None => seq![],
    }
}

/// The expressions of an indicator.
pub open spec fn expressions(ind: IndicatorDef) -> Seq<Seq<char>> {
    seq![ind.formula@] + condition_text(ind.show_when) + level_text(ind.warn_below) + level_text(
        ind.warn_above,
    ) + level_text(ind.good_above) + level_text(ind.good_below) + level_text(ind.crit_above)
        + level_text(ind.crit_below)
}

/// What is wrong with the first of the texts that has a fault.
pub open spec fn first_error(all: Seq<Seq<char>>) -> Option<Seq<char>>
    decreases all.len(),
{
    if all.len() == 0 {
        None
    } else {
        match first_error(all.drop_last()) {
            Some(m) => Some(m),
            None => text_fault(all.last()),
        }
    }
}

/// What is said of an expression of the indicator `ind` in the window `win`
/// with the fault `m`.
pub open spec fn fault_text(win: Seq<char>, ind: Seq<char>, m: Seq<char>) -> Seq<char> {
    "expression error in "@ + win + "/"@ + ind + ": "@ + m
}

/// What is wrong with the first indicator that has an expression with a
/// fault.
pub open spec fn indicators_fault(win: Seq<char>, inds: Seq<IndicatorDef>) -> Option<Seq<char>>
    decreases inds.len(),
{
    if inds.len() == 0 {
        None
    } else {
        match indicators_fault(win, inds.drop_last()) {
            Some(m) => Some(m),
            None => match first_error(expressions(inds.last())) {
                Some(m) => Some(fault_text(win, inds.last().id@, m)),
                None => None,
            },
        }
    }
}

/// What is said of the window `win` that has too many indicators.
pub open spec fn size_text(win: Seq<char>) -> Seq<char> {
    "too many indicators in "@ + win
}

/// What is wrong with a window: an expression of it, or that it has no height
/// and more rows than one can be computed for.
pub open spec fn window_fault(w: WindowDef) -> Option<Seq<char>> {
    match indicators_fault(w.id@, w.indicators@) {
        Some(m) => Some(m),
        None => if w.height is None && w.indicators@.len() > MOST_ROWS {
            Some(size_text(w.id@))
        } else {
            None
        },
    }
}

/// What is wrong with the first window that has a fault.
pub open spec fn windows_fault(defs: Seq<WindowDef>) -> Option<Seq<char>>
    decreases defs.len(),
{
    if defs.len() == 0 {
        None
    } else {
        match windows_fault(defs.drop_last()) {
            Some(m) => Some(m),
            None => window_fault(defs.last()),
        }
    }
}

/// The first of two complaints.
fn or_else(first: Option<String>, text: &str) -> (r: Option<String>)
    ensures
        option_text(r) == (match option_text(first) {
            Some(m) => Some(m),
            None => text_fault(text@),
        }),
{
    match first {
        Some(m) => Some(m),
        None => find_text_fault(text),
    }
}

/// `first_error` of the texts and of one more.
proof fn lemma_first_error_push(all: Seq<Seq<char>>, text: Seq<char>)
    ensures
        first_error(all + seq![text]) == (match first_error(all) {
            Some(m) => Some(m),
            None => text_fault(text),
        }),
{
    assert((all + seq![text]).drop_last() =~= all);
}

/// The complaint about the texts `all`, or else about the expression of `t`.
fn or_level(first: Option<String>, Ghost(all): Ghost<Seq<Seq<char>>>, t: &Option<Threshold>) -> (r:
    Option<String>)
    requires
        option_text(first) == first_error(all),
    ensures
        option_text(r) == first_error(all + level_text(*t)),
{
    match t {
        Some(Threshold::Formula(text)) => {
            proof {
                lemma_first_error_push(all, text@);
            }
            or_else(first, text.as_str())
        },
        _ => {
            proof {
                assert(all + level_text(*t) =~= all);
            }
            first
        },
    }
}

/// What is wrong with the first expression of an indicator that has a fault.
fn indicator_error(ind: &IndicatorDef) -> (r: Option<String>)
    ensures
        option_text(r) == first_error(expressions(*ind)),
{
    let ghost none: Seq<Seq<char>> = seq![];
    proof {
        lemma_first_error_push(none, ind.formula@);
        assert(none + seq![ind.formula@] =~= seq![ind.formula@]);
    }
    let formula = or_else(None, ind.formula.as_str());
    let ghost mut all: Seq<Seq<char>> = seq![ind.formula@];
    let shown = match &ind.show_when {
        Some(text) => {
            proof {
                lemma_first_error_push(all, text@);
            }
            or_else(formula, text.as_str())
        },
        None => {
            proof {
                assert(all + condition_text(ind.show_when) =~= all);
            }
            formula
        },
    };
    proof {
        all = all + condition_text(ind.show_when);
    }
    let a = or_level(shown, Ghost(all), &ind.warn_below);
    proof {
        all = all + level_text(ind.warn_below);
    }
    let b = or_level(a, Ghost(all), &ind.warn_above);
    proof {
        all = all + level_text(ind.warn_above);
    }
    let c = or_level(b, Ghost(all), &ind.good_above);
    proof {
        all = all + level_text(ind.good_above);
    }
    let d = or_level(c, Ghost(all), &ind.good_below);
    proof {
        all = all + level_text(ind.good_below);
    }
    let e = or_level(d, Ghost(all), &ind.crit_above);
    proof {
        all = all + level_text(ind.crit_above);
    }
    or_level(e, Ghost(all), &ind.crit_below)
}

/// What is said of an expression with a fault.
fn fault_message(win: &str, ind: &str, m: &str) -> (r: String)
    ensures
        r@ == fault_text(win@, ind@, m@),
{
    let mut out: Vec<char> = chars_of("expression error in ");
    push_text(&mut out, win);
    push_text(&mut out, "/");
    push_text(&mut out, ind);
    push_text(&mut out, ": ");
    push_text(&mut out, m);
    text_of(out.as_slice())
}

/// What is wrong with the first indicator of a window that has an expression
/// with a fault.
fn find_indicator_fault(w: &WindowDef) -> (r: Option<String>)
    ensures
        option_text(r) == indicators_fault(w.id@, w.indicators@),
{
    let mut fault: Option<String> = None;
    let mut i: usize = 0;
    while i < w.indicators.len()
        invariant
            i <= w.indicators.len(),
            option_text(fault) == indicators_fault(w.id@, w.indicators@.take(i as int)),
        decreases w.indicators.len() - i,
    {
        proof {
            assert(w.indicators@.take(i as int + 1).drop_last() =~= w.indicators@.take(i as int));
        }
        if fault.is_none() {
            fault = match indicator_error(&w.indicators[i]) {
                Some(m) => Some(
                    fault_message(w.id.as_str(), w.indicators[i].id.as_str(), m.as_str()),
                ),
                None => None,
            };
        }
        i = i + 1;
    }
    proof {
        assert(w.indicators@.take(i as int) =~= w.indicators@);
    }
    fault
}

/// What is wrong with a window.
fn find_window_fault(w: &WindowDef) -> (r: Option<String>)
    ensures
        option_text(r) == window_fault(*w),
{
    match find_indicator_fault(w) {
        Some(m) => Some(m),
        None => if w.height.is_none() && w.indicators.len() > MOST_ROWS {
            let mut out: Vec<char> = chars_of("too many indicators in ");
            push_text(&mut out, w.id.as_str());
            Some(text_of(out.as_slice()))
        } else {
            None
        },
    }
}

/// What is wrong with the first of the windows that has a fault; nothing where
/// none has.
pub fn find_fault(defs: &Vec<WindowDef>) -> (r: Option<String>)
    ensures
        option_text(r) == windows_fault(defs@),
{
    let mut fault: Option<String> = None;
    let mut i: usize = 0;
    while i < defs.len()
        invariant
            i <= defs.len(),
            option_text(fault) == windows_fault(defs@.take(i as int)),
        decreases defs.len() - i,
    {
        proof {
            assert(defs@.take(i as int + 1).drop_last() =~= defs@.take(i as int));
        }
        if fault.is_none() {
            fault = find_window_fault(&defs[i]);
        }
        i = i + 1;
    }
    proof {
        assert(defs@.take(i as int) =~= defs@);
    }
    fault
}

/// The windows that were loaded, unless something is wrong with them.
pub fn accept_windows(loaded: Vec<WindowDef>, fault: Option<String>) -> (r: Result<
    Vec<WindowDef>,
    String,
>)
    ensures
        match fault {
            Some(m) => r matches Err(e) && e == m,
            None => r matches Ok(defs) && defs == loaded,
        },
{
    match fault {
        Some(m) => Err(m),
        None => Ok(loaded),
    }
}

/// Whether some expression of the indicators has a fault.
pub open spec fn some_fault(inds: Seq<IndicatorDef>) -> bool {
    exists|j: int, k: int|
        0 <= j < inds.len() && 0 <= k < expressions(inds[j]).len() && text_fault(
            #[trigger] expressions(inds[j])[k],
        ) is Some
}

/// A fault is found exactly where some window has an expression that is too
/// long or no expression, or has neither a height nor few enough indicators to
/// compute one.
pub proof fn lemma_fault_iff(defs: Seq<WindowDef>)
    ensures
        windows_fault(defs) is Some <==> exists|i: int|
            0 <= i < defs.len() && (some_fault((#[trigger] defs[i]).indicators@) || (
            defs[i].height is None && defs[i].indicators@.len() > MOST_ROWS)),
    decreases defs.len(),
{
    if defs.len() > 0 {
        let front = defs.drop_last();
        let n = defs.len() - 1;
        lemma_fault_iff(front);
        lemma_indicators_fault(defs[n].id@, defs[n].indicators@);
        assert forall|i: int| 0 <= i < n implies front[i] == #[trigger] defs[i] by {}
        if windows_fault(front) is Some {
            let i = choose|i: int|
                0 <= i < front.len() && (some_fault((#[trigger] front[i]).indicators@) || (
                front[i].height is None && front[i].indicators@.len() > MOST_ROWS));
            assert(front[i] == defs[i]);
        }
    }
}

/// Windows without a fault have a height.
pub proof fn lemma_faultless_ready(defs: Seq<WindowDef>)
    requires
        windows_fault(defs) is None,
    ensures
        windows_ready(defs),
{
    lemma_fault_iff(defs);
}

/// An indicator has a fault exactly where one of its expressions has.
proof fn lemma_indicators_fault(win: Seq<char>, inds: Seq<IndicatorDef>)
    ensures
        indicators_fault(win, inds) is Some <==> some_fault(inds),
    decreases inds.len(),
{
    if inds.len() > 0 {
        let front = inds.drop_last();
        let n = inds.len() - 1;
        lemma_indicators_fault(win, front);
        lemma_first_error(expressions(inds.last()));
        if indicators_fault(win, inds) is Some {
            if indicators_fault(win, front) is Some {
                let (j, k) = choose|j: int, k: int|
                    0 <= j < front.len() && 0 <= k < expressions(front[j]).len() && text_fault(
                        #[trigger] expressions(front[j])[k],
                    ) is Some;
                assert(text_fault(expressions(inds[j])[k]) is Some);
            } else {
                let k = choose|k: int|
                    0 <= k < expressions(inds.last()).len() && text_fault(
                        #[trigger] expressions(inds.last())[k],
                    ) is Some;
                assert(text_fault(expressions(inds[n])[k]) is Some);
            }
        }
        assert forall|j: int, k: int|
            0 <= j < inds.len() && 0 <= k < expressions(inds[j]).len() && text_fault(
                #[trigger] expressions(inds[j])[k],
            ) is Some implies indicators_fault(win, inds) is Some by {
            if j < n {
                assert(front[j] == inds[j]);
                assert(text_fault(expressions(front[j])[k]) is Some);
            } else {
                assert(text_fault(expressions(inds.last())[k]) is Some);
            }
        }
    }
}

/// Some text has a fault exactly where there is a first one.
proof fn lemma_first_error(all: Seq<Seq<char>>)
    ensures
        first_error(all) is Some <==> exists|k: int|
            0 <= k < all.len() && text_fault(#[trigger] all[k]) is Some,
    decreases all.len(),
{
    if all.len() > 0 {
        let front = all.drop_last();
        lemma_first_error(front);
        if first_error(front) is Some {
            let k = choose|k: int| 0 <= k < front.len() && text_fault(#[trigger] front[k]) is Some;
            assert(text_fault(all[k]) is Some);
        } else if text_fault(all.last()) is Some {
            assert(text_fault(all[all.len() - 1]) is Some);
        }
        assert forall|k: int|
            0 <= k < all.len() && text_fault(#[trigger] all[k]) is Some implies first_error(
            all,
        ) is Some by {
            if k < front.len() {
                assert(text_fault(front[k]) is Some);
            }
        }
    }
}

} // verus!
