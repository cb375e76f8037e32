//! Formulas over the fields of a frame.
//!
//! A formula is evaluated by the `evalexpr` crate with every field bound to
//! its number. What an evaluation gives is named here; what is done with it is
//! verified.
use vstd::prelude::*;

use crate::arith::whole;
use crate::derived::ONE;
use crate::expression::{bare, expression, is_short, mentions, plain_name, short, ExprView, OpView};
use crate::helpers::{all_helpers, answer, helper_value, larger, smaller, Helper, Item, ItemView};
use crate::num::{less, opposite, same, settled, Num, INFINITE};
use crate::syntax::syntax_error;
use crate::table::{lemma_map_first, map_of, RawFrame};

use evalexpr::{ContextWithMutableFunctions, EvalexprError, FloatType, Function, Value};

verus! {

/// The variables and functions of an evaluation.
#[verifier::external_type_specification]
#[verifier::external_body]
pub struct ExHashMapContext(evalexpr::HashMapContext);

/// The variables of a context, each with the bit pattern of its number.
pub uninterp spec fn bindings(ctx: evalexpr::HashMapContext) -> Map<Seq<char>, u64>;

/// The functions of a context besides the built-in ones.
pub uninterp spec fn functions(ctx: evalexpr::HashMapContext) -> Map<Seq<char>, Helper>;

/// Whether the variables of a context are numbers alone, and the built-in
/// functions are kept.
pub uninterp spec fn numbers_only(ctx: evalexpr::HashMapContext) -> bool;

/// Whether formulas can be evaluated in a context.
pub open spec fn complete(ctx: evalexpr::HashMapContext) -> bool {
    numbers_only(ctx) && functions(ctx) == all_helpers()
}

/// The number that a text evaluates to, with the functions of formulas, where
/// the result is a floating-point number, with every "not a number" made one.
pub uninterp spec fn float_result(text: Seq<char>, names: Map<Seq<char>, u64>) -> Option<u64>;

/// The integer that a text evaluates to, where the result is one.
pub uninterp spec fn int_result(text: Seq<char>, names: Map<Seq<char>, u64>) -> Option<i64>;

/// The truth value that a text evaluates to, where the result is one.
pub uninterp spec fn bool_result(text: Seq<char>, names: Map<Seq<char>, u64>) -> Option<bool>;

/// No variables.
pub open spec fn unbound() -> Map<Seq<char>, u64> {
    Map::empty()
}

/// No functions.
pub open spec fn no_functions() -> Map<Seq<char>, Helper> {
    Map::empty()
}

/// Whether `name` is a built-in function whose value may differ from one machine
/// to another, or in the sign of a zero.
pub open spec fn inexact_function(name: Seq<char>) -> bool {
    number_function(name) || pair_function(name) || name == "min"@ || name == "max"@
}

/// Whether `name` is a built-in function that gives a number on any number, not
/// always the same on every machine.
pub open spec fn number_function(name: Seq<char>) -> bool {
    ||| name == "math::ln"@ || name == "math::log2"@ || name == "math::log10"@
    ||| name == "math::exp"@ || name == "math::exp2"@ || name == "math::cbrt"@
    ||| name == "math::cos"@ || name == "math::acos"@
    ||| name == "math::cosh"@ || name == "math::acosh"@
    ||| name == "math::sin"@ || name == "math::asin"@
    ||| name == "math::sinh"@ || name == "math::asinh"@
    ||| name == "math::tan"@ || name == "math::atan"@
    ||| name == "math::tanh"@ || name == "math::atanh"@
}

/// Whether `name` is a built-in function that gives a number on any two numbers,
/// not always the same on every machine.
pub open spec fn pair_function(name: Seq<char>) -> bool {
    name == "math::log"@ || name == "math::pow"@ || name == "math::atan2"@ || name
        == "math::hypot"@
}

/// Whether the value of `e` is the same on every machine: no part of it takes a
/// power or calls a function whose value is not.
pub open spec fn portable_tree(e: ExprView) -> bool
    decreases e,
{
    &&& e.op != OpView::Power
    &&& e.op matches OpView::Function(name) ==> !inexact_function(name)
    &&& forall|i: int| 0 <= i < e.parts.len() ==> portable_tree(#[trigger] e.parts[i])
}

/// Whether the value of `text` is the same on every machine. A text that is no
/// expression has none anywhere.
pub open spec fn portable(text: Seq<char>) -> bool {
    match expression(text) {
        Ok(e) => portable_tree(e),
        Err(_) => true,
    }
}

/// The name of the variable that `text` is, apart from brackets.
pub open spec fn variable_alone(text: Seq<char>) -> Option<Seq<char>> {
    if plain_name(text) {
        Some(text)
    } else {
        match expression(text) {
            Ok(e) => match bare(e).op {
                OpView::Variable(name) => Some(name),
                _ => None,
            },
            Err(_) => None,
        }
    }
}

/// Whether `text` is a variable that is there.
pub open spec fn variable_is_bound(text: Seq<char>, names: Map<Seq<char>, u64>) -> bool {
    variable_alone(text) is Some && names.contains_key(variable_alone(text)->0)
}

/// The number of that variable.
pub open spec fn variable_value(text: Seq<char>, names: Map<Seq<char>, u64>) -> u64 {
    settled(names[variable_alone(text)->0])
}

/// Whether `text` reads the variable `name`.
pub open spec fn reads(text: Seq<char>, name: Seq<char>) -> bool {
    if plain_name(text) {
        name == text
    } else {
        match expression(text) {
            Ok(e) => mentions(e, name),
            Err(_) => false,
        }
    }
}

/// Whether `text` reads a variable that is not among `names`.
pub open spec fn lacks_variable(text: Seq<char>, names: Map<Seq<char>, u64>) -> bool {
    exists|name: Seq<char>| #[trigger] reads(text, name) && !names.contains_key(name)
}

/// The value of a variable or a constant.
pub open spec fn leaf(e: ExprView, names: Map<Seq<char>, u64>) -> Option<ItemView> {
    match bare(e).op {
        OpView::Variable(name) => if names.contains_key(name) {
            Some(ItemView::Float(names[name]))
        } else {
            None
        },
        OpView::Integer(i) => Some(ItemView::Int(i)),
        OpView::Float(bits) => Some(ItemView::Float(bits)),
        OpView::Text(t) => Some(ItemView::Text(t)),
        _ => None,
    }
}

/// The expressions that a function is called on: those of a tuple, or one.
pub open spec fn arguments(e: ExprView) -> Seq<ExprView> {
    if bare(e).op == OpView::Tuple {
        bare(e).parts
    } else {
        seq![e]
    }
}

/// The name of the function that `text` calls on variables and constants, and
/// their values.
pub open spec fn call_in(text: Seq<char>, names: Map<Seq<char>, u64>) -> Option<
    (Seq<char>, Seq<ItemView>),
> {
    match expression(text) {
        Ok(e) => match bare(e).op {
            OpView::Function(name) => {
                let args = arguments(bare(e).parts[0]);
                if bare(e).parts.len() == 1 && forall|i: int|
                    0 <= i < args.len() ==> leaf(#[trigger] args[i], names) is Some {
                    Some((name, args.map_values(|x: ExprView| leaf(x, names)->0)))
                } else {
                    None
                }
            },
            _ => None,
        },
        Err(_) => None,
    }
}

/// Whether `text` calls one of the functions of [`all_helpers`] on variables
/// that are there and constants.
pub open spec fn calls_helper(text: Seq<char>, names: Map<Seq<char>, u64>) -> bool {
    call_in(text, names) is Some && all_helpers().contains_key((call_in(text, names)->0).0)
}

/// What that function gives.
pub open spec fn helper_result(text: Seq<char>, names: Map<Seq<char>, u64>) -> Option<ItemView> {
    let call = call_in(text, names)->0;
    helper_value(all_helpers()[call.0], call.1)
}

/// The floating-point number that a value is.
pub open spec fn float_in(i: Option<ItemView>) -> Option<u64> {
    match i {
        Some(ItemView::Float(bits)) => Some(settled(bits)),
        _ => None,
    }
}

/// The integer that a value is.
pub open spec fn int_in(i: Option<ItemView>) -> Option<i64> {
    match i {
        Some(ItemView::Int(v)) => Some(v),
        _ => None,
    }
}

/// Whether all values are floating-point numbers.
pub open spec fn all_floats(args: Seq<ItemView>) -> bool {
    forall|i: int| 0 <= i < args.len() ==> #[trigger] args[i] is Float
}

/// The smallest, or the largest, of floating-point numbers.
pub open spec fn extreme(args: Seq<ItemView>, least: bool) -> u64
    decreases args.len(),
{
    if args.len() == 0 {
        if least {
            INFINITE
        } else {
            opposite(INFINITE)
        }
    } else {
        let rest = extreme(args.drop_last(), least);
        let bits = args.last()->Float_0;
        if least {
            smaller(rest, bits)
        } else {
            larger(rest, bits)
        }
    }
}

/// Whether `text` calls the built-in function `name` on two or more
/// floating-point numbers.
pub open spec fn calls_on_floats(
    text: Seq<char>,
    names: Map<Seq<char>, u64>,
    name: Seq<char>,
) -> bool {
    match call_in(text, names) {
        Some((called, args)) => called == name && args.len() >= 2 && all_floats(args),
        None => false,
    }
}

/// 2^63
pub const BEYOND: u64 = 0x43e0_0000_0000_0000;

/// The smallest of the numbers that `text` calls `min` on.
pub open spec fn least_in(text: Seq<char>, names: Map<Seq<char>, u64>) -> u64 {
    extreme((call_in(text, names)->0).1, true)
}

/// The largest of the numbers that `text` calls `max` on.
pub open spec fn largest_in(text: Seq<char>, names: Map<Seq<char>, u64>) -> u64 {
    extreme((call_in(text, names)->0).1, false)
}

/// Whether `text` asks for the smallest of floating-point numbers, one of which
/// is no more than 2^63.
pub open spec fn asks_least(text: Seq<char>, names: Map<Seq<char>, u64>) -> bool {
    calls_on_floats(text, names, "min"@) && !less(BEYOND, least_in(text, names))
}

/// Whether `text` asks for the largest of floating-point numbers, one of which
/// is no less than -2^63.
pub open spec fn asks_largest(text: Seq<char>, names: Map<Seq<char>, u64>) -> bool {
    calls_on_floats(text, names, "max"@) && !less(largest_in(text, names), opposite(BEYOND))
}

/// Whether `text` asks for the smallest of floating-point numbers that are all
/// more than 2^63.
pub open spec fn asks_beyond(text: Seq<char>, names: Map<Seq<char>, u64>) -> bool {
    calls_on_floats(text, names, "min"@) && less(BEYOND, least_in(text, names))
}

/// Whether `text` asks for the largest of floating-point numbers that are all
/// less than -2^63.
pub open spec fn asks_below(text: Seq<char>, names: Map<Seq<char>, u64>) -> bool {
    calls_on_floats(text, names, "max"@) && less(largest_in(text, names), opposite(BEYOND))
}

/// Whether `r` equals `want` as a number.
pub open spec fn equals(r: Option<u64>, want: u64) -> bool {
    r is Some && same(r->0, want)
}

/// Whether `e` is an integer that is written out.
pub open spec fn written_integer(e: ExprView) -> bool {
    bare(e).op is Integer && bare(e).parts.len() == 0
}

/// Whether `name` is a function that gives a floating-point number on any
/// number.
pub open spec fn float_function(name: Seq<char>) -> bool {
    ||| number_function(name)
    ||| name == "math::sqrt"@ || name == "floor"@ || name == "ceil"@ || name == "round"@
    ||| name == "math::floor"@ || name == "math::ceil"@
}

/// Whether `name` is a function that gives a floating-point number on any two
/// numbers.
pub open spec fn float_pair_function(name: Seq<char>) -> bool {
    pair_function(name) || name == "math::min"@ || name == "math::max"@
}

/// Whether `e` is sure to be a floating-point number: a variable that is there,
/// a number with a point, or made of such numbers by arithmetic, powers and
/// functions of numbers. An integer that is written out may be the other side.
pub open spec fn floating(e: ExprView, names: Map<Seq<char>, u64>) -> bool
    decreases e,
{
    let n = e.parts.len();
    match e.op {
        OpView::Root => n == 1 && floating(e.parts[0], names),
        OpView::Variable(name) => n == 0 && names.contains_key(name),
        OpView::Float(_) => n == 0,
        OpView::Negation => n == 1 && floating(e.parts[0], names),
        OpView::Arithmetic => n == 2 && {
            ||| floating(e.parts[0], names) && floating(e.parts[1], names)
            ||| floating(e.parts[0], names) && written_integer(e.parts[1])
            ||| written_integer(e.parts[0]) && floating(e.parts[1], names)
        },
        OpView::Power => n == 2 && (floating(e.parts[0], names) || written_integer(e.parts[0]))
            && (floating(e.parts[1], names) || written_integer(e.parts[1])),
        OpView::Function(name) => n == 1 && {
            ||| float_function(name) && (floating(e.parts[0], names) || written_integer(e.parts[0]))
            ||| float_pair_function(name) && floating_pair(e.parts[0], names)
            ||| name == "math::abs"@ && floating(e.parts[0], names)
        },
        _ => false,
    }
}

/// Whether `e` is sure to be a pair of numbers.
pub open spec fn floating_pair(e: ExprView, names: Map<Seq<char>, u64>) -> bool
    decreases e,
{
    let n = e.parts.len();
    match e.op {
        OpView::Root => n == 1 && floating_pair(e.parts[0], names),
        OpView::Tuple => n == 2 && (floating(e.parts[0], names) || written_integer(e.parts[0]))
            && (floating(e.parts[1], names) || written_integer(e.parts[1])),
        _ => false,
    }
}

/// Whether `text` is sure to be a floating-point number.
pub open spec fn surely_float(text: Seq<char>, names: Map<Seq<char>, u64>) -> bool {
    expression(text) matches Ok(e) && floating(e, names)
}

/// `HashMapContext::new` gives a context without variables or functions, with
/// the built-in functions switched on.
#[verifier::external_body]
fn empty_context() -> (ctx: evalexpr::HashMapContext)
    ensures
        bindings(ctx) == unbound(),
        functions(ctx) == no_functions(),
        numbers_only(ctx),
{
    evalexpr::HashMapContext::new()
}

/// `ContextWithMutableVariables::set_value` sets a variable that is absent or
/// holds a value of the same type, here a floating-point number.
#[verifier::external_body]
fn bind(ctx: &mut evalexpr::HashMapContext, name: String, bits: u64)
    requires
        numbers_only(*old(ctx)),
    ensures
        bindings(*final(ctx)) == bindings(*old(ctx)).insert(name@, bits),
        functions(*final(ctx)) == functions(*old(ctx)),
        numbers_only(*final(ctx)),
{
    let value = evalexpr::Value::Float(evalexpr::FloatType::from_bits(bits));
    let _ = evalexpr::ContextWithMutableVariables::set_value(ctx, name, value);
}

/// `ContextWithMutableFunctions::set_function` sets a function, here one that
/// gives what [`answer`] gives on the values of its argument, those of a tuple or
/// the argument alone, and an error where that is nothing.
#[verifier::external_body]
fn define(ctx: &mut evalexpr::HashMapContext, name: String, h: Helper)
    ensures
        bindings(*final(ctx)) == bindings(*old(ctx)),
        functions(*final(ctx)) == functions(*old(ctx)).insert(name@, h),
        numbers_only(*final(ctx)) == numbers_only(*old(ctx)),
{
    let _ = ctx.set_function(name, Function::new(move |v: &Value| {
        let list = v.as_tuple().unwrap_or(vec![v.clone()]);
        let items = list.into_iter().map(|x| match x {
            Value::Int(i) => Item::Int(i),
            Value::Float(x) => Item::Float(x.to_bits()),
            Value::String(s) => Item::Text(s),
            _ => Item::Other,
        });
        match answer(h, items.collect()) {
            Item::Int(i) => Ok(Value::Int(i)),
            Item::Float(b) => Ok(Value::Float(FloatType::from_bits(b))),
            Item::Text(s) => Ok(Value::String(s)),
            Item::Other => Err(EvalexprError::OutOfBoundsAccess),
        }
    }));
}

/// `eval_float_with_context` evaluates the text and gives its value where that
/// is a floating-point number.
///
/// A text without powers and inexact functions has one value. A variable has the
/// number that it is bound to, and a function of the context on variables and
/// constants gives what it is defined to. The built-in `min` and `max` give the
/// smallest and the largest of floating-point numbers, up to the sign of a zero, as
/// far as that is within the range of the integers, and else the end of that range,
/// an integer. Floating-point numbers joined
/// by arithmetic, powers and functions of numbers are one again. A text that reads
/// a variable which is bound to none gives nothing, for every part of an
/// expression is evaluated, and neither does one that `build_operator_tree`
/// refuses, for it is read by that function first. What number a power or an
/// inexact function gives depends on the machine, and is not stated.
#[verifier::external_body]
fn eval_float(text: &str, ctx: &evalexpr::HashMapContext) -> (r: Option<u64>)
    requires
        short(text@),
        complete(*ctx),
    ensures
        portable(text@) ==> settled_option(r) == float_result(text@, bindings(*ctx)),
        variable_is_bound(text@, bindings(*ctx)) ==> settled_option(r) == Some(
            variable_value(text@, bindings(*ctx)),
        ),
        calls_helper(text@, bindings(*ctx)) ==> settled_option(r) == float_in(
            helper_result(text@, bindings(*ctx)),
        ),
        asks_least(text@, bindings(*ctx)) ==> equals(r, least_in(text@, bindings(*ctx))),
        asks_largest(text@, bindings(*ctx)) ==> equals(r, largest_in(text@, bindings(*ctx))),
        asks_beyond(text@, bindings(*ctx)) || asks_below(text@, bindings(*ctx)) ==> r is None,
        surely_float(text@, bindings(*ctx)) ==> r is Some,
        lacks_variable(text@, bindings(*ctx)) ==> r is None,
        syntax_error(text@) is Some ==> r is None,
{
    match evalexpr::eval_float_with_context(text, ctx) {
        Ok(x) => Some(x.to_bits()),
        Err(_) => None,
    }
}

/// `eval_int_with_context` evaluates the text and gives its value where that is
/// an integer, under the same proviso. A variable is none, a function of the context
/// gives what it is defined to, and the built-in `min` and `max` of floating-point
/// numbers that are all beyond the range of the integers give its end.
#[verifier::external_body]
fn eval_int(text: &str, ctx: &evalexpr::HashMapContext) -> (r: Option<i64>)
    requires
        short(text@),
        complete(*ctx),
    ensures
        portable(text@) ==> r == int_result(text@, bindings(*ctx)),
        variable_is_bound(text@, bindings(*ctx)) ==> r is None,
        calls_helper(text@, bindings(*ctx)) ==> r == int_in(helper_result(text@, bindings(*ctx))),
        asks_beyond(text@, bindings(*ctx)) ==> r == Some(i64::MAX),
        asks_below(text@, bindings(*ctx)) ==> r == Some(i64::MIN),
        lacks_variable(text@, bindings(*ctx)) ==> r is None,
        syntax_error(text@) is Some ==> r is None,
{
    evalexpr::eval_int_with_context(text, ctx).ok()
}

/// `eval_boolean_with_context` evaluates the text and gives its value where that
/// is a truth value, under the same proviso. No variable is one, and no function of
/// the context gives one.
#[verifier::external_body]
fn eval_bool(text: &str, ctx: &evalexpr::HashMapContext) -> (r: Option<bool>)
    requires
        short(text@),
        complete(*ctx),
    ensures
        portable(text@) ==> r == bool_result(text@, bindings(*ctx)),
        variable_is_bound(text@, bindings(*ctx)) ==> r is None,
        calls_helper(text@, bindings(*ctx)) ==> r is None,
        lacks_variable(text@, bindings(*ctx)) ==> r is None,
        syntax_error(text@) is Some ==> r is None,
{
    evalexpr::eval_boolean_with_context(text, ctx).ok()
}

/// `r` with every "not a number" made one.
pub open spec fn settled_option(r: Option<u64>) -> Option<u64> {
    match r {
        Some(b) => Some(settled(b)),
        None => None,
    }
}

/// The number that three results of one evaluation stand for: the number, the
/// integer as a number, or one and zero for true and false.
pub open spec fn as_number(f: Option<u64>, i: Option<i64>, b: Option<bool>) -> Option<Num> {
    match f {
        Some(bits) => Some(Num { bits: settled(bits) }),
        None => match i {
            Some(v) => Some(Num { bits: whole(v as int) }),
            None => match b {
                Some(t) => Some(Num { bits: if t { ONE } else { 0 } }),
                None => None,
            },
        },
    }
}

/// The number that a text evaluates to.
pub open spec fn formula_value(text: Seq<char>, names: Map<Seq<char>, u64>) -> Option<Num> {
    as_number(float_result(text, names), int_result(text, names), bool_result(text, names))
}

/// The number that a value is.
pub open spec fn item_number(i: Option<ItemView>) -> Option<Num> {
    as_number(float_in(i), int_in(i), None)
}

/// Whether evaluating `text` can give `r`. A text that is too long or no
/// expression has no value, and neither has one that reads a variable which is not
/// there. A text that is the same on every machine has one value, a variable its
/// own, and a function on variables and constants what the function gives. The
/// smallest and the largest of numbers is one of them, up to the sign of a zero, or
/// the end of the range of the integers where all are beyond it. Numbers joined by
/// arithmetic, powers and functions of numbers have a value.
pub open spec fn can_be(text: Seq<char>, names: Map<Seq<char>, u64>, r: Option<Num>) -> bool {
    &&& !short(text) ==> r is None
    &&& syntax_error(text) is Some ==> r is None
    &&& lacks_variable(text, names) ==> r is None
    &&& short(text) ==> {
        &&& portable(text) ==> r == formula_value(text, names)
        &&& variable_is_bound(text, names) ==> r == Some(
            Num { bits: variable_value(text, names) },
        )
        &&& calls_helper(text, names) ==> r == item_number(helper_result(text, names))
        &&& asks_least(text, names) ==> r is Some && same(r->0.bits, least_in(text, names))
        &&& asks_largest(text, names) ==> r is Some && same(r->0.bits, largest_in(text, names))
        &&& asks_beyond(text, names) ==> r == Some(Num { bits: whole(i64::MAX as int) })
        &&& asks_below(text, names) ==> r == Some(Num { bits: whole(i64::MIN as int) })
        &&& surely_float(text, names) ==> r is Some
    }
}

/// The patterns of the numbers of a frame.
pub open spec fn patterns(frame: Map<Seq<char>, Num>) -> Map<Seq<char>, u64> {
    frame.map_values(|n: Num| n.bits)
}

/// The number that the results of one evaluation stand for.
pub fn number_of_results(f: Option<u64>, i: Option<i64>, b: Option<bool>) -> (r: Option<Num>)
    ensures
        r == as_number(f, i, b),
{
    match f {
        Some(bits) => Some(Num::of_bits(bits)),
        None => match i {
            Some(v) => Some(Num::of_i64(v)),
            None => match b {
                Some(t) => Some(
                    Num {
                        bits: if t {
                            ONE
                        } else {
                            0
                        },
                    },
                ),
                None => None,
            },
        },
    }
}

/// A context with the functions of formulas and no variables.
fn context_with_helpers() -> (ctx: evalexpr::HashMapContext)
    ensures
        bindings(ctx) == unbound(),
        complete(ctx),
{
    let mut ctx = empty_context();
    define(&mut ctx, "math::abs".to_string(), Helper::Abs);
    define(&mut ctx, "math::floor".to_string(), Helper::Floor);
    define(&mut ctx, "math::ceil".to_string(), Helper::Ceil);
    define(&mut ctx, "math::min".to_string(), Helper::Min);
    define(&mut ctx, "math::max".to_string(), Helper::Max);
    define(&mut ctx, "math::clamp".to_string(), Helper::Clamp);
    define(&mut ctx, "shl".to_string(), Helper::ShiftLeft);
    define(&mut ctx, "shr".to_string(), Helper::ShiftRight);
    define(&mut ctx, "str::substring".to_string(), Helper::Substring);
    ctx
}

/// A context with the fields of `frame`.
fn context_of(frame: &RawFrame) -> (ctx: evalexpr::HashMapContext)
    ensures
        bindings(ctx) == patterns(frame@),
        complete(ctx),
{
    let mut ctx = context_with_helpers();
    let mut i: usize = frame.count();
    let ghost list = frame.list();
    proof {
        frame.lemma_list();
        assert(list.skip(i as int) =~= seq![]);
        assert(patterns(map_of(list.skip(i as int))) =~= unbound());
    }
    while i > 0
        invariant
            list == frame.list(),
            i <= list.len(),
            complete(ctx),
            bindings(ctx) == patterns(map_of(list.skip(i as int))),
        decreases i,
    {
        i = i - 1;
        let (name, n) = frame.entry(i);
        proof {
            let rest = list.skip(i as int);
            lemma_map_first(rest);
            assert(rest.skip(1) =~= list.skip(i as int + 1));
            assert(patterns(map_of(rest)) =~= patterns(map_of(rest.skip(1))).insert(
                list[i as int].0@,
                list[i as int].1.bits,
            ));
        }
        bind(&mut ctx, name.clone(), n.bits);
    }
    proof {
        assert(list.skip(0) =~= list);
    }
    ctx
}

/// The number that `text` evaluates to in `ctx`.
fn eval_in(text: &str, ctx: &evalexpr::HashMapContext) -> (r: Option<Num>)
    requires
        short(text@),
        complete(*ctx),
    ensures
        can_be(text@, bindings(*ctx), r),
{
    let f = eval_float(text, ctx);
    let i = eval_int(text, ctx);
    let b = eval_bool(text, ctx);
    number_of_results(f, i, b)
}

/// The number that `text` evaluates to over the fields of `frame`. A text that
/// is too long has none.
pub fn eval_formula(text: &str, frame: &RawFrame) -> (r: Option<Num>)
    ensures
        can_be(text@, patterns(frame@), r),
{
    if !is_short(text) {
        return None;
    }
    let ctx = context_of(frame);
    eval_in(text, &ctx)
}

/// The number of an evaluation is the floating-point number where it is one, an
/// integer as that number, and one or zero for true and false.
pub proof fn lemma_results_as_numbers(bits: u64, v: i64, i: Option<i64>, b: Option<bool>)
    ensures
        as_number(Some(bits), i, b) is Some,
        !crate::num::nan(bits) ==> as_number(Some(bits), i, b) == Some(Num { bits }),
        as_number(None, Some(v), b) == Some(Num { bits: whole(v as int) }),
        as_number(None, None, Some(true)) == Some(Num { bits: 0x3ff0_0000_0000_0000 }),
        as_number(None, None, Some(false)) == Some(Num { bits: 0 }),
        as_number(None, None, None) is None,
{
}

/// An integer of up to 52 bits is exactly its number.
pub proof fn lemma_integer_as_number(v: i64)
    requires
        -0x10_0000_0000_0000 < v < 0x10_0000_0000_0000,
    ensures
        crate::num::value((as_number(None, Some(v), None)->0).bits) == v
            * vstd::arithmetic::power2::pow2(1074),
{
    let n: nat = if v < 0 {
        (-v) as nat
    } else {
        v as nat
    };
    crate::number::lemma_whole_exact(n);
    crate::num::lemma_zero_magnitude();
    let u: int = vstd::arithmetic::power2::pow2(1074) as int;
    if v < 0 {
        assert(-(n * u) == v * u) by (nonlinear_arith)
            requires
                n == -v,
        ;
    }
}

/// A formula that is the name of a field has the value of that field.
pub proof fn lemma_name_has_its_value(
    name: Seq<char>,
    frame: Map<Seq<char>, Num>,
    r: Option<Num>,
)
    requires
        plain_name(name),
        can_be(name, patterns(frame), r),
    ensures
        frame.contains_key(name) && !crate::num::nan(frame[name].bits) ==> r == Some(frame[name]),
        !frame.contains_key(name) ==> r is None,
{
    crate::expression::lemma_name_is_short(name);
    assert(reads(name, name));
    if frame.contains_key(name) {
        assert(patterns(frame).contains_key(name));
        assert(patterns(frame)[name] == frame[name].bits);
    }
}

} // verus!
