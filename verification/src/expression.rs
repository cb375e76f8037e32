//! Expressions as they are read by the `evalexpr` crate.
use vstd::prelude::*;

use crate::num::settled;
use crate::text::{chars_of, is_white, white};

use evalexpr::{Node, Operator, Value};

verus! {

/// What a node of an expression does with its parts.
pub enum Op {
    /// Gives its part: the whole expression, or one in brackets.
    Root,
    /// Adds, subtracts, multiplies, divides or gives the remainder.
    Arithmetic,
    Negation,
    Power,
    Tuple,
    /// The value of a variable.
    Variable(String),
    /// Calls a function.
    Function(String),
    Integer(i64),
    /// A floating-point number, by its bit pattern.
    Float(u64),
    Text(String),
    /// Anything else.
    Other,
}

/// The contents of an [`Op`].
pub enum OpView {
    Root,
    Arithmetic,
    Negation,
    Power,
    Tuple,
    Variable(Seq<char>),
    Function(Seq<char>),
    Integer(i64),
    Float(u64),
    Text(Seq<char>),
    Other,
}

impl View for Op {
    type V = OpView;

    open spec fn view(&self) -> OpView {
        match self {
            Op::Root => OpView::Root,
            Op::Arithmetic => OpView::Arithmetic,
            Op::Negation => OpView::Negation,
            Op::Power => OpView::Power,
            Op::Tuple => OpView::Tuple,
            Op::Variable(name) => OpView::Variable(name@),
            Op::Function(name) => OpView::Function(name@),
            Op::Integer(i) => OpView::Integer(*i),
            Op::Float(bits) => OpView::Float(settled(*bits)),
            Op::Text(t) => OpView::Text(t@),
            Op::Other => OpView::Other,
        }
    }
}

/// An expression.
pub struct Expr {
    pub op: Op,
    pub parts: Vec<Expr>,
}

/// The contents of an expression.
pub struct ExprView {
    pub op: OpView,
    pub parts: Seq<ExprView>,
}

/// The contents of an expression.
pub open spec fn expr_view(e: Expr) -> ExprView
    decreases e,
{
    ExprView {
        op: e.op@,
        parts: Seq::new(
            e.parts@.len(),
            |i: int|
                if 0 <= i < e.parts@.len() {
                    expr_view(e.parts@[i])
                } else {
                    ExprView { op: OpView::Other, parts: seq![] }
                },
        ),
    }
}

impl View for Expr {
    type V = ExprView;

    open spec fn view(&self) -> ExprView {
        expr_view(*self)
    }
}

/// `e` without the brackets around it.
pub open spec fn bare(e: ExprView) -> ExprView
    decreases e,
{
    if e.op == OpView::Root && e.parts.len() == 1 {
        bare(e.parts[0])
    } else {
        e
    }
}

/// Whether the variable `name` is read somewhere in `e`.
pub open spec fn mentions(e: ExprView, name: Seq<char>) -> bool
    decreases e,
{
    e.op == OpView::Variable(name) || exists|i: int|
        0 <= i < e.parts.len() && mentions(#[trigger] e.parts[i], name)
}

/// The most words and signs of an expression that is read. The depth to which
/// one is nested grows with their number, and it is read and evaluated by
/// functions that call themselves as deep; this many fit well into a stack of two
/// megabytes.
pub const MOST_MARKS: usize = 500;

/// Whether `c` ends a word.
pub open spec fn separator(c: char) -> bool {
    ||| white(c)
    ||| c == '+' || c == '-' || c == '*' || c == '/' || c == '%' || c == '^'
    ||| c == '(' || c == ')' || c == ',' || c == ';' || c == '"'
    ||| c == '=' || c == '!' || c == '<' || c == '>' || c == '&' || c == '|'
}

/// The number of words and signs in `text`.
pub open spec fn marks(text: Seq<char>) -> nat
    decreases text.len(),
{
    if text.len() == 0 {
        0
    } else {
        let c = text.last();
        let begins = !white(c) && (separator(c) || text.len() == 1 || separator(
            text[text.len() - 2],
        ));
        marks(text.drop_last()) + if begins {
            1nat
        } else {
            0
        }
    }
}

/// Whether a text is short enough to be read.
pub open spec fn short(text: Seq<char>) -> bool {
    marks(text) <= MOST_MARKS
}

/// Whether `c` ends a word.
fn is_separator(c: char) -> (r: bool)
    ensures
        r == separator(c),
{
    is_white(c) || c == '+' || c == '-' || c == '*' || c == '/' || c == '%' || c == '^' || c == '('
        || c == ')' || c == ',' || c == ';' || c == '"' || c == '=' || c == '!' || c == '<' || c
        == '>' || c == '&' || c == '|'
}

/// Whether a text is short enough to be read.
pub fn is_short(text: &str) -> (r: bool)
    ensures
        r == short(text@),
{
    let s = chars_of(text);
    let mut n: usize = 0;
    let mut i: usize = 0;
    while i < s.len()
        invariant
            i <= s.len(),
            s@ == text@,
            n <= MOST_MARKS,
            n == marks(text@.take(i as int)),
        decreases s.len() - i,
    {
        let c: char = s[i];
        proof {
            assert(text@.take(i as int + 1).drop_last() =~= text@.take(i as int));
        }
        if !is_white(c) && (is_separator(c) || i == 0 || is_separator(s[i - 1])) {
            if n == MOST_MARKS {
                proof {
                    lemma_marks_grow(text@, i as int + 1);
                }
                return false;
            }
            n = n + 1;
        }
        i = i + 1;
    }
    proof {
        assert(text@.take(i as int) =~= text@);
    }
    true
}

/// A part of a text has no more words and signs than all of it.
proof fn lemma_marks_grow(text: Seq<char>, n: int)
    requires
        0 <= n <= text.len(),
    ensures
        marks(text.take(n)) <= marks(text),
    decreases text.len() - n,
{
    if n < text.len() {
        lemma_marks_grow(text, n + 1);
        assert(text.take(n + 1).drop_last() =~= text.take(n));
    } else {
        assert(text.take(n) =~= text);
    }
}

/// Whether `text` is the name of a variable and nothing else: small letters,
/// digits and underscores, beginning with a letter, and none of the words that
/// stand for a number or a truth value.
pub open spec fn plain_name(text: Seq<char>) -> bool {
    &&& text.len() > 0
    &&& 'a' <= text[0] <= 'z'
    &&& forall|i: int| 0 <= i < text.len() ==> name_char(#[trigger] text[i])
    &&& text != "inf"@ && text != "infinity"@ && text != "nan"@ && text != "true"@ && text
        != "false"@
}

/// Whether `c` is a small letter, a digit or an underscore.
pub open spec fn name_char(c: char) -> bool {
    'a' <= c <= 'z' || '0' <= c <= '9' || c == '_'
}

/// The name of a variable is short enough to be read.
pub proof fn lemma_name_is_short(name: Seq<char>)
    requires
        plain_name(name),
    ensures
        short(name),
{
    lemma_one_word(name);
}

/// A text of letters, digits and underscores is one word.
proof fn lemma_one_word(s: Seq<char>)
    requires
        forall|i: int| 0 <= i < s.len() ==> name_char(#[trigger] s[i]),
    ensures
        marks(s) <= 1,
        s.len() == 0 ==> marks(s) == 0,
    decreases s.len(),
{
    if s.len() > 0 {
        let front = s.drop_last();
        assert forall|i: int| 0 <= i < front.len() implies name_char(#[trigger] front[i]) by {
            assert(front[i] == s[i]);
        }
        lemma_one_word(front);
        assert(name_char(s.last()));
        if front.len() > 0 {
            assert(name_char(s[s.len() - 2]));
        }
    }
}

/// A node of an expression that was read, with the nodes below it.
#[verifier::external_type_specification]
#[verifier::external_body]
pub struct ExNode(evalexpr::Node);

/// The expression at a node.
pub uninterp spec fn node_tree(node: evalexpr::Node) -> ExprView;

/// What a text reads as: an expression, or why it is none.
pub uninterp spec fn expression(text: Seq<char>) -> Result<ExprView, Seq<char>>;

/// The expression of the variable `name` alone.
pub open spec fn name_alone(name: Seq<char>) -> ExprView {
    ExprView {
        op: OpView::Root,
        parts: seq![ExprView { op: OpView::Variable(name), parts: seq![] }],
    }
}

/// A text that reads as the variable `name` alone.
pub open spec fn read_name(name: Seq<char>) -> Result<ExprView, Seq<char>> {
    Ok(name_alone(name))
}

/// What `r` holds: an expression, or why there is none.
spec fn tree_result(r: Result<Node, String>) -> Result<ExprView, Seq<char>> {
    match r {
        Ok(node) => Ok(node_tree(node)),
        Err(m) => Err(m@),
    }
}

/// `build_operator_tree` reads a text as an expression without evaluating it;
/// what it gives depends on the text alone. It calls itself as deep as the
/// expression is nested, so the text has to be short. A name is read as the
/// variable of that name.
#[verifier::external_body]
fn build_tree(text: &str) -> (r: Result<Node, String>)
    requires
        short(text@),
    ensures
        tree_result(r) == expression(text@),
        plain_name(text@) ==> tree_result(r) == read_name(text@),
{
    evalexpr::build_operator_tree(text).map_err(|e| e.to_string())
}

/// `Node::operator` and `Node::children` give what a node does and the nodes
/// below it.
#[verifier::external_body]
fn level_of(node: &Node) -> (r: (Op, &[Node]))
    ensures
        node_tree(*node).op == r.0@,
        node_tree(*node).parts == r.1@.map_values(|n: Node| node_tree(n)),
{
    let op = match node.operator() {
        Operator::RootNode => Op::Root,
        Operator::Add | Operator::Sub | Operator::Mul | Operator::Div | Operator::Mod => Op::Arithmetic,
        Operator::Neg => Op::Negation,
        Operator::Exp => Op::Power,
        Operator::Tuple => Op::Tuple,
        Operator::VariableIdentifierRead { identifier } => Op::Variable(identifier.clone()),
        Operator::FunctionIdentifier { identifier } => Op::Function(identifier.clone()),
        Operator::Const { value: Value::Int(i) } => Op::Integer(*i),
        Operator::Const { value: Value::Float(x) } => Op::Float(x.to_bits()),
        Operator::Const { value: Value::String(s) } => Op::Text(s.clone()),
        _ => Op::Other,
    };
    (op, node.children())
}

/// The expression at a node.
fn expr_of(node: &Node) -> (e: Expr)
    ensures
        e@ == node_tree(*node),
    decreases node_tree(*node),
{
    let (op, nodes) = level_of(node);
    let ghost all = node_tree(*node).parts;
    let mut parts: Vec<Expr> = Vec::new();
    let mut i: usize = 0;
    while i < nodes.len()
        invariant
            i <= nodes.len(),
            all == nodes@.map_values(|n: Node| node_tree(n)),
            all == node_tree(*node).parts,
            parts@.len() == i,
            forall|k: int| 0 <= k < i ==> (#[trigger] parts@[k])@ == all[k],
        decreases nodes.len() - i,
    {
        proof {
            assert(all[i as int] == node_tree(nodes@[i as int]));
            assert(decreases_to!(node_tree(*node) => node_tree(*node).parts[i as int]));
        }
        parts.push(expr_of(&nodes[i]));
        i = i + 1;
    }
    let e = Expr { op, parts };
    proof {
        assert(e@.parts =~= all);
    }
    e
}

/// Reads a text as an expression, or says why it is none.
pub fn read_expression(text: &str) -> (r: Result<Expr, String>)
    requires
        short(text@),
    ensures
        match expression(text@) {
            Ok(e) => r matches Ok(x) && x@ == e,
            Err(m) => r matches Err(x) && x@ == m,
        },
        plain_name(text@) ==> (r matches Ok(x) && x@ == name_alone(text@)),
{
    match build_tree(text) {
        Ok(node) => Ok(expr_of(&node)),
        Err(m) => Err(m),
    }
}

} // verus!
