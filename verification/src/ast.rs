//! The shared expression tree: operators, nodes, and the evaluation
//! semantics that both executors are held to.
use vstd::arithmetic::div_mod::{
    lemma_div_is_ordered_by_denominator, lemma_div_nonincreasing, lemma_div_pos_is_pos,
    lemma_fundamental_div_mod, lemma_mod_bound,
};
use vstd::math::abs;
use vstd::prelude::*;
use vstd::string::StringSliceAdditionalSpecFns;

use crate::parser::{parse_str, spec_parse, ParseError};

verus! {

/// The four binary operators of the grammar.
#[derive(Clone, Copy, Debug, PartialEq, Eq, Structural)]
pub enum Operator {
    Plus,
    Minus,
    Multiply,
    Divide,
}

/// An expression tree: a 64-bit integer leaf, or an operator node that owns
/// its two children outright. Trees are built once by the parser and never
/// mutated afterwards.
#[derive(Debug, PartialEq)]
pub enum Node {
    Number(i64),
    BinaryOperator { operator: Operator, left: Box<Node>, right: Box<Node> },
}

/// A fault that evaluation itself can raise: division by zero, or a result
/// (of any intermediate step) that does not fit in a 64-bit signed integer.
/// Arithmetic is checked — an executor reports `Overflow` rather than wrap
/// or panic.
#[derive(Clone, Copy, Debug, PartialEq, Eq, Structural)]
pub enum EvalFault {
    DivideByZero,
    Overflow,
}

/// What `left op right` yields: checked 64-bit arithmetic, with truncating
/// (toward zero) division, `DivideByZero` when the right operand of `/` is
/// zero, and `Overflow` when the exact result leaves the 64-bit signed range.
pub open spec fn apply_op(op: Operator, left: i64, right: i64) -> Result<i64, EvalFault> {
    match op {
        Operator::Plus => match left.checked_add(right) {
            Some(v) => Ok(v),
            None => Err(EvalFault::Overflow),
        },
        Operator::Minus => match left.checked_sub(right) {
            Some(v) => Ok(v),
            None => Err(EvalFault::Overflow),
        },
        Operator::Multiply => match left.checked_mul(right) {
            Some(v) => Ok(v),
            None => Err(EvalFault::Overflow),
        },
        Operator::Divide => if right == 0 {
            Err(EvalFault::DivideByZero)
        } else {
            match left.checked_div(right) {
                Some(v) => Ok(v),
                None => Err(EvalFault::Overflow),
            }
        },
    }
}

/// The evaluation semantics of a tree: a leaf is its value; an operator node
/// evaluates its left child, then its right child, then combines the two
/// values. The first fault encountered (left subtree first) is the result.
pub open spec fn eval_node(n: Node) -> Result<i64, EvalFault>
    decreases n,
{
    match n {
        Node::Number(v) => Ok(v),
        Node::BinaryOperator { operator, left, right } => match eval_node(*left) {
            Ok(l) => match eval_node(*right) {
                Ok(r) => apply_op(operator, l, r),
                Err(f) => Err(f),
            },
            Err(f) => Err(f),
        },
    }
}

/// Division truncates toward zero. Whenever `l / r` is defined — a nonzero
/// divisor and not `i64::MIN / -1` — it succeeds with a quotient whose
/// magnitude is `|l| / |r|` and whose sign follows the operands' signs, and
/// the remainder it leaves has the dividend's sign (or is zero) and is
/// smaller in magnitude than the divisor.
pub proof fn lemma_division_truncates(l: i64, r: i64)
    requires
        r != 0,
        !(l == i64::MIN && r == -1),
    ensures
        apply_op(Operator::Divide, l, r) matches Ok(q) && {
            let rem = l as int - (q as int) * (r as int);
            q as int == (if (l as int >= 0) == (r as int >= 0) {
                abs(l as int) as int / abs(r as int) as int
            } else {
                -(abs(l as int) as int / abs(r as int) as int)
            }) && (if l >= 0 {
                0 <= rem
            } else {
                rem <= 0
            }) && abs(rem) < abs(r as int)
        },
{
    let li = l as int;
    let ri = r as int;
    let al = abs(li) as int;
    let ar = abs(ri) as int;
    let q0 = al / ar;
    let m = al % ar;
    lemma_div_pos_is_pos(al, ar);
    lemma_div_nonincreasing(al, ar);
    lemma_fundamental_div_mod(al, ar);
    lemma_mod_bound(al, ar);
    if al == -(i64::MIN as int) {
        if ar >= 2 {
            lemma_div_is_ordered_by_denominator(al, 2, ar);
        }
    }
    assert(al == ar * q0 + m);
    if li >= 0 && ri > 0 {
        assert(li - q0 * ri == m) by (nonlinear_arith)
            requires
                li == ri * q0 + m,
        ;
    } else if li < 0 && ri < 0 {
        assert(li - q0 * ri == -m) by (nonlinear_arith)
            requires
                -li == -ri * q0 + m,
        ;
    } else if li < 0 && ri > 0 {
        assert(li - (-q0) * ri == -m) by (nonlinear_arith)
            requires
                -li == ri * q0 + m,
        ;
    } else {
        assert(li - (-q0) * ri == m) by (nonlinear_arith)
            requires
                li == -ri * q0 + m,
        ;
    }
}

/// Builds expression trees from text.
pub struct AstBuilder {}

impl AstBuilder {
    /// Parse one line of text into an expression tree.
    pub fn build_ast(s: &str) -> (r: Result<Node, ParseError>)
        ensures
            r == spec_parse(s.spec_bytes()),
    {
        let node = parse_str(s)?;
        Ok(node)
    }
}

} // verus!
