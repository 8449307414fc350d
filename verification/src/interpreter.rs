//! The tree-walking interpreter: direct structural recursion over the tree.
use vstd::prelude::*;

use crate::ast::{eval_node, EvalFault, Node, Operator};
use crate::{outcome_of, Executor, ExecutorError};

verus! {

/// An evaluation error, shared by both executors: the right operand of a
/// division was zero, or an intermediate result left the 64-bit signed range.
#[derive(Clone, Copy, Debug, PartialEq, Eq, Structural)]
pub enum InterpreterError {
    DivideByZero,
    Overflow,
}

/// Evaluates a tree by walking it recursively.
pub struct Interpreter {}

/// Recursive evaluation of one tree: left child first, then the right child,
/// then the operator, exactly as [`eval_node`] demands.
fn eval_tree(root: &Node) -> (r: Result<i64, ExecutorError>)
    ensures
        r == outcome_of(eval_node(*root)),
    decreases *root,
{
    match root {
        Node::Number(n) => Ok(*n),
        Node::BinaryOperator { operator, left, right } => {
            let left = eval_tree(left)?;
            let right = eval_tree(right)?;
            match operator {
                Operator::Plus => match left.checked_add(right) {
                    Some(v) => Ok(v),
                    None => Err(ExecutorError::InterpreterError(InterpreterError::Overflow)),
                },
                Operator::Minus => match left.checked_sub(right) {
                    Some(v) => Ok(v),
                    None => Err(ExecutorError::InterpreterError(InterpreterError::Overflow)),
                },
                Operator::Multiply => match left.checked_mul(right) {
                    Some(v) => Ok(v),
                    None => Err(ExecutorError::InterpreterError(InterpreterError::Overflow)),
                },
                Operator::Divide => {
                    if right == 0 {
                        return Err(
                            ExecutorError::InterpreterError(InterpreterError::DivideByZero),
                        );
                    }
                    match left.checked_div(right) {
                        Some(v) => Ok(v),
                        None => Err(ExecutorError::InterpreterError(InterpreterError::Overflow)),
                    }
                },
            }
        },
    }
}

impl Executor for Interpreter {
    fn execute_ast(&self, root: &Node) -> (r: Result<i64, ExecutorError>) {
        eval_tree(root)
    }
}

} // verus!
