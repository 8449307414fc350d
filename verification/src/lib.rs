//! A small calculator core: a parser that turns one line of text into an
//! arithmetic expression tree, and two interchangeable executors for that
//! tree — a tree-walking interpreter and a compile-then-run stack machine.
//! Both executors implement the [`Executor`] trait and are proved to return
//! exactly the outcome demanded by the shared evaluation semantics
//! [`eval_node`].
use vstd::prelude::*;

mod ast;
pub mod executor;
mod interpreter;
pub mod parser;

pub use ast::AstBuilder;
pub use ast::EvalFault;
pub use ast::Node;
pub use ast::Operator;
pub use ast::apply_op;
pub use ast::eval_node;
pub use ast::lemma_division_truncates;
pub use executor::Element;
pub use executor::VMExecutor;
pub use interpreter::Interpreter;
pub use interpreter::InterpreterError;

verus! {

/// An error reported by an executor: either an evaluation error (wrapped in
/// [`InterpreterError`], the shared evaluation-error type of both executors),
/// or a malformed stack-machine program — an internal invariant violation
/// that a program produced by `compile` never triggers.
#[derive(Debug, PartialEq)]
pub enum ExecutorError {
    InterpreterError(InterpreterError),
    VMExecutorError,
}

/// How an evaluation fault surfaces from an executor.
pub open spec fn fault_error(f: EvalFault) -> ExecutorError {
    match f {
        EvalFault::DivideByZero => ExecutorError::InterpreterError(InterpreterError::DivideByZero),
        EvalFault::Overflow => ExecutorError::InterpreterError(InterpreterError::Overflow),
    }
}

/// The result that every executor owes for a tree whose evaluation semantics
/// give `res`: the value itself, or the evaluation fault mapped onto
/// [`ExecutorError`].
pub open spec fn outcome_of(res: Result<i64, EvalFault>) -> Result<i64, ExecutorError> {
    match res {
        Ok(v) => Ok(v),
        Err(f) => Err(fault_error(f)),
    }
}

/// One capability, two implementations: evaluate an expression tree to a
/// 64-bit integer. Every implementor must return exactly the outcome of the
/// shared evaluation semantics, so all executors agree on every tree.
pub trait Executor {
    fn execute_ast(&self, root: &Node) -> (r: Result<i64, ExecutorError>)
        ensures
            r == outcome_of(eval_node(*root)),
    ;
}

} // verus!
