//! The stack-machine executor: compile the tree to a flat postfix program,
//! then run that program left to right against an explicit stack.
use vstd::prelude::*;

use crate::ast::{apply_op, eval_node, EvalFault, Node, Operator};
use crate::{fault_error, outcome_of, Executor, ExecutorError};
use crate::interpreter::InterpreterError;

verus! {

/// One instruction of a postfix program: push a value, or pop two values,
/// apply an operator to them, and push the result.
#[derive(Clone, Debug, PartialEq)]
pub enum Element {
    Number(i64),
    Operator(Operator),
}

/// The postfix encoding of a tree: the left subtree's program, then the right
/// subtree's, then the node's operator — operands always precede the operator
/// that consumes them.
pub open spec fn program_of(n: Node) -> Seq<Element>
    decreases n,
{
    match n {
        Node::Number(v) => seq![Element::Number(v)],
        Node::BinaryOperator { operator, left, right } => program_of(*left) + program_of(*right)
            + seq![Element::Operator(operator)],
    }
}

/// One instruction applied to a stack. A number is pushed. An operator pops
/// the right operand, then — after the divide-by-zero check, which comes
/// first — the left operand, and pushes `left op right`. Popping an operand
/// that is not there is a malformed-program error.
pub open spec fn step(stack: Seq<i64>, e: Element) -> Result<Seq<i64>, ExecutorError> {
    match e {
        Element::Number(v) => Ok(stack.push(v)),
        Element::Operator(op) => if stack.len() == 0 {
            Err(ExecutorError::VMExecutorError)
        } else if op == Operator::Divide && stack.last() == 0 {
            Err(fault_error(EvalFault::DivideByZero))
        } else if stack.len() < 2 {
            Err(ExecutorError::VMExecutorError)
        } else {
            match apply_op(op, stack[stack.len() - 2], stack.last()) {
                Ok(v) => Ok(stack.drop_last().drop_last().push(v)),
                Err(f) => Err(fault_error(f)),
            }
        },
    }
}

/// A program run left to right from a given stack: the final stack, or the
/// first error.
pub open spec fn run_from(stack: Seq<i64>, prog: Seq<Element>) -> Result<Seq<i64>, ExecutorError>
    decreases prog.len(),
{
    if prog.len() == 0 {
        Ok(stack)
    } else {
        match step(stack, prog[0]) {
            Ok(s2) => run_from(s2, prog.drop_first()),
            Err(e) => Err(e),
        }
    }
}

/// A whole program run against an empty stack. After full consumption the
/// stack must hold exactly one value — the result; any other residual size is
/// a malformed-program error.
pub open spec fn run_program(prog: Seq<Element>) -> Result<i64, ExecutorError> {
    match run_from(Seq::empty(), prog) {
        Ok(stack) => if stack.len() == 1 {
            Ok(stack[0])
        } else {
            Err(ExecutorError::VMExecutorError)
        },
        Err(e) => Err(e),
    }
}

/// Running a concatenation runs the first part, then the second from where
/// the first left off; an error in the first part is final.
pub proof fn lemma_run_from_append(stack: Seq<i64>, p1: Seq<Element>, p2: Seq<Element>)
    ensures
        run_from(stack, p1 + p2) == (match run_from(stack, p1) {
            Ok(s2) => run_from(s2, p2),
            Err(e) => Err::<Seq<i64>, ExecutorError>(e),
        }),
    decreases p1.len(),
{
    if p1.len() == 0 {
        assert(p1 + p2 =~= p2);
    } else {
        assert((p1 + p2)[0] == p1[0]);
        assert((p1 + p2).drop_first() =~= p1.drop_first() + p2);
        match step(stack, p1[0]) {
            Ok(s2) => {
                lemma_run_from_append(s2, p1.drop_first(), p2);
            },
            Err(_) => {},
        }
    }
}

/// Extending a program by one instruction runs the program, then that
/// instruction.
pub proof fn lemma_run_from_snoc(stack: Seq<i64>, prog: Seq<Element>, e: Element)
    ensures
        run_from(stack, prog.push(e)) == (match run_from(stack, prog) {
            Ok(s2) => step(s2, e),
            Err(err) => Err::<Seq<i64>, ExecutorError>(err),
        }),
{
    assert(prog.push(e) =~= prog + seq![e]);
    lemma_run_from_append(stack, prog, seq![e]);
    match run_from(stack, prog) {
        Ok(s2) => {
            assert(seq![e][0] == e);
            assert(seq![e].drop_first() =~= Seq::<Element>::empty());
            match step(s2, e) {
                Ok(s3) => {
                    assert(run_from(s3, seq![e].drop_first()) == Ok::<Seq<i64>, ExecutorError>(s3));
                },
                Err(_) => {},
            }
        },
        Err(_) => {},
    }
}

/// Compiler correctness: from any stack, a tree's program pushes exactly the
/// tree's value, or stops with the tree's evaluation fault — never with a
/// malformed-program error.
pub proof fn lemma_compile_correct(n: Node, stack: Seq<i64>)
    ensures
        run_from(stack, program_of(n)) == (match eval_node(n) {
            Ok(v) => Ok::<Seq<i64>, ExecutorError>(stack.push(v)),
            Err(f) => Err::<Seq<i64>, ExecutorError>(fault_error(f)),
        }),
    decreases n,
{
    match n {
        Node::Number(v) => {
            let prog = program_of(n);
            assert(prog =~= seq![Element::Number(v)]);
            assert(prog[0] == Element::Number(v));
            assert(step(stack, prog[0]) == Ok::<Seq<i64>, ExecutorError>(stack.push(v)));
            assert(prog.drop_first() =~= Seq::<Element>::empty());
            assert(run_from(stack.push(v), prog.drop_first()) == Ok::<Seq<i64>, ExecutorError>(
                stack.push(v),
            ));
        },
        Node::BinaryOperator { operator, left, right } => {
            let pl = program_of(*left);
            let pr = program_of(*right);
            let pop = seq![Element::Operator(operator)];
            assert(program_of(n) =~= pl + (pr + pop));
            lemma_run_from_append(stack, pl, pr + pop);
            lemma_compile_correct(*left, stack);
            match eval_node(*left) {
                Ok(l) => {
                    lemma_run_from_append(stack.push(l), pr, pop);
                    lemma_compile_correct(*right, stack.push(l));
                    match eval_node(*right) {
                        Ok(r) => {
                            let s2 = stack.push(l).push(r);
                            assert(pop[0] == Element::Operator(operator));
                            assert(pop.drop_first() =~= Seq::<Element>::empty());
                            assert(s2.last() == r);
                            assert(s2[s2.len() - 2] == l);
                            match apply_op(operator, l, r) {
                                Ok(v) => {
                                    assert(s2.drop_last().drop_last().push(v) =~= stack.push(v));
                                    assert(run_from(
                                        s2.drop_last().drop_last().push(v),
                                        pop.drop_first(),
                                    ) == Ok::<Seq<i64>, ExecutorError>(stack.push(v)));
                                },
                                Err(_) => {},
                            }
                        },
                        Err(_) => {},
                    }
                },
                Err(_) => {},
            }
        },
    }
}

/// The two execution strategies agree on every tree: running the compiled
/// program gives exactly the outcome of evaluating the tree directly.
pub proof fn lemma_executor_equivalence(n: Node)
    ensures
        run_program(program_of(n)) == outcome_of(eval_node(n)),
{
    lemma_compile_correct(n, Seq::empty());
    match eval_node(n) {
        Ok(v) => {
            assert(Seq::<i64>::empty().push(v).len() == 1);
            assert(Seq::<i64>::empty().push(v)[0] == v);
        },
        Err(_) => {},
    }
}

/// Structural invariant of compiled programs: whenever evaluation succeeds,
/// full consumption of the compiled program leaves exactly one residual value
/// on the stack — the result; and when evaluation faults, the run stops with
/// that fault, never with a malformed-program error.
pub proof fn lemma_compiled_single_result(n: Node)
    ensures
        (match eval_node(n) {
            Ok(v) => run_from(Seq::empty(), program_of(n)) == Ok::<Seq<i64>, ExecutorError>(
                seq![v],
            ),
            Err(f) => run_from(Seq::empty(), program_of(n)) == Err::<Seq<i64>, ExecutorError>(
                fault_error(f),
            ),
        }),
{
    lemma_compile_correct(n, Seq::empty());
    match eval_node(n) {
        Ok(v) => {
            assert(Seq::<i64>::empty().push(v) =~= seq![v]);
        },
        Err(_) => {},
    }
}

/// Evaluates a tree by compiling it to a postfix program and running that
/// program.
pub struct VMExecutor {}

impl VMExecutor {
    /// Lower a tree to its postfix program by postorder traversal. Every tree
    /// compiles; the `Result` is kept for structural errors of future
    /// lowerings, of which the present grammar has none.
    pub fn compile(&self, node: &Node) -> (r: Result<Vec<Element>, ExecutorError>)
        ensures
            (match r {
                Ok(p) => p@ == program_of(*node),
                Err(_) => false,
            }),
        decreases *node,
    {
        let mut elements: Vec<Element> = Vec::new();
        match node {
            Node::Number(n) => {
                elements.push(Element::Number(*n));
                proof {
                    assert(elements@ =~= program_of(*node));
                }
            },
            Node::BinaryOperator { operator, left, right } => {
                let mut l = match self.compile(left) {
                    Ok(v) => v,
                    Err(e) => {
                        return Err(e);
                    },
                };
                elements.append(&mut l);
                let mut r = match self.compile(right) {
                    Ok(v) => v,
                    Err(e) => {
                        return Err(e);
                    },
                };
                elements.append(&mut r);
                elements.push(Element::Operator(*operator));
                proof {
                    assert(elements@ =~= program_of(*node));
                }
            },
        }
        Ok(elements)
    }

    /// Run a postfix program left to right against an explicit stack, exactly
    /// as [`run_program`] says.
    pub fn eval(&self, proto: &Vec<Element>) -> (r: Result<i64, ExecutorError>)
        ensures
            r == run_program(proto@),
    {
        let mut eval_stack: Vec<i64> = Vec::new();
        let mut i: usize = 0;
        while i < proto.len()
            invariant
                i <= proto@.len(),
                run_from(Seq::empty(), proto@.take(i as int)) == Ok::<Seq<i64>, ExecutorError>(
                    eval_stack@,
                ),
            decreases proto@.len() - i,
        {
            let ghost prefix = proto@.take(i as int);
            let ghost whole = proto@;
            let ghost stack0 = eval_stack@;
            proof {
                lemma_run_from_snoc(Seq::empty(), prefix, whole[i as int]);
                assert(prefix.push(whole[i as int]) =~= whole.take(i + 1));
                assert(whole.take(i + 1) + whole.skip(i + 1) =~= whole);
                lemma_run_from_append(Seq::empty(), whole.take(i + 1), whole.skip(i + 1));
            }
            match &proto[i] {
                Element::Number(n) => {
                    eval_stack.push(*n);
                },
                Element::Operator(op) => {
                    let right = match eval_stack.pop() {
                        Some(v) => v,
                        None => {
                            return Err(ExecutorError::VMExecutorError);
                        },
                    };
                    if matches!(op, Operator::Divide) && right == 0 {
                        return Err(
                            ExecutorError::InterpreterError(InterpreterError::DivideByZero),
                        );
                    }
                    let left = match eval_stack.pop() {
                        Some(v) => v,
                        None => {
                            return Err(ExecutorError::VMExecutorError);
                        },
                    };
                    let combined = match op {
                        Operator::Plus => left.checked_add(right),
                        Operator::Minus => left.checked_sub(right),
                        Operator::Multiply => left.checked_mul(right),
                        Operator::Divide => left.checked_div(right),
                    };
                    match combined {
                        Some(v) => {
                            eval_stack.push(v);
                            proof {
                                assert(stack0.drop_last().drop_last().push(v) =~= eval_stack@);
                            }
                        },
                        None => {
                            return Err(
                                ExecutorError::InterpreterError(InterpreterError::Overflow),
                            );
                        },
                    }
                },
            }
            i = i + 1;
        }
        proof {
            assert(proto@.take(proto@.len() as int) =~= proto@);
        }
        if eval_stack.len() == 1 {
            Ok(eval_stack[0])
        } else {
            Err(ExecutorError::VMExecutorError)
        }
    }
}

impl Executor for VMExecutor {
    fn execute_ast(&self, root: &Node) -> (r: Result<i64, ExecutorError>) {
        let proto = match self.compile(root) {
            Ok(p) => p,
            Err(e) => {
                return Err(e);
            },
        };
        let res = self.eval(&proto);
        proof {
            lemma_executor_equivalence(*root);
        }
        res
    }
}

} // verus!
