use rcalc::{Executor, ExecutorError, Interpreter, InterpreterError, Node, Operator};

#[test]
fn test_interpreter() {
    let expr_node = [
        Node::BinaryOperator {
            operator: Operator::Plus,
            left: Box::new(Node::Number(1)),
            right: Box::new(Node::Number(2)),
        },
        Node::BinaryOperator {
            operator: Operator::Minus,
            left: Box::new(Node::Number(2)),
            right: Box::new(Node::Number(1)),
        },
        Node::BinaryOperator {
            operator: Operator::Multiply,
            left: Box::new(Node::Number(3)),
            right: Box::new(Node::Number(2)),
        },
        Node::BinaryOperator {
            operator: Operator::Divide,
            left: Box::new(Node::Number(4)),
            right: Box::new(Node::Number(1)),
        },
    ];
    let expected = [3i64, 1, 6, 4];

    for (i, e) in expr_node.iter().enumerate() {
        let res = Interpreter {}.execute_ast(e);
        assert!(res.is_ok());
        assert_eq!(res.unwrap(), expected[i]);
    }
}

fn div_node(left: i64, right: i64) -> Node {
    Node::BinaryOperator {
        operator: Operator::Divide,
        left: Box::new(Node::Number(left)),
        right: Box::new(Node::Number(right)),
    }
}

#[test]
fn division_truncates_toward_zero() {
    assert_eq!(Interpreter {}.execute_ast(&div_node(7, 2)).unwrap(), 3);
    assert_eq!(Interpreter {}.execute_ast(&div_node(-7, 2)).unwrap(), -3);
    assert_eq!(Interpreter {}.execute_ast(&div_node(7, -2)).unwrap(), -3);
    assert_eq!(Interpreter {}.execute_ast(&div_node(-7, -2)).unwrap(), 3);
}

#[test]
fn interpreter_divide_by_zero() {
    let res = Interpreter {}.execute_ast(&div_node(1, 0));
    assert_eq!(
        res,
        Err(ExecutorError::InterpreterError(InterpreterError::DivideByZero))
    );
}

#[test]
fn interpreter_overflow() {
    let sum = Node::BinaryOperator {
        operator: Operator::Plus,
        left: Box::new(Node::Number(i64::MAX)),
        right: Box::new(Node::Number(1)),
    };
    assert_eq!(
        Interpreter {}.execute_ast(&sum),
        Err(ExecutorError::InterpreterError(InterpreterError::Overflow))
    );
    assert_eq!(
        Interpreter {}.execute_ast(&div_node(i64::MIN, -1)),
        Err(ExecutorError::InterpreterError(InterpreterError::Overflow))
    );
}
