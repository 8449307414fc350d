use rcalc::{Element, Executor, ExecutorError, Interpreter, InterpreterError, Node, Operator, VMExecutor};

#[test]
fn test_compile() {
    let expr_node = [
        Node::BinaryOperator {
            operator: Operator::Plus,
            left: Box::new(Node::Number(1)),
            right: Box::new(Node::Number(2)),
        },
        Node::BinaryOperator {
            operator: Operator::Minus,
            left: Box::new(Node::Number(2)),
            right: Box::new(Node::Number(1)),
        },
        Node::BinaryOperator {
            operator: Operator::Multiply,
            left: Box::new(Node::Number(3)),
            right: Box::new(Node::Number(2)),
        },
        Node::BinaryOperator {
            operator: Operator::Divide,
            left: Box::new(Node::Number(4)),
            right: Box::new(Node::Number(1)),
        },
    ];
    let expected = [
        vec![
            Element::Number(1),
            Element::Number(2),
            Element::Operator(Operator::Plus),
        ],
        vec![
            Element::Number(2),
            Element::Number(1),
            Element::Operator(Operator::Minus),
        ],
        vec![
            Element::Number(3),
            Element::Number(2),
            Element::Operator(Operator::Multiply),
        ],
        vec![
            Element::Number(4),
            Element::Number(1),
            Element::Operator(Operator::Divide),
        ],
    ];

    for (i, e) in expr_node.iter().enumerate() {
        let res = VMExecutor {}.compile(e);
        assert!(res.is_ok());
        assert_eq!(res.unwrap()[..], expected[i][..]);
    }
}

#[test]
fn test_eval() {
    let expr = [
        vec![
            Element::Number(1),
            Element::Number(2),
            Element::Operator(Operator::Plus),
        ],
        vec![
            Element::Number(2),
            Element::Number(1),
            Element::Operator(Operator::Minus),
        ],
        vec![
            Element::Number(3),
            Element::Number(2),
            Element::Operator(Operator::Multiply),
        ],
        vec![
            Element::Number(4),
            Element::Number(1),
            Element::Operator(Operator::Divide),
        ],
    ];
    let expected = [3, 1, 6, 4];

    for (i, e) in expr.iter().enumerate() {
        let res = VMExecutor {}.eval(e);
        assert!(res.is_ok());
        assert_eq!(res.unwrap(), expected[i]);
    }
}

#[test]
fn compile_is_postorder() {
    // 1 + 2 * 3: operands precede their operator, subtrees left before right.
    let node = Node::BinaryOperator {
        operator: Operator::Plus,
        left: Box::new(Node::Number(1)),
        right: Box::new(Node::BinaryOperator {
            operator: Operator::Multiply,
            left: Box::new(Node::Number(2)),
            right: Box::new(Node::Number(3)),
        }),
    };
    let program = VMExecutor {}.compile(&node).unwrap();
    assert_eq!(
        program,
        vec![
            Element::Number(1),
            Element::Number(2),
            Element::Number(3),
            Element::Operator(Operator::Multiply),
            Element::Operator(Operator::Plus),
        ]
    );
    assert_eq!(VMExecutor {}.eval(&program).unwrap(), 7);
}

#[test]
fn vm_divide_by_zero() {
    let program = vec![
        Element::Number(1),
        Element::Number(0),
        Element::Operator(Operator::Divide),
    ];
    assert_eq!(
        VMExecutor {}.eval(&program),
        Err(ExecutorError::InterpreterError(InterpreterError::DivideByZero))
    );
}

#[test]
fn vm_malformed_programs() {
    // An empty program leaves no residual value.
    assert_eq!(
        VMExecutor {}.eval(&vec![]),
        Err(ExecutorError::VMExecutorError)
    );
    // Two residual values after full consumption.
    assert_eq!(
        VMExecutor {}.eval(&vec![Element::Number(1), Element::Number(2)]),
        Err(ExecutorError::VMExecutorError)
    );
    // An operator with no operands at all.
    assert_eq!(
        VMExecutor {}.eval(&vec![Element::Operator(Operator::Plus)]),
        Err(ExecutorError::VMExecutorError)
    );
    // An operator with one operand; the divide-by-zero check on the popped
    // right operand comes before the missing left operand is noticed.
    assert_eq!(
        VMExecutor {}.eval(&vec![Element::Number(0), Element::Operator(Operator::Divide)]),
        Err(ExecutorError::InterpreterError(InterpreterError::DivideByZero))
    );
    assert_eq!(
        VMExecutor {}.eval(&vec![Element::Number(1), Element::Operator(Operator::Plus)]),
        Err(ExecutorError::VMExecutorError)
    );
}

#[test]
fn executors_agree() {
    let trees = [
        Node::Number(42),
        Node::BinaryOperator {
            operator: Operator::Minus,
            left: Box::new(Node::BinaryOperator {
                operator: Operator::Minus,
                left: Box::new(Node::Number(10)),
                right: Box::new(Node::Number(4)),
            }),
            right: Box::new(Node::Number(3)),
        },
        Node::BinaryOperator {
            operator: Operator::Divide,
            left: Box::new(Node::Number(-7)),
            right: Box::new(Node::Number(2)),
        },
        Node::BinaryOperator {
            operator: Operator::Divide,
            left: Box::new(Node::Number(1)),
            right: Box::new(Node::Number(0)),
        },
        Node::BinaryOperator {
            operator: Operator::Multiply,
            left: Box::new(Node::Number(i64::MAX)),
            right: Box::new(Node::Number(2)),
        },
    ];
    for tree in trees.iter() {
        assert_eq!(Interpreter {}.execute_ast(tree), VMExecutor {}.execute_ast(tree));
    }
    assert_eq!(VMExecutor {}.execute_ast(&Node::Number(42)).unwrap(), 42);
}
