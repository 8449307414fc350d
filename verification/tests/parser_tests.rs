use rcalc::parser::{parse, parse_str, ParseError, Position};
use rcalc::{Executor, Interpreter, Node, Operator, VMExecutor};

#[test]
fn test_add_sub_expression() {
    let expr_str = [" 1 + 2", "2-1", "3", "2*1", "3/1", " 1 + 2 * \t\n3"];

    let expected_node = [
        Node::BinaryOperator {
            operator: Operator::Plus,
            left: Box::new(Node::Number(1)),
            right: Box::new(Node::Number(2)),
        },
        Node::BinaryOperator {
            operator: Operator::Minus,
            left: Box::new(Node::Number(2)),
            right: Box::new(Node::Number(1)),
        },
        Node::Number(3),
        Node::BinaryOperator {
            operator: Operator::Multiply,
            left: Box::new(Node::Number(2)),
            right: Box::new(Node::Number(1)),
        },
        Node::BinaryOperator {
            operator: Operator::Divide,
            left: Box::new(Node::Number(3)),
            right: Box::new(Node::Number(1)),
        },
        Node::BinaryOperator {
            operator: Operator::Plus,
            left: Box::new(Node::Number(1)),
            right: Box::new(Node::BinaryOperator {
                operator: Operator::Multiply,
                left: Box::new(Node::Number(2)),
                right: Box::new(Node::Number(3)),
            }),
        },
    ];

    for (i, e) in expr_str.iter().enumerate() {
        let res = parse(e.as_bytes());
        assert!(res.is_ok());
        let (node, used) = res.unwrap();
        assert_eq!(used, e.len());
        assert_eq!(node, expected_node[i]);
    }
}

#[test]
fn precedence() {
    // a + b * c groups as a + (b * c) ...
    let plus_first = parse_str("2+3*4").unwrap();
    assert_eq!(
        plus_first,
        Node::BinaryOperator {
            operator: Operator::Plus,
            left: Box::new(Node::Number(2)),
            right: Box::new(Node::BinaryOperator {
                operator: Operator::Multiply,
                left: Box::new(Node::Number(3)),
                right: Box::new(Node::Number(4)),
            }),
        }
    );
    assert_eq!(Interpreter {}.execute_ast(&plus_first).unwrap(), 14);
    assert_eq!(VMExecutor {}.execute_ast(&plus_first).unwrap(), 14);
    // ... and a * b + c as (a * b) + c.
    let mul_first = parse_str("2*3+4").unwrap();
    assert_eq!(
        mul_first,
        Node::BinaryOperator {
            operator: Operator::Plus,
            left: Box::new(Node::BinaryOperator {
                operator: Operator::Multiply,
                left: Box::new(Node::Number(2)),
                right: Box::new(Node::Number(3)),
            }),
            right: Box::new(Node::Number(4)),
        }
    );
    assert_eq!(Interpreter {}.execute_ast(&mul_first).unwrap(), 10);
    assert_eq!(VMExecutor {}.execute_ast(&mul_first).unwrap(), 10);
}

#[test]
fn left_associativity() {
    // a - b - c groups as (a - b) - c, not a - (b - c).
    let tree = parse_str("10-4-3").unwrap();
    assert_eq!(
        tree,
        Node::BinaryOperator {
            operator: Operator::Minus,
            left: Box::new(Node::BinaryOperator {
                operator: Operator::Minus,
                left: Box::new(Node::Number(10)),
                right: Box::new(Node::Number(4)),
            }),
            right: Box::new(Node::Number(3)),
        }
    );
    assert_eq!(Interpreter {}.execute_ast(&tree).unwrap(), 3);
    assert_eq!(VMExecutor {}.execute_ast(&tree).unwrap(), 3);
}

#[test]
fn whitespace_tolerance() {
    let spaced = parse_str(" 1   +   2 ").unwrap();
    let tight = parse_str("1+2").unwrap();
    assert_eq!(spaced, tight);
    assert_eq!(Interpreter {}.execute_ast(&spaced).unwrap(), 3);
    assert_eq!(VMExecutor {}.execute_ast(&spaced).unwrap(), 3);
}

#[test]
fn divide_by_zero_parses_then_fails() {
    let tree = parse_str("1 / 0").unwrap();
    assert!(Interpreter {}.execute_ast(&tree).is_err());
    assert!(VMExecutor {}.execute_ast(&tree).is_err());
}

#[test]
fn syntax_error_positions() {
    // A dangling operator: the error points after the `+`, where the missing
    // operand was expected.
    assert_eq!(
        parse_str("1 + "),
        Err(ParseError::Syntax { position: Position { line: 1, offset: 5 }, at: 4 })
    );
    // Unconsumed trailing input.
    assert_eq!(
        parse_str("1 2"),
        Err(ParseError::TrailingInput { position: Position { line: 1, offset: 3 }, at: 2 })
    );
    // An empty line holds no expression at all.
    assert_eq!(
        parse_str(""),
        Err(ParseError::Syntax { position: Position { line: 1, offset: 1 }, at: 0 })
    );
    // Positions count lines: the offending byte here is on line two.
    assert_eq!(
        parse_str("1 +\n@"),
        Err(ParseError::Syntax { position: Position { line: 2, offset: 1 }, at: 4 })
    );
}

#[test]
fn literal_overflow_is_rejected() {
    assert_eq!(parse_str("9223372036854775807"), Ok(Node::Number(i64::MAX)));
    assert_eq!(
        parse_str("9223372036854775808"),
        Err(ParseError::LiteralOverflow { position: Position { line: 1, offset: 1 }, at: 0 })
    );
    assert_eq!(
        parse_str("1 + 99999999999999999999"),
        Err(ParseError::LiteralOverflow { position: Position { line: 1, offset: 5 }, at: 4 })
    );
}

#[test]
fn positions_by_hand() {
    assert_eq!(Position::new(3, 7), Position { line: 3, offset: 7 });
    assert_eq!(Position::new_empty(), Position { line: 0, offset: 0 });
}

#[test]
fn parse_reports_consumed_prefix() {
    // `parse` alone stops before trailing input; `parse_str` rejects it.
    let (node, used) = parse("5*6 rest".as_bytes()).unwrap();
    assert_eq!(used, 3);
    assert_eq!(
        node,
        Node::BinaryOperator {
            operator: Operator::Multiply,
            left: Box::new(Node::Number(5)),
            right: Box::new(Node::Number(6)),
        }
    );
    assert!(parse_str("5*6 rest").is_err());
}
