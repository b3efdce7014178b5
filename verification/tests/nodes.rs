use calculator::literal::parse_literal;
use calculator::{
    parse_expr, CalculatorParser, Expected, Expr, Fault, Op, ParseFailure, SyntaxNode,
};

fn number(offset: usize, text: &str) -> SyntaxNode {
    SyntaxNode::Integer { offset, text: text.as_bytes().to_vec() }
}

fn op(op: Op) -> SyntaxNode {
    SyntaxNode::Operator(op)
}

fn leaf(v: i32) -> Expr {
    Expr::Integer(v)
}

fn bin(lhs: Expr, op: Op, rhs: Expr) -> Expr {
    Expr::BinOp { lhs: Box::new(lhs), op, rhs: Box::new(rhs) }
}

fn internal(fault: Fault) -> Result<Expr, ParseFailure> {
    Err(ParseFailure::Internal { fault })
}

#[test]
fn literal_values_are_exact() {
    assert_eq!(parse_literal(b"0", 0), Ok(0));
    assert_eq!(parse_literal(b"42", 0), Ok(42));
    assert_eq!(parse_literal(b"0000123", 9), Ok(123));
    assert_eq!(parse_literal(b"2147483647", 0), Ok(2147483647));
    assert_eq!(parse_literal(b"-2147483648", 0), Ok(-2147483648));
    assert_eq!(parse_literal(b"-0", 0), Ok(0));
    assert_eq!(parse_literal(b"-17", 3), Ok(-17));
}

#[test]
fn literal_out_of_range_carries_its_position() {
    assert_eq!(
        parse_literal(b"2147483648", 7),
        Err(ParseFailure::NumericOverflow { position: 7 })
    );
    assert_eq!(
        parse_literal(b"-2147483649", 2),
        Err(ParseFailure::NumericOverflow { position: 2 })
    );
    assert_eq!(
        parse_literal(b"18446744073709551616", 0),
        Err(ParseFailure::NumericOverflow { position: 0 })
    );
    assert_eq!(
        parse_literal(b"340282366920938463463374607431768211456000", 0),
        Err(ParseFailure::NumericOverflow { position: 0 })
    );
}

#[test]
fn text_that_is_no_literal_is_a_fault() {
    let malformed = Err(ParseFailure::Internal { fault: Fault::MalformedLiteral });
    assert_eq!(parse_literal(b"", 0), malformed);
    assert_eq!(parse_literal(b"-", 0), malformed);
    assert_eq!(parse_literal(b"+5", 0), malformed);
    assert_eq!(parse_literal(b"12a", 0), malformed);
    assert_eq!(parse_literal(b"1 2", 0), malformed);
    assert_eq!(parse_literal(b"--5", 0), malformed);
    assert_eq!(parse_literal(b"99999999999999999999x", 0), malformed);
}

#[test]
fn tree_of_a_lone_literal_node() {
    assert_eq!(parse_expr(&vec![number(0, "5")]), Ok(leaf(5)));
    assert_eq!(parse_expr(&vec![number(0, "-5")]), Ok(leaf(-5)));
    assert_eq!(parse_expr(&vec![number(0, "-2147483648")]), Ok(leaf(i32::MIN)));
}

#[test]
fn tree_of_hand_built_nodes() {
    // 1 - 2 * 3 - 4
    let nodes = vec![
        number(0, "1"),
        op(Op::Subtract),
        number(4, "2"),
        op(Op::Multiply),
        number(8, "3"),
        op(Op::Subtract),
        number(12, "4"),
    ];
    let expected = bin(
        bin(leaf(1), Op::Subtract, bin(leaf(2), Op::Multiply, leaf(3))),
        Op::Subtract,
        leaf(4),
    );
    assert_eq!(parse_expr(&nodes), Ok(expected));
}

#[test]
fn groups_are_climbed_on_their_own() {
    let sum = vec![number(1, "2"), op(Op::Add), number(5, "3")];
    let negated = vec![number(9, "7"), op(Op::Modulo), number(13, "4")];
    let nodes = vec![
        SyntaxNode::Group(sum),
        op(Op::Multiply),
        SyntaxNode::UnaryMinus(negated),
    ];
    let expected = bin(
        bin(leaf(2), Op::Add, leaf(3)),
        Op::Multiply,
        Expr::UnaryMinus(Box::new(bin(leaf(7), Op::Modulo, leaf(4)))),
    );
    assert_eq!(parse_expr(&nodes), Ok(expected));
}

#[test]
fn sequences_of_the_wrong_shape_are_internal_faults() {
    assert_eq!(parse_expr(&vec![]), internal(Fault::ExpectedAtom));
    assert_eq!(parse_expr(&vec![op(Op::Add)]), internal(Fault::ExpectedAtom));
    assert_eq!(
        parse_expr(&vec![number(0, "1"), op(Op::Add)]),
        internal(Fault::ExpectedAtom)
    );
    assert_eq!(
        parse_expr(&vec![number(0, "1"), op(Op::Multiply), op(Op::Add), number(4, "2")]),
        internal(Fault::ExpectedAtom)
    );
    assert_eq!(
        parse_expr(&vec![number(0, "1"), number(2, "2")]),
        internal(Fault::ExpectedOperator)
    );
    assert_eq!(
        parse_expr(&vec![
            number(0, "1"),
            op(Op::Multiply),
            number(2, "2"),
            SyntaxNode::Group(vec![number(4, "3")]),
        ]),
        internal(Fault::ExpectedOperator)
    );
    assert_eq!(
        parse_expr(&vec![SyntaxNode::Group(vec![])]),
        internal(Fault::ExpectedAtom)
    );
    assert_eq!(
        parse_expr(&vec![number(0, "1x")]),
        internal(Fault::MalformedLiteral)
    );
}

#[test]
fn the_leftmost_fault_is_reported() {
    let overflow = Err(ParseFailure::NumericOverflow { position: 0 });
    assert_eq!(
        parse_expr(&vec![number(0, "99999999999"), number(12, "1")]),
        overflow
    );
    assert_eq!(
        parse_expr(&vec![number(0, "1"), number(2, "99999999999")]),
        internal(Fault::ExpectedOperator)
    );
    assert_eq!(
        parse_expr(&vec![
            number(0, "1"),
            op(Op::Add),
            SyntaxNode::Group(vec![number(5, "4000000000"), op(Op::Add)]),
            op(Op::Add),
            number(20, "5000000000"),
        ]),
        Err(ParseFailure::NumericOverflow { position: 5 })
    );
    assert_eq!(
        parse_expr(&vec![
            number(0, "1"),
            op(Op::Multiply),
            number(4, "2"),
            op(Op::Add),
            number(8, "x"),
            op(Op::Add),
        ]),
        internal(Fault::MalformedLiteral)
    );
}

#[test]
fn grammar_gives_a_flat_sequence() {
    let nodes = CalculatorParser::parse("12 + 3 * 45").unwrap();
    assert_eq!(
        nodes,
        vec![
            number(0, "12"),
            op(Op::Add),
            number(5, "3"),
            op(Op::Multiply),
            number(9, "45"),
        ]
    );
}

#[test]
fn grammar_nests_groups_and_unary_minus() {
    let nodes = CalculatorParser::parse("-(1 - -2) / 3").unwrap();
    let inner = vec![
        number(2, "1"),
        op(Op::Subtract),
        SyntaxNode::UnaryMinus(vec![number(7, "2")]),
    ];
    assert_eq!(
        nodes,
        vec![
            SyntaxNode::UnaryMinus(vec![SyntaxNode::Group(inner)]),
            op(Op::Divide),
            number(12, "3"),
        ]
    );
}

#[test]
fn grammar_does_not_read_values() {
    let nodes = CalculatorParser::parse("99999999999").unwrap();
    assert_eq!(nodes, vec![number(0, "99999999999")]);
}

#[test]
fn grammar_reports_the_first_bad_token() {
    assert_eq!(
        CalculatorParser::parse("1 + (2 * ) 3"),
        Err(ParseFailure::Syntax { position: 9, expected: Expected::Operand })
    );
    assert_eq!(
        CalculatorParser::parse("((1)"),
        Err(ParseFailure::Syntax { position: 4, expected: Expected::OperatorOrClose })
    );
    assert_eq!(
        CalculatorParser::parse("1 + 2 3 +"),
        Err(ParseFailure::Syntax { position: 6, expected: Expected::OperatorOrEnd })
    );
}

#[test]
fn operator_tiers() {
    assert_eq!(Op::Add.tier(), 1);
    assert_eq!(Op::Subtract.tier(), 1);
    assert_eq!(Op::Multiply.tier(), 2);
    assert_eq!(Op::Divide.tier(), 2);
    assert_eq!(Op::Modulo.tier(), 2);
}
