use calculator::{parse, Expected, Expr, Op, ParseFailure};

fn leaf(v: i32) -> Expr {
    Expr::Integer(v)
}

fn neg(e: Expr) -> Expr {
    Expr::UnaryMinus(Box::new(e))
}

fn bin(lhs: Expr, op: Op, rhs: Expr) -> Expr {
    Expr::BinOp { lhs: Box::new(lhs), op, rhs: Box::new(rhs) }
}

fn syntax(position: usize, expected: Expected) -> Result<Expr, ParseFailure> {
    Err(ParseFailure::Syntax { position, expected })
}

#[test]
fn bare_literal_is_a_leaf() {
    assert_eq!(parse("0"), Ok(leaf(0)));
    assert_eq!(parse("7"), Ok(leaf(7)));
    assert_eq!(parse("42"), Ok(leaf(42)));
    assert_eq!(parse("007"), Ok(leaf(7)));
    assert_eq!(parse("2147483647"), Ok(leaf(i32::MAX)));
}

#[test]
fn subtraction_groups_to_the_left() {
    assert_eq!(
        parse("8 - 3 - 2"),
        Ok(bin(bin(leaf(8), Op::Subtract, leaf(3)), Op::Subtract, leaf(2)))
    );
    assert_ne!(
        parse("8 - 3 - 2"),
        Ok(bin(leaf(8), Op::Subtract, bin(leaf(3), Op::Subtract, leaf(2))))
    );
}

#[test]
fn multiplication_binds_tighter_than_addition() {
    assert_eq!(
        parse("2 + 3 * 4"),
        Ok(bin(leaf(2), Op::Add, bin(leaf(3), Op::Multiply, leaf(4))))
    );
    assert_eq!(
        parse("2 * 3 + 4"),
        Ok(bin(bin(leaf(2), Op::Multiply, leaf(3)), Op::Add, leaf(4)))
    );
}

#[test]
fn parentheses_override_precedence() {
    assert_eq!(
        parse("(2 + 3) * 4"),
        Ok(bin(bin(leaf(2), Op::Add, leaf(3)), Op::Multiply, leaf(4)))
    );
    assert_eq!(parse("((7))"), Ok(leaf(7)));
    assert_eq!(
        parse("2 * (3 + 4)"),
        Ok(bin(leaf(2), Op::Multiply, bin(leaf(3), Op::Add, leaf(4))))
    );
}

#[test]
fn unary_minus_binds_tightest_and_nests() {
    assert_eq!(
        parse("-2 * 3"),
        Ok(bin(neg(leaf(2)), Op::Multiply, leaf(3)))
    );
    assert_eq!(parse("--5"), Ok(neg(neg(leaf(5)))));
    assert_eq!(parse("-5"), Ok(neg(leaf(5))));
    assert_eq!(
        parse("2 - -3"),
        Ok(bin(leaf(2), Op::Subtract, neg(leaf(3))))
    );
    assert_eq!(
        parse("-(2 + 3)"),
        Ok(neg(bin(leaf(2), Op::Add, leaf(3))))
    );
    assert_eq!(parse("- 5"), Ok(neg(leaf(5))));
}

#[test]
fn modulo_shares_the_multiplicative_tier() {
    assert_eq!(
        parse("10 % 3 * 2"),
        Ok(bin(bin(leaf(10), Op::Modulo, leaf(3)), Op::Multiply, leaf(2)))
    );
    assert_eq!(
        parse("10 * 3 % 2"),
        Ok(bin(bin(leaf(10), Op::Multiply, leaf(3)), Op::Modulo, leaf(2)))
    );
    assert_eq!(
        parse("1 + 10 % 3"),
        Ok(bin(leaf(1), Op::Add, bin(leaf(10), Op::Modulo, leaf(3))))
    );
    assert_eq!(
        parse("8 / 4 / 2"),
        Ok(bin(bin(leaf(8), Op::Divide, leaf(4)), Op::Divide, leaf(2)))
    );
}

#[test]
fn longer_runs_mix_both_tiers() {
    // 1 + 2 * 3 - 4 / 5 % 6 + 7
    let product = bin(leaf(2), Op::Multiply, leaf(3));
    let quotient = bin(bin(leaf(4), Op::Divide, leaf(5)), Op::Modulo, leaf(6));
    let expected = bin(
        bin(bin(leaf(1), Op::Add, product), Op::Subtract, quotient),
        Op::Add,
        leaf(7),
    );
    assert_eq!(parse("1 + 2 * 3 - 4 / 5 % 6 + 7"), Ok(expected));
}

#[test]
fn malformed_lines_are_syntax_errors() {
    assert_eq!(parse(""), syntax(0, Expected::Operand));
    assert_eq!(parse("2 +"), syntax(3, Expected::Operand));
    assert_eq!(parse("(2 + 3"), syntax(6, Expected::OperatorOrClose));
    assert_eq!(parse("2 3"), syntax(2, Expected::OperatorOrEnd));
    assert_eq!(parse(")2("), syntax(0, Expected::Operand));
}

#[test]
fn more_malformed_lines() {
    assert_eq!(parse("   "), syntax(3, Expected::Operand));
    assert_eq!(parse("2 + 3)"), syntax(5, Expected::OperatorOrEnd));
    assert_eq!(parse("()"), syntax(1, Expected::Operand));
    assert_eq!(parse("2 + * 3"), syntax(4, Expected::Operand));
    assert_eq!(parse("2 $ 3"), syntax(2, Expected::OperatorOrEnd));
    assert_eq!(parse("x"), syntax(0, Expected::Operand));
    assert_eq!(parse("(2 x"), syntax(3, Expected::OperatorOrClose));
    assert_eq!(parse("-"), syntax(1, Expected::Operand));
    assert_eq!(parse("1 2"), syntax(2, Expected::OperatorOrEnd));
    assert_eq!(parse("2 + \u{e9}"), syntax(4, Expected::Operand));
}

#[test]
fn out_of_range_literal_is_a_numeric_overflow() {
    assert_eq!(
        parse("2147483648"),
        Err(ParseFailure::NumericOverflow { position: 0 })
    );
    assert_eq!(
        parse("1 + 99999999999999999999999999"),
        Err(ParseFailure::NumericOverflow { position: 4 })
    );
    assert_eq!(
        parse("-2147483648"),
        Err(ParseFailure::NumericOverflow { position: 1 })
    );
    assert_eq!(
        parse("(1 + 3000000000) * 4000000000"),
        Err(ParseFailure::NumericOverflow { position: 5 })
    );
}

#[test]
fn syntax_errors_come_before_overflow() {
    assert_eq!(parse("99999999999 +"), syntax(13, Expected::Operand));
}

#[test]
fn parsing_twice_gives_the_same_tree() {
    let line = "1 + 2 * (3 - -4) % 5";
    let first = parse(line);
    let second = parse(line);
    assert!(first.is_ok());
    assert_eq!(first, second);
    assert_eq!(parse("2 +"), parse("2 +"));
}

#[test]
fn white_space_does_not_matter() {
    let expected = Ok(bin(leaf(2), Op::Add, leaf(3)));
    assert_eq!(parse("2+3"), expected);
    assert_eq!(parse("2 + 3"), expected);
    assert_eq!(parse(" 2   +   3 "), expected);
    assert_eq!(parse("\t2\t+\t3\t"), expected);
}

#[test]
fn every_expected_token_can_continue_the_line() {
    // After "2 +" an operand is expected: each way to start one works.
    assert_eq!(parse("2 +"), syntax(3, Expected::Operand));
    assert!(parse("2 + 3").is_ok());
    assert!(parse("2 + -3").is_ok());
    assert!(parse("2 + (3)").is_ok());
    // After "(2 + 3" an operator or ")" is expected.
    assert_eq!(parse("(2 + 3"), syntax(6, Expected::OperatorOrClose));
    for symbol in ["+", "-", "*", "/", "%"] {
        assert!(parse(&format!("(2 + 3 {} 0)", symbol)).is_ok());
    }
    assert!(parse("(2 + 3)").is_ok());
    // After "2" an operator or the end of the line is expected.
    assert_eq!(parse("2 3"), syntax(2, Expected::OperatorOrEnd));
    for symbol in ["+", "-", "*", "/", "%"] {
        assert!(parse(&format!("2 {} 0", symbol)).is_ok());
    }
    assert!(parse("2").is_ok());
}

#[test]
fn nothing_after_a_bad_token_repairs_the_line() {
    assert_eq!(parse("2 3"), syntax(2, Expected::OperatorOrEnd));
    assert_eq!(parse("2 3 + 4"), syntax(2, Expected::OperatorOrEnd));
    assert_eq!(parse("2 (3)"), syntax(2, Expected::OperatorOrEnd));
    assert_eq!(parse("(2 + ) * 3"), syntax(5, Expected::Operand));
    assert_eq!(parse("(2 + ) ) ) )"), syntax(5, Expected::Operand));
}

#[test]
fn nesting_goes_deep() {
    let depth = 200;
    let line = format!("{}1{}", "(".repeat(depth), ")".repeat(depth));
    assert_eq!(parse(&line), Ok(leaf(1)));
    let line = format!("{}1", "-".repeat(depth));
    let mut expected = leaf(1);
    for _ in 0..depth {
        expected = neg(expected);
    }
    assert_eq!(parse(&line), Ok(expected));
}
