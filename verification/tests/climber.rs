//! The tree builder against pest's precedence climber, on the same nodes.

use calculator::{parse_expr, CalculatorParser, Expr, Op, SyntaxNode};
use pest::iterators::{Pair, Pairs, PairsBuilder};
use pest::prec_climber::{Assoc, Operator, PrecClimber};

#[derive(Clone, Copy, Debug, PartialEq, Eq, PartialOrd, Ord, Hash)]
enum Rule {
    Integer,
    UnaryMinus,
    Expr,
    Add,
    Subtract,
    Multiply,
    Divide,
    Modulo,
}

fn rule_of(op: &Op) -> Rule {
    match op {
        Op::Add => Rule::Add,
        Op::Subtract => Rule::Subtract,
        Op::Multiply => Rule::Multiply,
        Op::Divide => Rule::Divide,
        Op::Modulo => Rule::Modulo,
    }
}

fn add_nodes<'i>(mut builder: PairsBuilder<'i, Rule>, nodes: &[SyntaxNode]) -> PairsBuilder<'i, Rule> {
    for node in nodes {
        builder = match node {
            SyntaxNode::Integer { offset, text } => {
                builder.rule(Rule::Integer, *offset, *offset + text.len())
            }
            SyntaxNode::UnaryMinus(inner) => {
                builder.rule_with(Rule::UnaryMinus, 0, 0, |b| add_nodes(b, inner))
            }
            SyntaxNode::Group(inner) => builder.rule_with(Rule::Expr, 0, 0, |b| add_nodes(b, inner)),
            SyntaxNode::Operator(op) => builder.rule(rule_of(op), 0, 0),
        };
    }
    builder
}

#[allow(deprecated)]
fn climb(climber: &PrecClimber<Rule>, pairs: Pairs<Rule>) -> Expr {
    climber.climb(
        pairs,
        |pair: Pair<Rule>| match pair.as_rule() {
            Rule::Integer => Expr::Integer(pair.as_str().parse::<i32>().unwrap()),
            Rule::Expr => climb(climber, pair.into_inner()),
            Rule::UnaryMinus => Expr::UnaryMinus(Box::new(climb(climber, pair.into_inner()))),
            rule => unreachable!("no operand: {:?}", rule),
        },
        |lhs: Expr, op: Pair<Rule>, rhs: Expr| {
            let op = match op.as_rule() {
                Rule::Add => Op::Add,
                Rule::Subtract => Op::Subtract,
                Rule::Multiply => Op::Multiply,
                Rule::Divide => Op::Divide,
                Rule::Modulo => Op::Modulo,
                rule => unreachable!("no operator: {:?}", rule),
            };
            Expr::BinOp { lhs: Box::new(lhs), op, rhs: Box::new(rhs) }
        },
    )
}

#[allow(deprecated)]
fn tree_by_pest(line: &str) -> Expr {
    let climber = PrecClimber::new(vec![
        Operator::new(Rule::Add, Assoc::Left) | Operator::new(Rule::Subtract, Assoc::Left),
        Operator::new(Rule::Multiply, Assoc::Left)
            | Operator::new(Rule::Divide, Assoc::Left)
            | Operator::new(Rule::Modulo, Assoc::Left),
    ]);
    let nodes = CalculatorParser::parse(line).unwrap();
    let pairs = add_nodes(PairsBuilder::new(line), &nodes).build();
    climb(&climber, pairs)
}

fn agree(line: &str) {
    let nodes = CalculatorParser::parse(line).unwrap();
    assert_eq!(parse_expr(&nodes), Ok(tree_by_pest(line)), "on {:?}", line);
}

#[test]
fn agrees_with_pest_on_single_operands() {
    agree("7");
    agree("-7");
    agree("--7");
    agree("(7)");
    agree("-(-(7))");
}

#[test]
fn agrees_with_pest_on_one_tier() {
    agree("1 + 2 - 3 + 4 - 5");
    agree("1 * 2 / 3 % 4 * 5");
}

#[test]
fn agrees_with_pest_on_mixed_tiers() {
    agree("1 + 2 * 3");
    agree("1 * 2 + 3");
    agree("1 + 2 * 3 - 4 / 5 % 6 + 7");
    agree("1 * 2 + 3 * 4 + 5 * 6");
    agree("1 + 2 + 3 * 4 * 5 + 6");
    agree("1 % 2 - 3 - 4 / 5 * 6 % 7 - 8");
}

#[test]
fn agrees_with_pest_inside_groups() {
    agree("(1 + 2) * (3 - 4)");
    agree("-(1 + 2 * 3) % -4");
    agree("((1 + 2) * 3 - (4 / (5 - 6))) * 7");
    agree("- - (1 - - 2)");
}

#[test]
fn agrees_with_pest_on_every_pair_of_operators() {
    let symbols = ["+", "-", "*", "/", "%"];
    for first in symbols {
        for second in symbols {
            for third in symbols {
                agree(&format!("1 {} 2 {} 3 {} 4", first, second, third));
            }
        }
    }
}

/// A small deterministic generator of expressions.
struct Generator {
    state: u64,
}

impl Generator {
    fn next(&mut self, bound: u64) -> u64 {
        self.state = self
            .state
            .wrapping_mul(6364136223846793005)
            .wrapping_add(1442695040888963407);
        (self.state >> 33) % bound
    }

    fn operand(&mut self, depth: u32, line: &mut String) {
        match self.next(if depth == 0 { 2 } else { 4 }) {
            0 => line.push_str(&self.next(1000).to_string()),
            1 => {
                line.push('-');
                self.operand(depth, line);
            }
            _ => {
                line.push('(');
                self.expression(depth - 1, line);
                line.push(')');
            }
        }
    }

    fn expression(&mut self, depth: u32, line: &mut String) {
        self.operand(depth, line);
        for _ in 0..self.next(6) {
            let symbol = ["+", "-", "*", "/", "%"][self.next(5) as usize];
            if self.next(2) == 0 {
                line.push(' ');
            }
            line.push_str(symbol);
            if self.next(2) == 0 {
                line.push(' ');
            }
            self.operand(depth, line);
        }
    }
}

#[test]
fn agrees_with_pest_on_generated_lines() {
    let mut generator = Generator { state: 2024 };
    for _ in 0..500 {
        let mut line = String::new();
        generator.expression(3, &mut line);
        agree(&line);
    }
}
