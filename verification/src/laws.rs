//! What holds of the parser as a whole.

use vstd::prelude::*;
use crate::climb::{
    atom_tree, build, fault_in, first_fault, lemma_root_is, op_at, root_in, tier_at, tree_in,
    tree_of,
};
use crate::failure::{Expected, ParseFailure};
use crate::grammar::{grammar, spec_expr, spec_primary, spec_rest, Stop};
use crate::literal::{
    all_digits, decimal_value, fits_i32, is_digit, is_literal, literal_result, literal_value,
};
use crate::node::Node;
use crate::parser::parse_line;
use crate::token::{digits_end, is_space, lex, lex_from, words, Token, TokenKind};
use crate::tree::{tier_of, Expr, Op};

verus! {

/// The outcome of parsing depends on the line alone: whatever two calls on
/// one line return, they return the same.
pub proof fn lemma_parse_deterministic(
    line: Seq<u8>,
    first: Result<Expr, ParseFailure>,
    second: Result<Expr, ParseFailure>,
)
    requires
        first == parse_line(line),
        second == parse_line(line),
    ensures
        first == second,
{
}

proof fn lemma_digits_end_all(line: Seq<u8>, i: int)
    requires
        all_digits(line),
        0 <= i <= line.len(),
    ensures
        digits_end(line, i) == line.len(),
    decreases line.len() - i,
{
    if i < line.len() {
        lemma_digits_end_all(line, i + 1);
    }
}

/// A line that is one run of digits and nothing else parses as that
/// literal alone.
pub proof fn lemma_digits_line(digits: Seq<u8>)
    requires
        0 < digits.len() <= usize::MAX,
        all_digits(digits),
    ensures
        parse_line(digits) == match literal_result(digits, 0) {
            Ok(v) => Ok::<Expr, ParseFailure>(Expr::Integer(v)),
            Err(f) => Err(f),
        },
{
    let n = digits.len() as int;
    let number = Token { kind: TokenKind::Integer, start: 0, end: n as usize };
    let end = Token { kind: TokenKind::End, start: n as usize, end: n as usize };
    lemma_digits_end_all(digits, 1);
    assert(is_digit(digits[0]));
    assert(lex_from(digits, n) =~= seq![end]);
    assert(lex(digits) =~= seq![number, end]);
    let ws = words(digits);
    assert(ws.len() == 2);
    assert(ws[0].kind == TokenKind::Integer);
    assert(ws[0].text =~= digits);
    assert(ws[1].kind == TokenKind::End);
    let node = Node::Integer { offset: 0, text: digits };
    assert(spec_primary(ws, 0) == Ok::<(Node, int), Stop>((node, 1)));
    assert(spec_rest(ws, 1, seq![node]) == Ok::<(Seq<Node>, int), Stop>((seq![node], 1)));
    assert(spec_expr(ws, 0) == Ok::<(Seq<Node>, int), Stop>((seq![node], 1)));
    assert(grammar(digits) == Ok::<Seq<Node>, ParseFailure>(seq![node]));
    let nodes = seq![node];
    assert(nodes[0] == node);
    assert(first_fault(nodes) == match literal_result(digits, 0) {
        Ok(_) => None::<ParseFailure>,
        Err(f) => Some(f),
    }) by {
        reveal_with_fuel(fault_in, 3);
    }
    assert(tree_of(nodes) == atom_tree(node));
}

/// A literal in range, alone on its line, parses to one integer leaf that
/// holds exactly its value.
pub proof fn lemma_literal_in_range(digits: Seq<u8>)
    requires
        0 < digits.len() <= usize::MAX,
        all_digits(digits),
        decimal_value(digits) <= i32::MAX,
    ensures
        parse_line(digits) == Ok::<Expr, ParseFailure>(
            Expr::Integer(decimal_value(digits) as i32),
        ),
{
    lemma_digits_line(digits);
    assert(is_digit(digits[0]));
}

/// A literal beyond the largest `i32`, alone on its line, is a numeric
/// overflow: neither a syntax error nor a tree.
pub proof fn lemma_literal_out_of_range(digits: Seq<u8>)
    requires
        0 < digits.len() <= usize::MAX,
        all_digits(digits),
        decimal_value(digits) > i32::MAX,
    ensures
        parse_line(digits) == Err::<Expr, ParseFailure>(
            ParseFailure::NumericOverflow { position: 0 },
        ),
{
    lemma_digits_line(digits);
    assert(is_digit(digits[0]));
}

/// A sequence of one literal node builds one integer leaf that holds the
/// value of the literal, minus sign included.
pub proof fn lemma_lone_literal_node(offset: usize, text: Seq<u8>)
    requires
        is_literal(text),
        fits_i32(literal_value(text)),
    ensures
        build(seq![Node::Integer { offset, text }]) == Ok::<Expr, ParseFailure>(
            Expr::Integer(literal_value(text) as i32),
        ),
{
    let node = Node::Integer { offset, text };
    let nodes = seq![node];
    assert(nodes[0] == node);
    assert(first_fault(nodes) is None) by {
        reveal_with_fuel(fault_in, 3);
    }
    assert(tree_of(nodes) == atom_tree(node));
}

proof fn lemma_lex_blank(line: Seq<u8>, i: int)
    requires
        forall|k: int| 0 <= k < line.len() ==> is_space(#[trigger] line[k]),
        0 <= i <= line.len(),
    ensures
        lex_from(line, i) == seq![
            Token { kind: TokenKind::End, start: line.len() as usize, end: line.len() as usize },
        ],
    decreases line.len() - i,
{
    if i < line.len() {
        lemma_lex_blank(line, i + 1);
    }
}

/// A line that is empty or holds white space only is a syntax error at its
/// end, where an operand was expected.
pub proof fn lemma_blank_line(line: Seq<u8>)
    requires
        forall|k: int| 0 <= k < line.len() ==> is_space(#[trigger] line[k]),
    ensures
        parse_line(line) == Err::<Expr, ParseFailure>(
            ParseFailure::Syntax { position: line.len() as usize, expected: Expected::Operand },
        ),
{
    lemma_lex_blank(line, 0);
    let ws = words(line);
    assert(ws.len() == 1);
    assert(ws[0].kind == TokenKind::End);
    assert(ws[0].offset == line.len() as usize);
}

/// One operator between two operands is applied to both.
pub proof fn lemma_one_operator(a: Node, op: Op, b: Node)
    ensures
        tree_of(seq![a, Node::Operator(op), b]) == (Expr::BinOp {
            lhs: Box::new(atom_tree(a)),
            op,
            rhs: Box::new(atom_tree(b)),
        }),
{
    let nodes = seq![a, Node::Operator(op), b];
    assert(nodes[0] == a && nodes[1] == Node::Operator(op) && nodes[2] == b);
    assert(root_in(nodes, 0, 3) == 1);
    assert(tree_in(nodes, 0, 1) == atom_tree(a));
    assert(tree_in(nodes, 2, 3) == atom_tree(b));
}

/// Two operators in a row: the second is applied last, with the first on
/// its left, unless it is of a higher tier than the first; then the first
/// is applied last, with the second on its right.
pub proof fn lemma_two_operators(a: Node, first: Op, b: Node, second: Op, c: Node)
    ensures
        tree_of(seq![a, Node::Operator(first), b, Node::Operator(second), c]) == (if tier_of(second)
            <= tier_of(first) {
            Expr::BinOp {
                lhs: Box::new(
                    Expr::BinOp {
                        lhs: Box::new(atom_tree(a)),
                        op: first,
                        rhs: Box::new(atom_tree(b)),
                    },
                ),
                op: second,
                rhs: Box::new(atom_tree(c)),
            }
        } else {
            Expr::BinOp {
                lhs: Box::new(atom_tree(a)),
                op: first,
                rhs: Box::new(
                    Expr::BinOp {
                        lhs: Box::new(atom_tree(b)),
                        op: second,
                        rhs: Box::new(atom_tree(c)),
                    },
                ),
            }
        }),
{
    let nodes = seq![a, Node::Operator(first), b, Node::Operator(second), c];
    assert(nodes[0] == a && nodes[1] == Node::Operator(first) && nodes[2] == b);
    assert(nodes[3] == Node::Operator(second) && nodes[4] == c);
    assert(root_in(nodes, 0, 3) == 1);
    assert(root_in(nodes, 2, 5) == 3);
    assert(tree_in(nodes, 0, 1) == atom_tree(a));
    assert(tree_in(nodes, 2, 3) == atom_tree(b));
    assert(tree_in(nodes, 4, 5) == atom_tree(c));
    if tier_of(second) <= tier_of(first) {
        assert(root_in(nodes, 0, 5) == 3);
        assert(tree_in(nodes, 0, 3) == (Expr::BinOp {
            lhs: Box::new(atom_tree(a)),
            op: first,
            rhs: Box::new(atom_tree(b)),
        }));
    } else {
        assert(root_in(nodes, 0, 5) == 1);
        assert(tree_in(nodes, 2, 5) == (Expr::BinOp {
            lhs: Box::new(atom_tree(b)),
            op: second,
            rhs: Box::new(atom_tree(c)),
        }));
    }
}

/// Left associativity: where no operator among positions `lo..hi` is of a
/// lower tier than the last one, the last operator is applied last, to the
/// tree of all that stands on its left.
pub proof fn lemma_groups_to_the_left(nodes: Seq<Node>, lo: int, hi: int)
    requires
        0 <= lo,
        hi <= nodes.len(),
        hi - lo >= 3,
        (hi - lo) % 2 == 1,
        forall|p: int|
            lo < p < hi - 2 && (p - lo) % 2 == 1 ==> #[trigger] tier_at(nodes, p) >= tier_at(
                nodes,
                hi - 2,
            ),
    ensures
        tree_in(nodes, lo, hi) == (Expr::BinOp {
            lhs: Box::new(tree_in(nodes, lo, hi - 2)),
            op: op_at(nodes, hi - 2),
            rhs: Box::new(atom_tree(nodes[hi - 1])),
        }),
{
    lemma_root_is(nodes, lo, hi, hi - 2);
    assert(tree_in(nodes, hi - 1, hi) == atom_tree(nodes[hi - 1]));
}

/// Precedence: where all operators among positions `lo..hi` but the first
/// are of a higher tier than the first, the first operator is applied
/// last, to the tree of all that stands on its right.
pub proof fn lemma_higher_tiers_bind_first(nodes: Seq<Node>, lo: int, hi: int)
    requires
        0 <= lo,
        hi <= nodes.len(),
        hi - lo >= 3,
        (hi - lo) % 2 == 1,
        forall|p: int|
            lo + 1 < p < hi && (p - lo) % 2 == 1 ==> #[trigger] tier_at(nodes, p) > tier_at(
                nodes,
                lo + 1,
            ),
    ensures
        tree_in(nodes, lo, hi) == (Expr::BinOp {
            lhs: Box::new(atom_tree(nodes[lo])),
            op: op_at(nodes, lo + 1),
            rhs: Box::new(tree_in(nodes, lo + 2, hi)),
        }),
{
    lemma_root_is(nodes, lo, hi, lo + 1);
    assert(tree_in(nodes, lo, lo + 1) == atom_tree(nodes[lo]));
}

} // verus!
