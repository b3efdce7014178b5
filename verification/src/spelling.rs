//! What a line spells, whatever white space stands between its tokens.
//!
//! Two lines spell the same when their tokens are of the same kinds and
//! have the same text, in the same order.  Such lines parse alike: offsets
//! are all that can differ in what the parser returns.

use vstd::prelude::*;
use crate::climb::{
    atom_fault, atom_tree, build, fault_in, lemma_root_in_range, root_in, tree_in,
};
use crate::failure::ParseFailure;
use crate::grammar::{
    grammar, kind_at, operator_of, spec_equation, spec_expr, spec_primary, spec_rest, Stop,
};
use crate::literal::is_digit;
use crate::node::Node;
use crate::parser::parse_line;
use crate::token::{
    digits_end, is_space, lemma_digits_end_range, lex_from, lexeme_of, lexemes, symbol_kind, words,
    Lexeme, Token, TokenKind,
};
use crate::tree::Expr;

verus! {

/// A token without its place in the line.
pub open spec fn unplaced(w: Lexeme) -> Lexeme {
    Lexeme { kind: w.kind, offset: 0, text: w.text }
}

/// Tokens without their places in the line.
pub open spec fn unplaced_words(ws: Seq<Lexeme>) -> Seq<Lexeme> {
    Seq::new(ws.len(), |k: int| unplaced(ws[k]))
}

/// What a line spells: its tokens in order, each with its kind and text
/// and without its offset.
pub open spec fn spelling(line: Seq<u8>) -> Seq<Lexeme> {
    unplaced_words(words(line))
}

/// A failure without its place in the line.
pub open spec fn unplaced_failure(f: ParseFailure) -> ParseFailure {
    match f {
        ParseFailure::Syntax { position, expected } => ParseFailure::Syntax {
            position: 0,
            expected,
        },
        ParseFailure::NumericOverflow { position } => ParseFailure::NumericOverflow {
            position: 0,
        },
        ParseFailure::Internal { fault } => f,
    }
}

/// The outcome of parsing without the place of a failure.
pub open spec fn unplaced_outcome(r: Result<Expr, ParseFailure>) -> Result<Expr, ParseFailure> {
    match r {
        Ok(tree) => Ok(tree),
        Err(f) => Err(unplaced_failure(f)),
    }
}

/// A node without the offsets of its literals.
pub open spec fn unplaced_node(node: Node) -> Node
    decreases node,
{
    match node {
        Node::Integer { offset, text } => Node::Integer { offset: 0, text },
        Node::UnaryMinus(inner) => Node::UnaryMinus(unplaced_nodes(inner)),
        Node::Group(inner) => Node::Group(unplaced_nodes(inner)),
        Node::Operator(op) => Node::Operator(op),
    }
}

/// Nodes without the offsets of their literals.
pub open spec fn unplaced_nodes(nodes: Seq<Node>) -> Seq<Node>
    decreases nodes,
{
    Seq::new(
        nodes.len(),
        |i: int|
            if 0 <= i < nodes.len() {
                unplaced_node(nodes[i])
            } else {
                Node::Group(Seq::empty())
            },
    )
}

spec fn unplaced_step(r: Result<(Node, int), Stop>) -> Result<(Node, int), Stop> {
    match r {
        Ok((node, next)) => Ok((unplaced_node(node), next)),
        Err(stop) => Err(stop),
    }
}

spec fn unplaced_steps(r: Result<(Seq<Node>, int), Stop>) -> Result<(Seq<Node>, int), Stop> {
    match r {
        Ok((nodes, next)) => Ok((unplaced_nodes(nodes), next)),
        Err(stop) => Err(stop),
    }
}

proof fn lemma_unplaced_kind(ws: Seq<Lexeme>, i: int)
    ensures
        kind_at(unplaced_words(ws), i) == kind_at(ws, i),
{
}

proof fn lemma_unplaced_primary(ws: Seq<Lexeme>, i: int)
    ensures
        spec_primary(unplaced_words(ws), i) == unplaced_step(spec_primary(ws, i)),
    decreases ws.len() - i, 0int,
{
    let us = unplaced_words(ws);
    if 0 <= i < ws.len() {
        assert(us[i] == unplaced(ws[i]));
        match ws[i].kind {
            TokenKind::Minus => {
                lemma_unplaced_primary(ws, i + 1);
                if let Ok((operand, next)) = spec_primary(ws, i + 1) {
                    assert(unplaced_nodes(seq![operand]) =~= seq![unplaced_node(operand)]);
                }
            },
            TokenKind::LeftParen => {
                lemma_unplaced_expr(ws, i + 1);
                if let Ok((inner, close)) = spec_expr(ws, i + 1) {
                    lemma_unplaced_kind(ws, close);
                }
            },
            _ => {},
        }
    }
}

proof fn lemma_unplaced_expr(ws: Seq<Lexeme>, i: int)
    ensures
        spec_expr(unplaced_words(ws), i) == unplaced_steps(spec_expr(ws, i)),
    decreases ws.len() - i, 2int,
{
    if 0 <= i < ws.len() {
        lemma_unplaced_primary(ws, i);
        if let Ok((first, next)) = spec_primary(ws, i) {
            if i < next <= ws.len() {
                assert(unplaced_nodes(seq![first]) =~= seq![unplaced_node(first)]);
                lemma_unplaced_rest(ws, next, seq![first]);
            }
        }
    }
}

proof fn lemma_unplaced_rest(ws: Seq<Lexeme>, i: int, before: Seq<Node>)
    ensures
        spec_rest(unplaced_words(ws), i, unplaced_nodes(before)) == unplaced_steps(
            spec_rest(ws, i, before),
        ),
    decreases ws.len() - i, 1int,
{
    let us = unplaced_words(ws);
    if 0 <= i < ws.len() {
        assert(us[i] == unplaced(ws[i]));
        if let Some(op) = operator_of(ws[i].kind) {
            lemma_unplaced_primary(ws, i + 1);
            if let Ok((operand, next)) = spec_primary(ws, i + 1) {
                if i < next <= ws.len() {
                    let longer = before.push(Node::Operator(op)).push(operand);
                    assert(unplaced_nodes(longer) =~= unplaced_nodes(before).push(
                        Node::Operator(op),
                    ).push(unplaced_node(operand)));
                    lemma_unplaced_rest(ws, next, longer);
                }
            }
        }
    }
}

/// The grammar reads tokens without their places as it reads them with
/// their places: it gives the same nodes but for their offsets, or stops
/// short at the same token.
pub proof fn lemma_unplaced_equation(ws: Seq<Lexeme>)
    ensures
        spec_equation(unplaced_words(ws)) == match spec_equation(ws) {
            Ok(nodes) => Ok::<Seq<Node>, Stop>(unplaced_nodes(nodes)),
            Err(stop) => Err(stop),
        },
{
    lemma_unplaced_expr(ws, 0);
    if let Ok((nodes, next)) = spec_expr(ws, 0) {
        lemma_unplaced_kind(ws, next);
    }
}

proof fn lemma_unplaced_root(nodes: Seq<Node>, lo: int, hi: int)
    requires
        0 <= lo,
        hi <= nodes.len(),
    ensures
        root_in(unplaced_nodes(nodes), lo, hi) == root_in(nodes, lo, hi),
    decreases hi - lo,
{
    if hi - lo > 3 {
        let us = unplaced_nodes(nodes);
        lemma_unplaced_root(nodes, lo, hi - 2);
        if hi - lo >= 5 {
            lemma_root_in_range(nodes, lo, hi - 2);
        }
        let before = root_in(nodes, lo, hi - 2);
        assert(us[before] == unplaced_node(nodes[before]));
        assert(us[hi - 2] == unplaced_node(nodes[hi - 2]));
    }
}

proof fn lemma_unplaced_operand(node: Node)
    ensures
        atom_fault(unplaced_node(node)) == match atom_fault(node) {
            Some(f) => Some(unplaced_failure(f)),
            None => None,
        },
        atom_tree(unplaced_node(node)) == atom_tree(node),
    decreases node, 0int,
{
    match node {
        Node::UnaryMinus(inner) => {
            lemma_unplaced_window(inner, 0, inner.len() as int);
        },
        Node::Group(inner) => {
            lemma_unplaced_window(inner, 0, inner.len() as int);
        },
        _ => {},
    }
}

proof fn lemma_unplaced_window(nodes: Seq<Node>, lo: int, hi: int)
    ensures
        fault_in(unplaced_nodes(nodes), lo, hi) == match fault_in(nodes, lo, hi) {
            Some(f) => Some(unplaced_failure(f)),
            None => None,
        },
        tree_in(unplaced_nodes(nodes), lo, hi) == tree_in(nodes, lo, hi),
    decreases nodes, hi - lo,
{
    let us = unplaced_nodes(nodes);
    if !(lo < 0 || lo >= hi || hi > nodes.len()) {
        assert(us[lo] == unplaced_node(nodes[lo]));
        lemma_unplaced_operand(nodes[lo]);
        lemma_unplaced_window(nodes, lo + 1, hi);
    }
    if lo < 0 || hi > nodes.len() || hi - lo < 3 {
        if 0 <= lo < nodes.len() {
            assert(us[lo] == unplaced_node(nodes[lo]));
            lemma_unplaced_operand(nodes[lo]);
        }
    } else {
        let k = root_in(nodes, lo, hi);
        lemma_unplaced_root(nodes, lo, hi);
        lemma_root_in_range(nodes, lo, hi);
        assert(us[k] == unplaced_node(nodes[k]));
        lemma_unplaced_window(nodes, lo, k);
        lemma_unplaced_window(nodes, k + 1, hi);
    }
}

/// The tree builder reads nodes without their places as it reads them with
/// their places.
pub proof fn lemma_unplaced_build(nodes: Seq<Node>)
    ensures
        build(unplaced_nodes(nodes)) == unplaced_outcome(build(nodes)),
{
    lemma_unplaced_window(nodes, 0, nodes.len() as int);
}

/// White space between tokens does not matter: two lines that spell the
/// same parse to the same tree, or fail in the same way at the same token.
pub proof fn lemma_same_spelling(a: Seq<u8>, b: Seq<u8>)
    requires
        spelling(a) == spelling(b),
    ensures
        unplaced_outcome(parse_line(a)) == unplaced_outcome(parse_line(b)),
        parse_line(a) is Ok ==> parse_line(b) == parse_line(a),
{
    lemma_unplaced_equation(words(a));
    lemma_unplaced_equation(words(b));
    if let Ok(nodes) = grammar(a) {
        lemma_unplaced_build(nodes);
    }
    if let Ok(nodes) = grammar(b) {
        lemma_unplaced_build(nodes);
    }
}

/// What a line spells from byte `i` on.
pub open spec fn spelled_from(line: Seq<u8>, i: int) -> Seq<Lexeme> {
    unplaced_words(lexemes(lex_from(line, i), line))
}

/// Whether `longer` is `shorter` with one byte of white space put in at
/// position `n`.
pub open spec fn space_put_in(shorter: Seq<u8>, longer: Seq<u8>, n: int) -> bool {
    &&& longer.len() == shorter.len() + 1
    &&& 0 <= n <= shorter.len()
    &&& is_space(longer[n])
    &&& forall|m: int| 0 <= m < n ==> shorter[m] == longer[m]
    &&& forall|m: int| n <= m < shorter.len() ==> shorter[m] == longer[m + 1]
}

proof fn lemma_spelled_first(token: Token, rest: Seq<Token>, line: Seq<u8>)
    ensures
        unplaced_words(lexemes(seq![token] + rest, line)) == seq![unplaced(lexeme_of(token, line))]
            + unplaced_words(lexemes(rest, line)),
{
    let all = seq![token] + rest;
    assert forall|k: int| 0 <= k < all.len() implies unplaced_words(lexemes(all, line))[k] == (
    seq![unplaced(lexeme_of(token, line))] + unplaced_words(lexemes(rest, line)))[k] by {
        if k > 0 {
            assert(all[k] == rest[k - 1]);
        }
    }
    assert(unplaced_words(lexemes(all, line)) =~= seq![unplaced(lexeme_of(token, line))]
        + unplaced_words(lexemes(rest, line)));
}

proof fn lemma_digits_end_after(shorter: Seq<u8>, longer: Seq<u8>, n: int, k: int)
    requires
        space_put_in(shorter, longer, n),
        n <= k <= shorter.len(),
    ensures
        digits_end(longer, k + 1) == digits_end(shorter, k) + 1,
    decreases shorter.len() - k,
{
    if k < shorter.len() && is_digit(shorter[k]) {
        lemma_digits_end_after(shorter, longer, n, k + 1);
    }
}

proof fn lemma_digits_end_before(shorter: Seq<u8>, longer: Seq<u8>, n: int, k: int)
    requires
        space_put_in(shorter, longer, n),
        0 <= k <= n,
    ensures
        digits_end(longer, k) == (if digits_end(shorter, k) < n {
            digits_end(shorter, k)
        } else {
            n
        }),
    decreases n - k,
{
    lemma_digits_end_range(shorter, k);
    if k < n && is_digit(shorter[k]) {
        lemma_digits_end_before(shorter, longer, n, k + 1);
    }
}

proof fn lemma_spelled_after(shorter: Seq<u8>, longer: Seq<u8>, n: int, i: int)
    requires
        space_put_in(shorter, longer, n),
        longer.len() <= usize::MAX,
        n <= i <= shorter.len(),
    ensures
        spelled_from(shorter, i) == spelled_from(longer, i + 1),
    decreases shorter.len() - i,
{
    if i == shorter.len() {
        assert(shorter.subrange(i, i) =~= longer.subrange(i + 1, i + 1));
        assert(spelled_from(shorter, i) =~= spelled_from(longer, i + 1));
    } else if is_space(shorter[i]) {
        lemma_spelled_after(shorter, longer, n, i + 1);
    } else if is_digit(shorter[i]) {
        let j = digits_end(shorter, i + 1);
        lemma_digits_end_range(shorter, i + 1);
        lemma_digits_end_after(shorter, longer, n, i + 1);
        lemma_spelled_after(shorter, longer, n, j);
        let here = Token { kind: TokenKind::Integer, start: i as usize, end: j as usize };
        let there = Token {
            kind: TokenKind::Integer,
            start: (i + 1) as usize,
            end: (j + 1) as usize,
        };
        assert(shorter.subrange(i, j) =~= longer.subrange(i + 1, j + 1));
        lemma_spelled_first(here, lex_from(shorter, j), shorter);
        lemma_spelled_first(there, lex_from(longer, j + 1), longer);
    } else {
        lemma_spelled_after(shorter, longer, n, i + 1);
        let here = Token {
            kind: symbol_kind(shorter[i]),
            start: i as usize,
            end: (i + 1) as usize,
        };
        let there = Token {
            kind: symbol_kind(shorter[i]),
            start: (i + 1) as usize,
            end: (i + 2) as usize,
        };
        assert(shorter.subrange(i, i + 1) =~= longer.subrange(i + 1, i + 2));
        lemma_spelled_first(here, lex_from(shorter, i + 1), shorter);
        lemma_spelled_first(there, lex_from(longer, i + 2), longer);
    }
}

proof fn lemma_spelled_before(shorter: Seq<u8>, longer: Seq<u8>, n: int, i: int)
    requires
        space_put_in(shorter, longer, n),
        longer.len() <= usize::MAX,
        0 <= i <= n,
        !(0 < n < shorter.len() && is_digit(shorter[n - 1]) && is_digit(shorter[n])),
    ensures
        spelled_from(shorter, i) == spelled_from(longer, i),
    decreases n - i,
{
    if i == n {
        lemma_spelled_after(shorter, longer, n, n);
    } else if is_space(shorter[i]) {
        lemma_spelled_before(shorter, longer, n, i + 1);
    } else if is_digit(shorter[i]) {
        let j = digits_end(shorter, i + 1);
        lemma_digits_end_range(shorter, i + 1);
        lemma_digits_end_before(shorter, longer, n, i + 1);
        if j > n {
            assert(is_digit(shorter[n]));
            if n - 1 > i {
                assert(is_digit(shorter[n - 1]));
            }
        }
        lemma_spelled_before(shorter, longer, n, j);
        let token = Token { kind: TokenKind::Integer, start: i as usize, end: j as usize };
        assert(shorter.subrange(i, j) =~= longer.subrange(i, j));
        lemma_spelled_first(token, lex_from(shorter, j), shorter);
        lemma_spelled_first(token, lex_from(longer, j), longer);
    } else {
        lemma_spelled_before(shorter, longer, n, i + 1);
        let token = Token {
            kind: symbol_kind(shorter[i]),
            start: i as usize,
            end: (i + 1) as usize,
        };
        assert(shorter.subrange(i, i + 1) =~= longer.subrange(i, i + 1));
        lemma_spelled_first(token, lex_from(shorter, i + 1), shorter);
        lemma_spelled_first(token, lex_from(longer, i + 1), longer);
    }
}

/// A byte of white space between two tokens, before the first or after the
/// last changes nothing in what a line spells.  (Between two digits it
/// would split a literal in two.)
pub proof fn lemma_space_changes_no_spelling(left: Seq<u8>, space: u8, right: Seq<u8>)
    requires
        is_space(space),
        left.len() + right.len() < usize::MAX,
        !(left.len() > 0 && right.len() > 0 && is_digit(left.last()) && is_digit(right[0])),
    ensures
        spelling(left + seq![space] + right) == spelling(left + right),
{
    let shorter = left + right;
    let longer = left + seq![space] + right;
    let n = left.len() as int;
    assert(space_put_in(shorter, longer, n));
    lemma_spelled_before(shorter, longer, n, 0);
}

/// White space between tokens does not change how a line parses: the tree
/// is the same, and so is a failure but for its place.
pub proof fn lemma_space_changes_no_tree(left: Seq<u8>, space: u8, right: Seq<u8>)
    requires
        is_space(space),
        left.len() + right.len() < usize::MAX,
        !(left.len() > 0 && right.len() > 0 && is_digit(left.last()) && is_digit(right[0])),
    ensures
        unplaced_outcome(parse_line(left + seq![space] + right)) == unplaced_outcome(
            parse_line(left + right),
        ),
        parse_line(left + right) is Ok ==> parse_line(left + seq![space] + right) == parse_line(
            left + right,
        ),
{
    lemma_space_changes_no_spelling(left, space, right);
    lemma_same_spelling(left + right, left + seq![space] + right);
}

} // verus!
