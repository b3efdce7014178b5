//! The grammar stated without an algorithm: which sequences of nodes stand
//! for which lines.
//!
//! A sequence of nodes is written with signs: a literal with itself, a
//! negated operand with a minus sign before the operand, a group with its
//! sequence between parentheses, an operator with its symbol.  The grammar
//! gives, for a line, the one well-formed sequence that is written with
//! the tokens of the line.

use vstd::prelude::*;
use crate::failure::ParseFailure;
use crate::grammar::{
    grammar, kind_at, operator_of, spec_equation, spec_expr, spec_primary, spec_rest, Stop,
};
use crate::node::{well_formed, well_formed_operand, Node};
use crate::token::{lemma_lex_ends_once, lex, words, Lexeme, TokenKind};
use crate::tree::Op;

verus! {

/// What a node can hold of a token: a literal's offset and text, or the
/// kind of any other token.
pub enum Sign {
    Literal { offset: usize, text: Seq<u8> },
    Symbol(TokenKind),
}

/// The sign of a token.
pub open spec fn sign_of(w: Lexeme) -> Sign {
    if w.kind is Integer {
        Sign::Literal { offset: w.offset, text: w.text }
    } else {
        Sign::Symbol(w.kind)
    }
}

/// The signs of a run of tokens.
pub open spec fn signs(ws: Seq<Lexeme>) -> Seq<Sign> {
    Seq::new(ws.len(), |k: int| sign_of(ws[k]))
}

/// The kind of token that spells an operator.
pub open spec fn symbol_of(op: Op) -> TokenKind {
    match op {
        Op::Add => TokenKind::Plus,
        Op::Subtract => TokenKind::Minus,
        Op::Multiply => TokenKind::Star,
        Op::Divide => TokenKind::Slash,
        Op::Modulo => TokenKind::Percent,
    }
}

/// The signs with which a node is written.
pub open spec fn node_signs(node: Node) -> Seq<Sign>
    decreases node, 0int,
{
    match node {
        Node::Integer { offset, text } => seq![Sign::Literal { offset, text }],
        Node::UnaryMinus(inner) => seq![Sign::Symbol(TokenKind::Minus)] + sequence_signs(inner),
        Node::Group(inner) => seq![Sign::Symbol(TokenKind::LeftParen)] + sequence_signs(inner)
            + seq![Sign::Symbol(TokenKind::RightParen)],
        Node::Operator(op) => seq![Sign::Symbol(symbol_of(op))],
    }
}

/// The signs with which a sequence of nodes is written: those of its
/// nodes, one after the other.
pub open spec fn sequence_signs(nodes: Seq<Node>) -> Seq<Sign>
    decreases nodes, 1int,
{
    if nodes.len() == 0 {
        Seq::empty()
    } else {
        sequence_signs(nodes.drop_last()) + node_signs(nodes.last())
    }
}

pub(crate) proof fn lemma_signs_push(nodes: Seq<Node>, node: Node)
    ensures
        sequence_signs(nodes.push(node)) == sequence_signs(nodes) + node_signs(node),
{
    assert(nodes.push(node).drop_last() =~= nodes);
}

pub(crate) proof fn lemma_signs_one(node: Node)
    ensures
        sequence_signs(seq![node]) == node_signs(node),
{
    assert(seq![node].drop_last() =~= Seq::<Node>::empty());
    assert(sequence_signs(Seq::<Node>::empty()) =~= Seq::<Sign>::empty());
    assert(Seq::<Sign>::empty() + node_signs(node) =~= node_signs(node));
}

/// Whether the end of the line is none of the signs.
pub open spec fn no_end(written: Seq<Sign>) -> bool {
    forall|k: int| 0 <= k < written.len() ==> #[trigger] written[k] != Sign::Symbol(TokenKind::End)
}

proof fn lemma_node_has_no_end(node: Node)
    ensures
        no_end(node_signs(node)),
    decreases node, 0int,
{
    match node {
        Node::UnaryMinus(inner) => {
            lemma_sequence_has_no_end(inner);
        },
        Node::Group(inner) => {
            lemma_sequence_has_no_end(inner);
        },
        _ => {},
    }
}

proof fn lemma_sequence_has_no_end(nodes: Seq<Node>)
    ensures
        no_end(sequence_signs(nodes)),
    decreases nodes, 1int,
{
    if nodes.len() > 0 {
        lemma_sequence_has_no_end(nodes.drop_last());
        lemma_node_has_no_end(nodes.last());
    }
}

pub(crate) proof fn lemma_primary_signs(ws: Seq<Lexeme>, i: int)
    ensures
        spec_primary(ws, i) matches Ok((node, next)) ==> 0 <= i < next <= ws.len() && signs(
            ws,
        ).subrange(i, next) == node_signs(node),
    decreases ws.len() - i, 0int,
{
    let all = signs(ws);
    if 0 <= i < ws.len() {
        match ws[i].kind {
            TokenKind::Integer => {
                assert(all.subrange(i, i + 1) =~= seq![sign_of(ws[i])]);
            },
            TokenKind::Minus => {
                lemma_primary_signs(ws, i + 1);
                if let Ok((operand, next)) = spec_primary(ws, i + 1) {
                    lemma_signs_one(operand);
                    assert(all.subrange(i, next) =~= seq![sign_of(ws[i])] + all.subrange(
                        i + 1,
                        next,
                    ));
                }
            },
            TokenKind::LeftParen => {
                lemma_expr_signs(ws, i + 1);
                if let Ok((inner, close)) = spec_expr(ws, i + 1) {
                    if kind_at(ws, close) == TokenKind::RightParen {
                        assert(all.subrange(i, close + 1) =~= seq![sign_of(ws[i])] + all.subrange(
                            i + 1,
                            close,
                        ) + seq![sign_of(ws[close])]);
                    }
                }
            },
            _ => {},
        }
    }
}

pub(crate) proof fn lemma_expr_signs(ws: Seq<Lexeme>, i: int)
    ensures
        spec_expr(ws, i) matches Ok((nodes, next)) ==> 0 <= i < next <= ws.len() && signs(
            ws,
        ).subrange(i, next) == sequence_signs(nodes),
    decreases ws.len() - i, 2int,
{
    if 0 <= i < ws.len() {
        lemma_primary_signs(ws, i);
        if let Ok((first, next)) = spec_primary(ws, i) {
            lemma_signs_one(first);
            lemma_rest_signs(ws, i, next, seq![first]);
        }
    }
}

proof fn lemma_rest_signs(ws: Seq<Lexeme>, start: int, i: int, before: Seq<Node>)
    requires
        0 <= start <= i <= ws.len(),
        signs(ws).subrange(start, i) == sequence_signs(before),
    ensures
        spec_rest(ws, i, before) matches Ok((nodes, next)) ==> i <= next <= ws.len() && signs(
            ws,
        ).subrange(start, next) == sequence_signs(nodes),
    decreases ws.len() - i, 1int,
{
    let all = signs(ws);
    if i < ws.len() {
        if let Some(op) = operator_of(ws[i].kind) {
            lemma_primary_signs(ws, i + 1);
            if let Ok((operand, next)) = spec_primary(ws, i + 1) {
                let longer = before.push(Node::Operator(op)).push(operand);
                lemma_signs_push(before, Node::Operator(op));
                lemma_signs_push(before.push(Node::Operator(op)), operand);
                assert(all.subrange(start, next) =~= all.subrange(start, i) + seq![sign_of(ws[i])]
                    + all.subrange(i + 1, next));
                lemma_rest_signs(ws, start, next, longer);
            }
        }
    }
}

/// What the grammar gives is written with the tokens that it has read.
pub proof fn lemma_equation_signs(ws: Seq<Lexeme>)
    ensures
        spec_equation(ws) matches Ok(nodes) ==> {
            &&& sequence_signs(nodes).len() <= ws.len()
            &&& sequence_signs(nodes) == signs(ws).subrange(0, sequence_signs(nodes).len() as int)
            &&& kind_at(ws, sequence_signs(nodes).len() as int) == TokenKind::End
        },
{
    lemma_expr_signs(ws, 0);
}

/// The nodes that the grammar gives for a line are written with exactly
/// the tokens of the line, from the first to the end of the line.
pub proof fn lemma_grammar_reads_the_line(line: Seq<u8>)
    ensures
        grammar(line) matches Ok(nodes) ==> sequence_signs(nodes).push(
            Sign::Symbol(TokenKind::End),
        ) == signs(words(line)),
{
    let ws = words(line);
    lemma_equation_signs(ws);
    lemma_lex_ends_once(line, 0);
    if let Ok(nodes) = grammar(line) {
        let n = sequence_signs(nodes).len() as int;
        lemma_sequence_has_no_end(nodes);
        if n == ws.len() {
            assert(lex(line)[n - 1].kind == TokenKind::End);
            assert(signs(ws)[n - 1] == Sign::Symbol(TokenKind::End));
            assert(sequence_signs(nodes)[n - 1] == signs(ws).subrange(0, n)[n - 1]);
        }
        assert(n < ws.len());
        assert(lex(line)[n].kind == TokenKind::End);
        assert(n == ws.len() - 1);
        assert(sequence_signs(nodes).push(Sign::Symbol(TokenKind::End)) =~= signs(ws));
    }
}

proof fn lemma_node_signs_len(node: Node)
    ensures
        node_signs(node).len() >= 1,
{
}

proof fn lemma_take_signs(nodes: Seq<Node>, m: int)
    requires
        0 <= m < nodes.len(),
    ensures
        sequence_signs(nodes.take(m + 1)) == sequence_signs(nodes.take(m)) + node_signs(nodes[m]),
{
    assert(nodes.take(m + 1).drop_last() =~= nodes.take(m));
    assert(nodes.take(m + 1).last() == nodes[m]);
}

proof fn lemma_prefix_signs(nodes: Seq<Node>, m: int)
    requires
        0 <= m <= nodes.len(),
    ensures
        sequence_signs(nodes.take(m)).len() <= sequence_signs(nodes).len(),
        sequence_signs(nodes.take(m)) == sequence_signs(nodes).subrange(
            0,
            sequence_signs(nodes.take(m)).len() as int,
        ),
    decreases nodes.len() - m,
{
    if m == nodes.len() {
        assert(nodes.take(m) =~= nodes);
        assert(sequence_signs(nodes) =~= sequence_signs(nodes).subrange(
            0,
            sequence_signs(nodes).len() as int,
        ));
    } else {
        lemma_prefix_signs(nodes, m + 1);
        lemma_take_signs(nodes, m);
        let shorter = sequence_signs(nodes.take(m));
        let longer = sequence_signs(nodes.take(m + 1));
        assert(shorter =~= longer.subrange(0, shorter.len() as int));
        assert(shorter =~= sequence_signs(nodes).subrange(0, shorter.len() as int));
    }
}

pub(crate) proof fn lemma_symbol_spells(op: Op)
    ensures
        operator_of(symbol_of(op)) == Some(op),
        !(symbol_of(op) is Integer),
{
}

proof fn lemma_primary_reads(ws: Seq<Lexeme>, i: int, node: Node)
    requires
        well_formed_operand(node),
        0 <= i,
        i + node_signs(node).len() <= ws.len(),
        signs(ws).subrange(i, i + node_signs(node).len()) == node_signs(node),
    ensures
        spec_primary(ws, i) == Ok::<(Node, int), Stop>(
            (node, i + node_signs(node).len()),
        ),
    decreases node, 0int,
{
    let all = signs(ws);
    let written = node_signs(node);
    assert(all[i] == all.subrange(i, i + written.len())[0]);
    assert(all[i] == sign_of(ws[i]));
    match node {
        Node::Integer { offset, text } => {},
        Node::UnaryMinus(inner) => {
            let operand = inner[0];
            assert(inner =~= seq![operand]);
            lemma_signs_one(operand);
            assert(well_formed_operand(operand));
            assert(all.subrange(i + 1, i + written.len()) =~= all.subrange(
                i,
                i + written.len(),
            ).subrange(1, written.len() as int));
            assert(written.subrange(1, written.len() as int) =~= node_signs(operand));
            lemma_primary_reads(ws, i + 1, operand);
        },
        Node::Group(inner) => {
            let inside = sequence_signs(inner);
            let close = i + 1 + inside.len();
            assert(written.len() == inside.len() + 2);
            assert(all.subrange(i + 1, close) =~= all.subrange(i, i + written.len()).subrange(
                1,
                1 + inside.len() as int,
            ));
            assert(written.subrange(1, 1 + inside.len() as int) =~= inside);
            assert(all[close] == all.subrange(i, i + written.len())[1 + inside.len() as int]);
            assert(all[close] == sign_of(ws[close]));
            assert(ws[close].kind == TokenKind::RightParen);
            lemma_expr_reads(ws, i + 1, inner);
        },
        Node::Operator(_) => {},
    }
}

pub(crate) proof fn lemma_expr_reads(ws: Seq<Lexeme>, i: int, nodes: Seq<Node>)
    requires
        well_formed(nodes),
        0 <= i,
        i + sequence_signs(nodes).len() <= ws.len(),
        signs(ws).subrange(i, i + sequence_signs(nodes).len()) == sequence_signs(nodes),
        operator_of(kind_at(ws, i + sequence_signs(nodes).len())) is None,
    ensures
        spec_expr(ws, i) == Ok::<(Seq<Node>, int), Stop>(
            (nodes, i + sequence_signs(nodes).len()),
        ),
    decreases nodes, nodes.len() + 1,
{
    let all = signs(ws);
    let written = sequence_signs(nodes);
    let first = nodes[0];
    assert(well_formed_operand(first));
    lemma_prefix_signs(nodes, 1);
    lemma_take_signs(nodes, 0);
    assert(nodes.take(0) =~= Seq::<Node>::empty());
    assert(sequence_signs(nodes.take(1)) =~= node_signs(first));
    lemma_node_signs_len(first);
    assert(all.subrange(i, i + node_signs(first).len()) =~= all.subrange(
        i,
        i + written.len(),
    ).subrange(0, node_signs(first).len() as int));
    lemma_primary_reads(ws, i, first);
    assert(nodes.take(1) =~= seq![first]);
    lemma_rest_reads(ws, i, nodes, 1);
}

proof fn lemma_rest_reads(ws: Seq<Lexeme>, i: int, nodes: Seq<Node>, m: int)
    requires
        well_formed(nodes),
        0 < m <= nodes.len(),
        m % 2 == 1,
        0 <= i,
        i + sequence_signs(nodes).len() <= ws.len(),
        signs(ws).subrange(i, i + sequence_signs(nodes).len()) == sequence_signs(nodes),
        operator_of(kind_at(ws, i + sequence_signs(nodes).len())) is None,
    ensures
        spec_rest(ws, i + sequence_signs(nodes.take(m)).len(), nodes.take(m)) == Ok::<(Seq<Node>, int), Stop>((nodes, i + sequence_signs(nodes).len())),
    decreases nodes, nodes.len() - m,
{
    let all = signs(ws);
    let written = sequence_signs(nodes);
    let window = all.subrange(i, i + written.len());
    let before = nodes.take(m);
    let j = i + sequence_signs(before).len();
    lemma_prefix_signs(nodes, m);
    if m == nodes.len() {
        assert(before =~= nodes);
    } else {
        let op = nodes[m]->Operator_0;
        assert(nodes[m] is Operator);
        let operand = nodes[m + 1];
        assert(well_formed_operand(operand));
        lemma_take_signs(nodes, m);
        lemma_take_signs(nodes, m + 1);
        lemma_prefix_signs(nodes, m + 1);
        lemma_prefix_signs(nodes, m + 2);
        lemma_symbol_spells(op);
        let after_op = sequence_signs(nodes.take(m + 1));
        let after_operand = sequence_signs(nodes.take(m + 2));
        assert(after_op.len() == sequence_signs(before).len() + 1);
        assert(after_op[j - i] == Sign::Symbol(symbol_of(op)));
        assert(all[j] == window[j - i]);
        assert(all[j] == sign_of(ws[j]));
        assert(ws[j].kind == symbol_of(op));
        let next = i + after_operand.len();
        assert(all.subrange(j + 1, next) =~= window.subrange(j + 1 - i, next - i));
        assert(after_operand.subrange(j + 1 - i, next - i) =~= node_signs(operand));
        assert(window.subrange(j + 1 - i, next - i) =~= written.subrange(0, next - i).subrange(
            j + 1 - i,
            next - i,
        ));
        lemma_primary_reads(ws, j + 1, operand);
        assert(before.push(Node::Operator(op)).push(operand) =~= nodes.take(m + 2));
        lemma_rest_reads(ws, i, nodes, m + 2);
    }
}

/// A well-formed sequence that is written with exactly the tokens of a
/// line is what the grammar gives for that line.
pub proof fn lemma_grammar_finds_the_nodes(line: Seq<u8>, nodes: Seq<Node>)
    requires
        well_formed(nodes),
        sequence_signs(nodes).push(Sign::Symbol(TokenKind::End)) == signs(words(line)),
    ensures
        grammar(line) == Ok::<Seq<Node>, ParseFailure>(nodes),
{
    let ws = words(line);
    let written = sequence_signs(nodes);
    let n = written.len() as int;
    assert(signs(ws).subrange(0, n) =~= written) by {
        assert(written =~= written.push(Sign::Symbol(TokenKind::End)).subrange(0, n));
    }
    assert(signs(ws)[n] == written.push(Sign::Symbol(TokenKind::End))[n]);
    assert(signs(ws)[n] == sign_of(ws[n]));
    assert(ws[n].kind == TokenKind::End);
    lemma_expr_reads(ws, 0, nodes);
}

/// The grammar succeeds on a line with a sequence of nodes exactly when
/// the sequence is well-formed and written with the tokens of the line.
pub proof fn lemma_grammar_meaning(line: Seq<u8>, nodes: Seq<Node>)
    requires
        line.len() <= usize::MAX,
    ensures
        grammar(line) == Ok::<Seq<Node>, ParseFailure>(nodes) <==> well_formed(nodes)
            && sequence_signs(nodes).push(Sign::Symbol(TokenKind::End)) == signs(words(line)),
{
    crate::grammar::lemma_grammar_well_formed(line);
    lemma_grammar_reads_the_line(line);
    if well_formed(nodes) && sequence_signs(nodes).push(Sign::Symbol(TokenKind::End)) == signs(
        words(line),
    ) {
        lemma_grammar_finds_the_nodes(line, nodes);
    }
}

} // verus!
