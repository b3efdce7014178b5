//! The grammar: from the tokens of a line to a sequence of syntax nodes.
//!
//! ```text
//! equation := expr end-of-line
//! expr     := primary (operator primary)*
//! primary  := integer | "-" primary | "(" expr ")"
//! operator := "+" | "-" | "*" | "/" | "%"
//! ```
//!
//! An integer is a run of digits; a minus sign is never part of it.  The
//! grammar knows nothing of precedence: an `expr` is a flat sequence.

use vstd::prelude::*;
use vstd::string::*;
use crate::failure::{Expected, ParseFailure};
use crate::node::{
    lemma_well_formed_longer, nodes_view, well_formed, well_formed_operand, Node, SyntaxNode,
};
use crate::signs::{lemma_grammar_reads_the_line, sequence_signs, signs, Sign};
use crate::stops::lemma_error_is_in_the_line;
use crate::token::{
    digit_words, lemma_words_digits, lexemes, spans_within, tokenize, words, Lexeme, Token,
    TokenKind,
};
use crate::tree::Op;

verus! {

/// The kind of the token at position `i`; past the last token, the end of
/// the line.
pub open spec fn kind_at(ws: Seq<Lexeme>, i: int) -> TokenKind {
    if 0 <= i < ws.len() {
        ws[i].kind
    } else {
        TokenKind::End
    }
}

/// The byte offset of the token at position `i`.
pub open spec fn offset_at(ws: Seq<Lexeme>, i: int) -> usize {
    if 0 <= i < ws.len() {
        ws[i].offset
    } else {
        0
    }
}

/// Where reading stops short: the position of the token that cannot
/// continue an expression, and what could have stood there.
pub struct Stop {
    pub at: int,
    pub expected: Expected,
}

/// The syntax error for a place where reading stops short.
pub open spec fn syntax_error(ws: Seq<Lexeme>, stop: Stop) -> ParseFailure {
    ParseFailure::Syntax { position: offset_at(ws, stop.at), expected: stop.expected }
}

/// The infix operator that a kind of token spells, if it spells one.
pub open spec fn operator_of(kind: TokenKind) -> Option<Op> {
    match kind {
        TokenKind::Plus => Some(Op::Add),
        TokenKind::Minus => Some(Op::Subtract),
        TokenKind::Star => Some(Op::Multiply),
        TokenKind::Slash => Some(Op::Divide),
        TokenKind::Percent => Some(Op::Modulo),
        _ => None,
    }
}

/// `primary` at token `i`: the node and the position after it, or where
/// reading stops short.
pub open spec fn spec_primary(ws: Seq<Lexeme>, i: int) -> Result<(Node, int), Stop>
    decreases ws.len() - i, 0int,
{
    if i < 0 || i >= ws.len() {
        Err(Stop { at: i, expected: Expected::Operand })
    } else {
        match ws[i].kind {
            TokenKind::Integer => Ok(
                (Node::Integer { offset: ws[i].offset, text: ws[i].text }, i + 1),
            ),
            TokenKind::Minus => match spec_primary(ws, i + 1) {
                Ok((operand, next)) => Ok((Node::UnaryMinus(seq![operand]), next)),
                Err(e) => Err(e),
            },
            TokenKind::LeftParen => match spec_expr(ws, i + 1) {
                Ok((inner, close)) => if kind_at(ws, close) == TokenKind::RightParen {
                    Ok((Node::Group(inner), close + 1))
                } else {
                    Err(Stop { at: close, expected: Expected::OperatorOrClose })
                },
                Err(e) => Err(e),
            },
            _ => Err(Stop { at: i, expected: Expected::Operand }),
        }
    }
}

/// `expr` at token `i`: the flat sequence of its nodes and the position
/// after it, or where reading stops short.
pub open spec fn spec_expr(ws: Seq<Lexeme>, i: int) -> Result<(Seq<Node>, int), Stop>
    decreases ws.len() - i, 2int,
{
    if i < 0 || i >= ws.len() {
        Err(Stop { at: i, expected: Expected::Operand })
    } else {
        match spec_primary(ws, i) {
            Ok((first, next)) => if i < next <= ws.len() {
                spec_rest(ws, next, seq![first])
            } else {
                Err(Stop { at: i, expected: Expected::Operand })
            },
            Err(e) => Err(e),
        }
    }
}

/// `(operator primary)*` at token `i`, after the nodes `before`.  (A
/// `primary` always ends after its first token and inside the line, so the
/// test on `next` never fails.)
pub open spec fn spec_rest(ws: Seq<Lexeme>, i: int, before: Seq<Node>) -> Result<
    (Seq<Node>, int),
    Stop,
>
    decreases ws.len() - i, 1int,
{
    if i < 0 || i >= ws.len() {
        Ok((before, i))
    } else {
        match operator_of(ws[i].kind) {
            Some(op) => match spec_primary(ws, i + 1) {
                Ok((operand, next)) => if i < next <= ws.len() {
                    spec_rest(ws, next, before.push(Node::Operator(op)).push(operand))
                } else {
                    Err(Stop { at: i, expected: Expected::Operand })
                },
                Err(e) => Err(e),
            },
            None => Ok((before, i)),
        }
    }
}

/// `equation`: an `expr` that the end of the line follows.
pub open spec fn spec_equation(ws: Seq<Lexeme>) -> Result<Seq<Node>, Stop> {
    match spec_expr(ws, 0) {
        Ok((nodes, next)) => if kind_at(ws, next) == TokenKind::End {
            Ok(nodes)
        } else {
            Err(Stop { at: next, expected: Expected::OperatorOrEnd })
        },
        Err(e) => Err(e),
    }
}

/// The syntax nodes of a line, or the syntax error at the first token that
/// cannot continue an expression.
pub open spec fn grammar(line: Seq<u8>) -> Result<Seq<Node>, ParseFailure> {
    match spec_equation(words(line)) {
        Ok(nodes) => Ok(nodes),
        Err(stop) => Err(syntax_error(words(line), stop)),
    }
}

/// An `expr` ends before a token that spells no operator.
pub(crate) proof fn lemma_expr_ends(ws: Seq<Lexeme>, i: int)
    ensures
        spec_expr(ws, i) matches Ok((nodes, next)) ==> operator_of(kind_at(ws, next)) is None,
    decreases ws.len() - i,
{
    if 0 <= i < ws.len() {
        if let Ok((first, next)) = spec_primary(ws, i) {
            if i < next <= ws.len() {
                lemma_rest_ends(ws, next, seq![first]);
            }
        }
    }
}

pub(crate) proof fn lemma_rest_ends(ws: Seq<Lexeme>, i: int, before: Seq<Node>)
    ensures
        spec_rest(ws, i, before) matches Ok((nodes, next)) ==> operator_of(kind_at(ws, next))
            is None,
    decreases ws.len() - i,
{
    if 0 <= i < ws.len() {
        if let Some(op) = operator_of(ws[i].kind) {
            if let Ok((operand, next)) = spec_primary(ws, i + 1) {
                if i < next <= ws.len() {
                    lemma_rest_ends(ws, next, before.push(Node::Operator(op)).push(operand));
                }
            }
        }
    }
}

pub(crate) proof fn lemma_primary_shape(ws: Seq<Lexeme>, i: int)
    requires
        digit_words(ws),
        0 <= i <= ws.len(),
    ensures
        spec_primary(ws, i) matches Ok((node, next)) ==> well_formed_operand(node) && i < next
            <= ws.len(),
        spec_primary(ws, i) matches Err(stop) ==> i <= stop.at <= ws.len()
            && !stop.expected.allows(kind_at(ws, stop.at)),
    decreases ws.len() - i, 0int,
{
    if i < ws.len() {
        match ws[i].kind {
            TokenKind::Minus => {
                lemma_primary_shape(ws, i + 1);
                if let Ok((operand, next)) = spec_primary(ws, i + 1) {
                    assert(well_formed(seq![operand]));
                }
            },
            TokenKind::LeftParen => {
                lemma_expr_shape(ws, i + 1);
                lemma_expr_ends(ws, i + 1);
            },
            _ => {},
        }
    }
}

pub(crate) proof fn lemma_expr_shape(ws: Seq<Lexeme>, i: int)
    requires
        digit_words(ws),
        0 <= i <= ws.len(),
    ensures
        spec_expr(ws, i) matches Ok((nodes, next)) ==> well_formed(nodes) && i < next <= ws.len(),
        spec_expr(ws, i) matches Err(stop) ==> i <= stop.at <= ws.len()
            && !stop.expected.allows(kind_at(ws, stop.at)),
    decreases ws.len() - i, 2int,
{
    if i < ws.len() {
        lemma_primary_shape(ws, i);
        if let Ok((first, next)) = spec_primary(ws, i) {
            assert(well_formed(seq![first]));
            lemma_rest_shape(ws, next, seq![first]);
        }
    }
}

pub(crate) proof fn lemma_rest_shape(ws: Seq<Lexeme>, i: int, before: Seq<Node>)
    requires
        digit_words(ws),
        well_formed(before),
        0 <= i <= ws.len(),
    ensures
        spec_rest(ws, i, before) matches Ok((nodes, next)) ==> well_formed(nodes) && i <= next
            <= ws.len(),
        spec_rest(ws, i, before) matches Err(stop) ==> i <= stop.at <= ws.len()
            && !stop.expected.allows(kind_at(ws, stop.at)),
    decreases ws.len() - i, 1int,
{
    if i < ws.len() {
        if let Some(op) = operator_of(ws[i].kind) {
            lemma_primary_shape(ws, i + 1);
            if let Ok((operand, next)) = spec_primary(ws, i + 1) {
                let longer = before.push(Node::Operator(op)).push(operand);
                lemma_well_formed_longer(before, op, operand);
                lemma_rest_shape(ws, next, longer);
            }
        }
    }
}

/// The nodes that the grammar reads from tokens are well-formed, and where
/// reading stops short, the token there is none of those that were
/// expected.
pub proof fn lemma_equation_shape(ws: Seq<Lexeme>)
    requires
        digit_words(ws),
    ensures
        spec_equation(ws) matches Ok(nodes) ==> well_formed(nodes),
        spec_equation(ws) matches Err(stop) ==> 0 <= stop.at <= ws.len()
            && !stop.expected.allows(kind_at(ws, stop.at)),
{
    lemma_expr_shape(ws, 0);
    lemma_expr_ends(ws, 0);
}

/// The nodes that the grammar gives for a line have the shape that the
/// tree builder relies on, and the grammar fails with syntax errors only.
pub proof fn lemma_grammar_well_formed(line: Seq<u8>)
    requires
        line.len() <= usize::MAX,
    ensures
        grammar(line) matches Ok(nodes) ==> well_formed(nodes),
        grammar(line) matches Err(e) ==> e is Syntax,
{
    lemma_words_digits(line);
    lemma_equation_shape(words(line));
}

/// Whether a node with the position after it, or a syntax error, is what
/// the grammar gives on the tokens `ws`.
pub open spec fn node_agrees(
    r: Result<(SyntaxNode, usize), ParseFailure>,
    s: Result<(Node, int), Stop>,
    ws: Seq<Lexeme>,
) -> bool {
    match r {
        Ok((node, next)) => s == Ok::<(Node, int), Stop>((node@, next as int)),
        Err(e) => s matches Err(stop) && e == syntax_error(ws, stop),
    }
}

/// Whether a sequence of nodes with the position after it, or a syntax
/// error, is what the grammar gives on the tokens `ws`.
pub open spec fn nodes_agree(
    r: Result<(Vec<SyntaxNode>, usize), ParseFailure>,
    s: Result<(Seq<Node>, int), Stop>,
    ws: Seq<Lexeme>,
) -> bool {
    match r {
        Ok((nodes, next)) => s == Ok::<(Seq<Node>, int), Stop>((nodes_view(nodes@), next as int)),
        Err(e) => s matches Err(stop) && e == syntax_error(ws, stop),
    }
}

/// Whether the outcome of the grammar on a line is what `expected` says.
pub open spec fn outcome_agrees(
    r: Result<Vec<SyntaxNode>, ParseFailure>,
    expected: Result<Seq<Node>, ParseFailure>,
) -> bool {
    match r {
        Ok(nodes) => expected == Ok::<Seq<Node>, ParseFailure>(nodes_view(nodes@)),
        Err(e) => expected == Err::<Seq<Node>, ParseFailure>(e),
    }
}

/// The infix operator that a kind of token spells, if it spells one.
pub fn operator_for(kind: TokenKind) -> (r: Option<Op>)
    ensures
        r == operator_of(kind),
{
    match kind {
        TokenKind::Plus => Some(Op::Add),
        TokenKind::Minus => Some(Op::Subtract),
        TokenKind::Star => Some(Op::Multiply),
        TokenKind::Slash => Some(Op::Divide),
        TokenKind::Percent => Some(Op::Modulo),
        _ => None,
    }
}

/// Copies bytes `start..end` of a line.
fn copy_text(line: &[u8], start: usize, end: usize) -> (text: Vec<u8>)
    requires
        start <= end <= line@.len(),
    ensures
        text@ == line@.subrange(start as int, end as int),
{
    let mut text: Vec<u8> = Vec::new();
    let mut i = start;
    while i < end
        invariant
            start <= i <= end <= line@.len(),
            text@ == line@.subrange(start as int, i as int),
        decreases end - i,
    {
        text.push(line[i]);
        i += 1;
        assert(text@ =~= line@.subrange(start as int, i as int));
    }
    text
}

/// Reads one `primary` at token `i`.
fn primary(tokens: &Vec<Token>, line: &[u8], i: usize) -> (r: Result<
    (SyntaxNode, usize),
    ParseFailure,
>)
    requires
        spans_within(tokens@, line@.len()),
        i <= tokens.len(),
    ensures
        node_agrees(r, spec_primary(lexemes(tokens@, line@), i as int), lexemes(tokens@, line@)),
        r matches Ok((_, next)) ==> i < next <= tokens.len(),
    decreases tokens.len() - i, 0nat,
{
    if i >= tokens.len() {
        return Err(ParseFailure::Syntax { position: 0, expected: Expected::Operand });
    }
    let token = tokens[i];
    match token.kind {
        TokenKind::Integer => {
            let text = copy_text(line, token.start, token.end);
            Ok((SyntaxNode::Integer { offset: token.start, text }, i + 1))
        },
        TokenKind::Minus => match primary(tokens, line, i + 1) {
            Ok((operand, next)) => {
                let mut inner: Vec<SyntaxNode> = Vec::new();
                inner.push(operand);
                assert(nodes_view(inner@) =~= seq![operand@]);
                Ok((SyntaxNode::UnaryMinus(inner), next))
            },
            Err(e) => Err(e),
        },
        TokenKind::LeftParen => match expr(tokens, line, i + 1) {
            Ok((inner, close)) => {
                if close < tokens.len() && tokens[close].kind == TokenKind::RightParen {
                    Ok((SyntaxNode::Group(inner), close + 1))
                } else {
                    let position = if close < tokens.len() {
                        tokens[close].start
                    } else {
                        0
                    };
                    Err(ParseFailure::Syntax { position, expected: Expected::OperatorOrClose })
                }
            },
            Err(e) => Err(e),
        },
        _ => Err(ParseFailure::Syntax { position: token.start, expected: Expected::Operand }),
    }
}

/// Reads one `expr` at token `i`.
fn expr(tokens: &Vec<Token>, line: &[u8], i: usize) -> (r: Result<
    (Vec<SyntaxNode>, usize),
    ParseFailure,
>)
    requires
        spans_within(tokens@, line@.len()),
        i <= tokens.len(),
    ensures
        nodes_agree(r, spec_expr(lexemes(tokens@, line@), i as int), lexemes(tokens@, line@)),
        r matches Ok((_, next)) ==> i < next <= tokens.len(),
    decreases tokens.len() - i, 1nat,
{
    let ghost ws = lexemes(tokens@, line@);
    if i >= tokens.len() {
        return Err(ParseFailure::Syntax { position: 0, expected: Expected::Operand });
    }
    let (first, after_first) = match primary(tokens, line, i) {
        Ok(found) => found,
        Err(e) => {
            return Err(e);
        },
    };
    let mut nodes: Vec<SyntaxNode> = Vec::new();
    nodes.push(first);
    let mut j = after_first;
    assert(nodes_view(nodes@) =~= seq![first@]);
    loop
        invariant
            spans_within(tokens@, line@.len()),
            ws == lexemes(tokens@, line@),
            i < j <= tokens.len(),
            spec_expr(ws, i as int) == spec_rest(ws, j as int, nodes_view(nodes@)),
        decreases tokens.len() - j,
    {
        if j >= tokens.len() {
            return Ok((nodes, j));
        }
        let op = match operator_for(tokens[j].kind) {
            Some(op) => op,
            None => {
                return Ok((nodes, j));
            },
        };
        match primary(tokens, line, j + 1) {
            Ok((operand, next)) => {
                let ghost before = nodes_view(nodes@);
                nodes.push(SyntaxNode::Operator(op));
                nodes.push(operand);
                assert(nodes_view(nodes@) =~= before.push(Node::Operator(op)).push(operand@));
                j = next;
            },
            Err(e) => {
                return Err(e);
            },
        }
    }
}

/// The grammar of one-line arithmetic expressions.
pub struct CalculatorParser;

impl CalculatorParser {
    /// Reads a line as an expression that fills the whole line, and gives
    /// the flat sequence of its syntax nodes: the one well-formed sequence
    /// that is written with the tokens of the line.
    ///
    /// White space between tokens is skipped.  A line that is no expression
    /// gives a syntax error at the first token that cannot continue one,
    /// with what could have stood there.
    pub fn parse(line: &str) -> (r: Result<Vec<SyntaxNode>, ParseFailure>)
        ensures
            outcome_agrees(r, grammar(line.spec_bytes())),
            r matches Ok(nodes) ==> well_formed(nodes_view(nodes@)) && sequence_signs(
                nodes_view(nodes@),
            ).push(Sign::Symbol(TokenKind::End)) == signs(words(line.spec_bytes())),
            r matches Err(e) ==> e matches ParseFailure::Syntax { position, .. } && position
                <= line.spec_bytes().len(),
    {
        let bytes = line.as_bytes();
        proof {
            assert(bytes@.len() == bytes.len());
            lemma_grammar_well_formed(bytes@);
            lemma_grammar_reads_the_line(bytes@);
            lemma_error_is_in_the_line(bytes@);
        }
        let tokens = tokenize(bytes);
        let ghost ws = lexemes(tokens@, bytes@);
        match expr(&tokens, bytes, 0) {
            Ok((nodes, next)) => {
                if next < tokens.len() && tokens[next].kind != TokenKind::End {
                    Err(
                        ParseFailure::Syntax {
                            position: tokens[next].start,
                            expected: Expected::OperatorOrEnd,
                        },
                    )
                } else {
                    Ok(nodes)
                }
            },
            Err(e) => Err(e),
        }
    }
}

} // verus!
