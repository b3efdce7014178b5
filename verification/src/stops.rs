//! Syntax errors are exact.
//!
//! Where the grammar stops short at a token, no run of tokens that starts
//! with the same tokens and goes on with a token that was not expected is
//! an expression, and for every kind of token that was expected some run
//! that starts with the same tokens and goes on with a token of that kind
//! is one.  So the error points at the first token that cannot continue an
//! expression, and names exactly what could have.

use vstd::prelude::*;
use crate::failure::{Expected, ParseFailure};
use crate::grammar::{
    grammar, kind_at, lemma_expr_ends, lemma_expr_shape, lemma_primary_shape, lemma_rest_shape,
    operator_of, spec_equation, spec_expr, spec_primary, spec_rest,
};
use crate::literal::{is_digit, DIGIT_ZERO};
use crate::node::{lemma_well_formed_longer, well_formed, well_formed_operand, Node};
use crate::signs::{
    lemma_expr_reads, lemma_expr_signs, lemma_primary_signs, lemma_signs_one, lemma_signs_push,
    node_signs, sequence_signs, sign_of, signs, symbol_of, Sign,
};
use crate::token::{
    digit_words, lemma_lex_ends_once, lemma_lex_spans, lemma_words_digits, lex, words, Lexeme,
    TokenKind,
};

verus! {

/// Whether two runs of tokens are the same up to position `k`.
pub open spec fn same_before(ws: Seq<Lexeme>, other: Seq<Lexeme>, k: int) -> bool {
    &&& 0 <= k <= ws.len()
    &&& k <= other.len()
    &&& forall|j: int| 0 <= j < k ==> ws[j] == other[j]
}

proof fn lemma_primary_again(ws: Seq<Lexeme>, other: Seq<Lexeme>, i: int, k: int)
    requires
        digit_words(ws),
        0 <= i <= ws.len(),
        same_before(ws, other, k),
        spec_primary(ws, i) matches Ok((node, next)) && next <= k,
    ensures
        spec_primary(other, i) == spec_primary(ws, i),
    decreases ws.len() - i, 0int,
{
    lemma_primary_shape(ws, i);
    if i < ws.len() {
        assert(ws[i] == other[i]);
        match ws[i].kind {
            TokenKind::Minus => {
                lemma_primary_again(ws, other, i + 1, k);
            },
            TokenKind::LeftParen => {
                lemma_expr_shape(ws, i + 1);
                let close = spec_expr(ws, i + 1)->Ok_0.1;
                assert(ws[close] == other[close]);
                lemma_expr_again(ws, other, i + 1, k);
            },
            _ => {},
        }
    }
}

proof fn lemma_expr_again(ws: Seq<Lexeme>, other: Seq<Lexeme>, i: int, k: int)
    requires
        digit_words(ws),
        0 <= i <= ws.len(),
        same_before(ws, other, k),
        spec_expr(ws, i) matches Ok((nodes, next)) && next <= k && (next == k ==> operator_of(
            kind_at(other, next),
        ) is None),
    ensures
        spec_expr(other, i) == spec_expr(ws, i),
    decreases ws.len() - i, 2int,
{
    lemma_expr_shape(ws, i);
    lemma_primary_shape(ws, i);
    if i < ws.len() {
        if let Ok((first, next)) = spec_primary(ws, i) {
            assert(well_formed(seq![first]));
            lemma_rest_shape(ws, next, seq![first]);
            lemma_primary_again(ws, other, i, k);
            lemma_rest_again(ws, other, next, seq![first], k);
        }
    }
}

proof fn lemma_rest_again(
    ws: Seq<Lexeme>,
    other: Seq<Lexeme>,
    i: int,
    before: Seq<Node>,
    k: int,
)
    requires
        digit_words(ws),
        well_formed(before),
        0 <= i <= ws.len(),
        same_before(ws, other, k),
        spec_rest(ws, i, before) matches Ok((nodes, next)) && next <= k && (next == k
            ==> operator_of(kind_at(other, next)) is None),
    ensures
        spec_rest(other, i, before) == spec_rest(ws, i, before),
    decreases ws.len() - i, 1int,
{
    lemma_rest_shape(ws, i, before);
    if i < ws.len() {
        if let Some(op) = operator_of(ws[i].kind) {
            lemma_primary_shape(ws, i + 1);
            if let Ok((operand, next)) = spec_primary(ws, i + 1) {
                let longer = before.push(Node::Operator(op)).push(operand);
                lemma_well_formed_longer(before, op, operand);
                lemma_rest_shape(ws, next, longer);
                assert(ws[i] == other[i]);
                lemma_primary_again(ws, other, i + 1, k);
                lemma_rest_again(ws, other, next, longer, k);
            }
        } else {
            if i < k {
                assert(ws[i] == other[i]);
            }
        }
    }
}

proof fn lemma_primary_stops_again(ws: Seq<Lexeme>, other: Seq<Lexeme>, i: int)
    requires
        digit_words(ws),
        0 <= i <= ws.len(),
        spec_primary(ws, i) matches Err(stop) && same_before(ws, other, stop.at)
            && !stop.expected.allows(kind_at(other, stop.at)),
    ensures
        spec_primary(other, i) == spec_primary(ws, i),
    decreases ws.len() - i, 0int,
{
    lemma_primary_shape(ws, i);
    let stop = spec_primary(ws, i)->Err_0;
    if i < ws.len() {
        match ws[i].kind {
            TokenKind::Integer => {},
            TokenKind::Minus => {
                lemma_primary_shape(ws, i + 1);
                assert(ws[i] == other[i]);
                lemma_primary_stops_again(ws, other, i + 1);
            },
            TokenKind::LeftParen => {
                lemma_expr_shape(ws, i + 1);
                assert(ws[i] == other[i]);
                match spec_expr(ws, i + 1) {
                    Ok((inner, close)) => {
                        lemma_expr_again(ws, other, i + 1, close);
                    },
                    Err(_) => {
                        lemma_expr_stops_again(ws, other, i + 1);
                    },
                }
            },
            _ => {},
        }
    }
}

proof fn lemma_expr_stops_again(ws: Seq<Lexeme>, other: Seq<Lexeme>, i: int)
    requires
        digit_words(ws),
        0 <= i <= ws.len(),
        spec_expr(ws, i) matches Err(stop) && same_before(ws, other, stop.at)
            && !stop.expected.allows(kind_at(other, stop.at)),
    ensures
        spec_expr(other, i) == spec_expr(ws, i),
    decreases ws.len() - i, 2int,
{
    lemma_expr_shape(ws, i);
    lemma_primary_shape(ws, i);
    let stop = spec_expr(ws, i)->Err_0;
    if i < ws.len() {
        match spec_primary(ws, i) {
            Ok((first, next)) => {
                assert(well_formed(seq![first]));
                lemma_rest_shape(ws, next, seq![first]);
                lemma_primary_again(ws, other, i, stop.at);
                lemma_rest_stops_again(ws, other, next, seq![first]);
            },
            Err(_) => {
                lemma_primary_stops_again(ws, other, i);
                if i < other.len() {
                } else {
                    assert(stop.at == i);
                }
            },
        }
    }
}

proof fn lemma_rest_stops_again(ws: Seq<Lexeme>, other: Seq<Lexeme>, i: int, before: Seq<Node>)
    requires
        digit_words(ws),
        well_formed(before),
        0 <= i <= ws.len(),
        spec_rest(ws, i, before) matches Err(stop) && same_before(ws, other, stop.at)
            && !stop.expected.allows(kind_at(other, stop.at)),
    ensures
        spec_rest(other, i, before) == spec_rest(ws, i, before),
    decreases ws.len() - i, 1int,
{
    lemma_rest_shape(ws, i, before);
    let stop = spec_rest(ws, i, before)->Err_0;
    if i < ws.len() {
        if let Some(op) = operator_of(ws[i].kind) {
            lemma_primary_shape(ws, i + 1);
            match spec_primary(ws, i + 1) {
                Ok((operand, next)) => {
                    let longer = before.push(Node::Operator(op)).push(operand);
                    lemma_well_formed_longer(before, op, operand);
                    lemma_rest_shape(ws, next, longer);
                    assert(ws[i] == other[i]);
                    lemma_primary_again(ws, other, i + 1, stop.at);
                    lemma_rest_stops_again(ws, other, next, longer);
                },
                Err(_) => {
                    assert(ws[i] == other[i]);
                    lemma_primary_stops_again(ws, other, i + 1);
                },
            }
        }
    }
}

/// Where the grammar stops short at a token, it stops short in the same
/// way on every run of tokens that is the same up to there and goes on
/// with a token of a kind that was not expected: nothing that follows can
/// make an expression of it.
pub proof fn lemma_stop_is_final(ws: Seq<Lexeme>, other: Seq<Lexeme>)
    requires
        digit_words(ws),
        spec_equation(ws) matches Err(stop) && same_before(ws, other, stop.at)
            && !stop.expected.allows(kind_at(other, stop.at)),
    ensures
        spec_equation(other) == spec_equation(ws),
{
    lemma_expr_shape(ws, 0);
    lemma_expr_ends(ws, 0);
    match spec_expr(ws, 0) {
        Ok((nodes, next)) => {
            lemma_expr_again(ws, other, 0, next);
        },
        Err(_) => {
            lemma_expr_stops_again(ws, other, 0);
        },
    }
}

/// The literal `0`, with which an expression that lacks an operand can
/// always go on.
pub open spec fn zero() -> Node {
    Node::Integer { offset: 0, text: seq![DIGIT_ZERO] }
}

/// A sign for a token of the given kind.
pub open spec fn sign_for(kind: TokenKind) -> Sign {
    if kind is Integer {
        Sign::Literal { offset: 0, text: seq![DIGIT_ZERO] }
    } else {
        Sign::Symbol(kind)
    }
}

/// A token for a sign.
pub open spec fn lexeme_for(sign: Sign) -> Lexeme {
    match sign {
        Sign::Literal { offset, text } => Lexeme { kind: TokenKind::Integer, offset, text },
        Sign::Symbol(kind) => Lexeme { kind, offset: 0, text: Seq::empty() },
    }
}

/// Tokens for signs.
pub open spec fn lexemes_for(written: Seq<Sign>) -> Seq<Lexeme> {
    Seq::new(written.len(), |k: int| lexeme_for(written[k]))
}

/// Whether every sign is the sign of some token.
pub open spec fn plain(written: Seq<Sign>) -> bool {
    forall|k: int| 0 <= k < written.len() ==> #[trigger] written[k] != Sign::Symbol(
        TokenKind::Integer,
    )
}

proof fn lemma_zero()
    ensures
        well_formed_operand(zero()),
        well_formed(seq![zero()]),
        node_signs(zero()) == seq![sign_for(TokenKind::Integer)],
        sequence_signs(seq![zero()]) == seq![sign_for(TokenKind::Integer)],
{
    assert(is_digit(DIGIT_ZERO));
    lemma_signs_one(zero());
}

proof fn lemma_spelled_operator(kind: TokenKind)
    requires
        operator_of(kind) is Some,
    ensures
        symbol_of(operator_of(kind)->Some_0) == kind,
        !(kind is Integer),
{
}

/// An operand that stops short can go on with any token that was expected
/// and be completed: the result holds the operand and the signs that
/// complete it.
proof fn lemma_primary_completes(ws: Seq<Lexeme>, i: int, c: TokenKind) -> (r: (
    Node,
    Seq<Sign>,
))
    requires
        digit_words(ws),
        0 <= i <= ws.len(),
        spec_primary(ws, i) matches Err(stop) && stop.expected.allows(c),
    ensures
        well_formed_operand(r.0),
        plain(r.1),
        node_signs(r.0) == signs(ws).subrange(i, spec_primary(ws, i)->Err_0.at) + seq![
            sign_for(c),
        ] + r.1,
    decreases ws.len() - i, 0int,
{
    let all = signs(ws);
    let stop = spec_primary(ws, i)->Err_0;
    let number = sign_for(TokenKind::Integer);
    let close = Sign::Symbol(TokenKind::RightParen);
    lemma_primary_shape(ws, i);
    lemma_zero();
    if i < ws.len() && ws[i].kind == TokenKind::Minus {
        lemma_primary_shape(ws, i + 1);
        let (operand, tail) = lemma_primary_completes(ws, i + 1, c);
        lemma_signs_one(operand);
        assert(well_formed(seq![operand]));
        assert(all.subrange(i, stop.at) =~= seq![sign_of(ws[i])] + all.subrange(i + 1, stop.at));
        let node = Node::UnaryMinus(seq![operand]);
        assert(node_signs(node) =~= all.subrange(i, stop.at) + seq![sign_for(c)] + tail);
        (node, tail)
    } else if i < ws.len() && ws[i].kind == TokenKind::LeftParen {
        lemma_expr_shape(ws, i + 1);
        match spec_expr(ws, i + 1) {
            Ok((inner, at)) => {
                lemma_expr_signs(ws, i + 1);
                assert(all.subrange(i, stop.at) =~= seq![sign_of(ws[i])] + all.subrange(
                    i + 1,
                    stop.at,
                ));
                if c == TokenKind::RightParen {
                    let node = Node::Group(inner);
                    let tail = Seq::<Sign>::empty();
                    assert(node_signs(node) =~= all.subrange(i, stop.at) + seq![sign_for(c)]
                        + tail);
                    (node, tail)
                } else {
                    let op = operator_of(c)->Some_0;
                    lemma_spelled_operator(c);
                    let longer = inner.push(Node::Operator(op)).push(zero());
                    lemma_well_formed_longer(inner, op, zero());
                    lemma_signs_push(inner, Node::Operator(op));
                    lemma_signs_push(inner.push(Node::Operator(op)), zero());
                    let node = Node::Group(longer);
                    let tail = seq![number, close];
                    assert(node_signs(node) =~= all.subrange(i, stop.at) + seq![sign_for(c)]
                        + tail);
                    (node, tail)
                }
            },
            Err(_) => {
                let (inner, tail) = lemma_expr_completes(ws, i + 1, c);
                assert(all.subrange(i, stop.at) =~= seq![sign_of(ws[i])] + all.subrange(
                    i + 1,
                    stop.at,
                ));
                let node = Node::Group(inner);
                let longer_tail = tail.push(close);
                assert(node_signs(node) =~= all.subrange(i, stop.at) + seq![sign_for(c)]
                    + longer_tail);
                (node, longer_tail)
            },
        }
    } else {
        assert(stop.at == i);
        assert(stop.expected == Expected::Operand);
        assert(all.subrange(i, i) =~= Seq::<Sign>::empty());
        if c == TokenKind::Integer {
            let tail = Seq::<Sign>::empty();
            assert(node_signs(zero()) =~= all.subrange(i, i) + seq![sign_for(c)] + tail);
            (zero(), tail)
        } else if c == TokenKind::Minus {
            let node = Node::UnaryMinus(seq![zero()]);
            let tail = seq![number];
            assert(node_signs(node) =~= all.subrange(i, i) + seq![sign_for(c)] + tail);
            (node, tail)
        } else {
            let node = Node::Group(seq![zero()]);
            let tail = seq![number, close];
            assert(node_signs(node) =~= all.subrange(i, i) + seq![sign_for(c)] + tail);
            (node, tail)
        }
    }
}

proof fn lemma_expr_completes(ws: Seq<Lexeme>, i: int, c: TokenKind) -> (r: (Seq<Node>, Seq<Sign>))
    requires
        digit_words(ws),
        0 <= i <= ws.len(),
        spec_expr(ws, i) matches Err(stop) && stop.expected.allows(c),
    ensures
        well_formed(r.0),
        plain(r.1),
        sequence_signs(r.0) == signs(ws).subrange(i, spec_expr(ws, i)->Err_0.at) + seq![
            sign_for(c),
        ] + r.1,
    decreases ws.len() - i, 2int,
{
    lemma_primary_shape(ws, i);
    match spec_primary(ws, i) {
        Ok((first, next)) => {
            assert(well_formed(seq![first]));
            lemma_primary_signs(ws, i);
            lemma_signs_one(first);
            lemma_rest_completes(ws, i, next, seq![first], c)
        },
        Err(_) => {
            let (operand, tail) = lemma_primary_completes(ws, i, c);
            lemma_signs_one(operand);
            assert(well_formed(seq![operand]));
            (seq![operand], tail)
        },
    }
}

proof fn lemma_rest_completes(
    ws: Seq<Lexeme>,
    start: int,
    i: int,
    before: Seq<Node>,
    c: TokenKind,
) -> (r: (Seq<Node>, Seq<Sign>))
    requires
        digit_words(ws),
        well_formed(before),
        0 <= start <= i <= ws.len(),
        sequence_signs(before) == signs(ws).subrange(start, i),
        spec_rest(ws, i, before) matches Err(stop) && stop.expected.allows(c),
    ensures
        well_formed(r.0),
        plain(r.1),
        sequence_signs(r.0) == signs(ws).subrange(start, spec_rest(ws, i, before)->Err_0.at)
            + seq![sign_for(c)] + r.1,
    decreases ws.len() - i, 1int,
{
    let all = signs(ws);
    let stop = spec_rest(ws, i, before)->Err_0;
    let op = operator_of(ws[i].kind)->Some_0;
    lemma_spelled_operator(ws[i].kind);
    lemma_primary_shape(ws, i + 1);
    lemma_signs_push(before, Node::Operator(op));
    match spec_primary(ws, i + 1) {
        Ok((operand, next)) => {
            let longer = before.push(Node::Operator(op)).push(operand);
            lemma_well_formed_longer(before, op, operand);
            lemma_signs_push(before.push(Node::Operator(op)), operand);
            lemma_primary_signs(ws, i + 1);
            assert(all.subrange(start, next) =~= all.subrange(start, i) + seq![sign_of(ws[i])]
                + all.subrange(i + 1, next));
            lemma_rest_completes(ws, start, next, longer, c)
        },
        Err(_) => {
            let (operand, tail) = lemma_primary_completes(ws, i + 1, c);
            let longer = before.push(Node::Operator(op)).push(operand);
            lemma_well_formed_longer(before, op, operand);
            lemma_signs_push(before.push(Node::Operator(op)), operand);
            assert(all.subrange(start, stop.at) =~= all.subrange(start, i) + seq![sign_of(ws[i])]
                + all.subrange(i + 1, stop.at));
            assert(sequence_signs(longer) =~= all.subrange(start, stop.at) + seq![sign_for(c)]
                + tail);
            (longer, tail)
        },
    }
}

proof fn lemma_lexemes_for(ws: Seq<Lexeme>, k: int, written: Seq<Sign>)
    requires
        0 <= k <= ws.len(),
        plain(written),
    ensures
        signs(ws.take(k) + lexemes_for(written)) == signs(ws).subrange(0, k) + written,
{
    let other = ws.take(k) + lexemes_for(written);
    assert forall|j: int| 0 <= j < other.len() implies signs(other)[j] == (signs(ws).subrange(0, k)
        + written)[j] by {
        if j >= k {
            assert(other[j] == lexeme_for(written[j - k]));
            assert(written[j - k] != Sign::Symbol(TokenKind::Integer));
        }
    }
    assert(signs(other) =~= signs(ws).subrange(0, k) + written);
}

/// Where the grammar stops short at a token, every kind of token that was
/// expected there can go on: the result is a run of tokens that is the
/// same up to there, goes on with a token of that kind, and is an
/// expression.
pub proof fn lemma_expected_continues(ws: Seq<Lexeme>, c: TokenKind) -> (other: Seq<Lexeme>)
    requires
        digit_words(ws),
        spec_equation(ws) matches Err(stop) && stop.expected.allows(c),
    ensures
        same_before(ws, other, spec_equation(ws)->Err_0.at),
        kind_at(other, spec_equation(ws)->Err_0.at) == c,
        spec_equation(other) is Ok,
{
    let stop = spec_equation(ws)->Err_0;
    let k = stop.at;
    let end = Sign::Symbol(TokenKind::End);
    lemma_expr_shape(ws, 0);
    lemma_zero();
    let (nodes, rest): (Seq<Node>, Seq<Sign>) = match spec_expr(ws, 0) {
        Ok((read, next)) => {
            lemma_expr_signs(ws, 0);
            if c == TokenKind::End {
                assert(signs(ws).subrange(0, k) + Seq::<Sign>::empty() =~= signs(ws).subrange(
                    0,
                    k,
                ));
                (read, Seq::<Sign>::empty())
            } else {
                let op = operator_of(c)->Some_0;
                lemma_spelled_operator(c);
                let longer = read.push(Node::Operator(op)).push(zero());
                lemma_well_formed_longer(read, op, zero());
                lemma_signs_push(read, Node::Operator(op));
                lemma_signs_push(read.push(Node::Operator(op)), zero());
                let rest = seq![sign_for(c), sign_for(TokenKind::Integer)];
                assert(sequence_signs(longer) =~= signs(ws).subrange(0, k) + rest);
                (longer, rest)
            }
        },
        Err(_) => {
            let (completed, tail) = lemma_expr_completes(ws, 0, c);
            let rest = seq![sign_for(c)] + tail;
            assert(sequence_signs(completed) =~= signs(ws).subrange(0, k) + rest);
            (completed, rest)
        },
    };
    assert(well_formed(nodes));
    assert(plain(rest));
    assert(sequence_signs(nodes) == signs(ws).subrange(0, k) + rest);
    let completion = rest.push(end);
    let other = ws.take(k) + lexemes_for(completion);
    lemma_lexemes_for(ws, k, completion);
    let written = sequence_signs(nodes);
    assert(signs(other).subrange(0, written.len() as int) =~= written);
    assert(other[written.len() as int] == lexeme_for(end));
    lemma_expr_reads(other, 0, nodes);
    assert(other[k] == lexeme_for(completion[0]));
    other
}

proof fn lemma_primary_before_end(ws: Seq<Lexeme>, i: int, end: int)
    requires
        0 <= i <= end < ws.len(),
        ws[end].kind == TokenKind::End,
    ensures
        spec_primary(ws, i) matches Ok((_, next)) ==> next <= end,
        spec_primary(ws, i) matches Err(stop) ==> stop.at <= end,
    decreases ws.len() - i, 0int,
{
    match ws[i].kind {
        TokenKind::Minus => {
            lemma_primary_before_end(ws, i + 1, end);
        },
        TokenKind::LeftParen => {
            lemma_expr_before_end(ws, i + 1, end);
        },
        _ => {},
    }
}

proof fn lemma_expr_before_end(ws: Seq<Lexeme>, i: int, end: int)
    requires
        0 <= i <= end < ws.len(),
        ws[end].kind == TokenKind::End,
    ensures
        spec_expr(ws, i) matches Ok((_, next)) ==> next <= end,
        spec_expr(ws, i) matches Err(stop) ==> stop.at <= end,
    decreases ws.len() - i, 2int,
{
    lemma_primary_before_end(ws, i, end);
    if let Ok((first, next)) = spec_primary(ws, i) {
        if i < next <= ws.len() {
            lemma_rest_before_end(ws, next, seq![first], end);
        }
    }
}

proof fn lemma_rest_before_end(ws: Seq<Lexeme>, i: int, before: Seq<Node>, end: int)
    requires
        0 <= i <= end < ws.len(),
        ws[end].kind == TokenKind::End,
    ensures
        spec_rest(ws, i, before) matches Ok((_, next)) ==> next <= end,
        spec_rest(ws, i, before) matches Err(stop) ==> stop.at <= end,
    decreases ws.len() - i, 1int,
{
    if let Some(op) = operator_of(ws[i].kind) {
        lemma_primary_before_end(ws, i + 1, end);
        if let Ok((operand, next)) = spec_primary(ws, i + 1) {
            if i < next <= ws.len() {
                lemma_rest_before_end(
                    ws,
                    next,
                    before.push(Node::Operator(op)).push(operand),
                    end,
                );
            }
        }
    }
}

/// A syntax error points at a token of the line: its position is the
/// offset of the token at which the grammar stops short, and lies in the
/// line or at its end.
pub proof fn lemma_error_is_in_the_line(line: Seq<u8>)
    requires
        line.len() <= usize::MAX,
    ensures
        spec_equation(words(line)) matches Err(stop) ==> {
            &&& 0 <= stop.at < lex(line).len()
            &&& lex(line)[stop.at].start <= line.len()
            &&& grammar(line) == Err::<Seq<Node>, ParseFailure>(
                ParseFailure::Syntax {
                    position: lex(line)[stop.at].start,
                    expected: stop.expected,
                },
            )
        },
{
    let ws = words(line);
    lemma_lex_ends_once(line, 0);
    lemma_lex_spans(line, 0);
    lemma_words_digits(line);
    lemma_expr_shape(ws, 0);
    let end = ws.len() - 1;
    assert(ws[end].kind == lex(line)[end].kind);
    lemma_expr_before_end(ws, 0, end);
}

} // verus!
