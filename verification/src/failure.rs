//! The ways in which parsing a line can fail.

use vstd::prelude::*;
use vstd::string::*;
use crate::token::TokenKind;

verus! {

/// What the grammar would have accepted at the place where a line stops
/// being an expression.
#[derive(Debug, Clone, Copy, PartialEq, Eq, Structural)]
pub enum Expected {
    /// An operand: an integer literal, a unary minus or an opening parenthesis.
    Operand,
    /// An infix operator or the end of the line.
    OperatorOrEnd,
    /// An infix operator or a closing parenthesis.
    OperatorOrClose,
}

/// A sequence of syntax nodes that the grammar can never produce.
#[derive(Debug, Clone, Copy, PartialEq, Eq, Structural)]
pub enum Fault {
    /// An operand was due and the sequence ended or held an operator.
    ExpectedAtom,
    /// An operator was due and the sequence held an operand.
    ExpectedOperator,
    /// The text of an integer literal is not an optional minus sign followed
    /// by decimal digits.
    MalformedLiteral,
}

/// Why a line could not be turned into an expression tree.
#[derive(Debug, Clone, Copy, PartialEq, Eq, Structural)]
pub enum ParseFailure {
    /// The line is not an expression.  `position` is the byte offset of the
    /// first token that cannot continue an expression (the length of the
    /// line when the line ends too early).
    Syntax { position: usize, expected: Expected },
    /// An integer literal does not fit in an `i32`.  `position` is the byte
    /// offset of the literal.
    NumericOverflow { position: usize },
    /// The syntax nodes do not have the shape that the grammar guarantees.
    Internal { fault: Fault },
}

impl Expected {
    /// Whether a token of the given kind is one of those that were expected.
    pub open spec fn allows(self, kind: TokenKind) -> bool {
        match self {
            Expected::Operand => kind is Integer || kind is Minus || kind is LeftParen,
            Expected::OperatorOrEnd => is_operator_kind(kind) || kind is End,
            Expected::OperatorOrClose => is_operator_kind(kind) || kind is RightParen,
        }
    }

    /// The wording of what was expected.
    pub open spec fn wording(self) -> Seq<char> {
        match self {
            Expected::Operand => "an integer, '-' or '('"@,
            Expected::OperatorOrEnd => "an operator or the end of the line"@,
            Expected::OperatorOrClose => "an operator or ')'"@,
        }
    }

    /// Whether a token of the given kind is one of those that were expected.
    pub fn accepts(&self, kind: TokenKind) -> (r: bool)
        ensures
            r == self.allows(kind),
    {
        let operator = match kind {
            TokenKind::Plus
            | TokenKind::Minus
            | TokenKind::Star
            | TokenKind::Slash
            | TokenKind::Percent => true,
            _ => false,
        };
        match self {
            Expected::Operand => match kind {
                TokenKind::Integer | TokenKind::Minus | TokenKind::LeftParen => true,
                _ => false,
            },
            Expected::OperatorOrEnd => operator || kind == TokenKind::End,
            Expected::OperatorOrClose => operator || kind == TokenKind::RightParen,
        }
    }

    /// What was expected, in words.
    pub fn description(&self) -> (text: &'static str)
        ensures
            text@ == self.wording(),
    {
        match self {
            Expected::Operand => "an integer, '-' or '('",
            Expected::OperatorOrEnd => "an operator or the end of the line",
            Expected::OperatorOrClose => "an operator or ')'",
        }
    }
}

/// Whether a kind of token spells an infix operator.
pub open spec fn is_operator_kind(kind: TokenKind) -> bool {
    kind is Plus || kind is Minus || kind is Star || kind is Slash || kind is Percent
}

impl Fault {
    /// The wording of a fault.
    pub open spec fn wording(self) -> Seq<char> {
        match self {
            Fault::ExpectedAtom => "an operand is missing in the syntax nodes"@,
            Fault::ExpectedOperator => "an operator is missing in the syntax nodes"@,
            Fault::MalformedLiteral => "a literal in the syntax nodes is not a number"@,
        }
    }

    /// The fault, in words.
    pub fn description(&self) -> (text: &'static str)
        ensures
            text@ == self.wording(),
    {
        match self {
            Fault::ExpectedAtom => "an operand is missing in the syntax nodes",
            Fault::ExpectedOperator => "an operator is missing in the syntax nodes",
            Fault::MalformedLiteral => "a literal in the syntax nodes is not a number",
        }
    }
}

impl ParseFailure {
    /// The byte offset in the line to which the failure points, for a
    /// failure that points to one.
    pub open spec fn place(self) -> Option<usize> {
        match self {
            ParseFailure::Syntax { position, expected } => Some(position),
            ParseFailure::NumericOverflow { position } => Some(position),
            ParseFailure::Internal { fault } => None,
        }
    }

    /// The wording of a failure, without its place.
    pub open spec fn wording(self) -> Seq<char> {
        match self {
            ParseFailure::Syntax { position, expected } => "syntax error: expected "@
                + expected.wording(),
            ParseFailure::NumericOverflow { position } => "numeric overflow: the literal does not fit in 32 bits"@,
            ParseFailure::Internal { fault } => "internal fault: "@ + fault.wording(),
        }
    }

    /// The byte offset in the line to which the failure points, if it
    /// points to one.
    pub fn position(&self) -> (r: Option<usize>)
        ensures
            r == self.place(),
    {
        match self {
            ParseFailure::Syntax { position, expected } => Some(*position),
            ParseFailure::NumericOverflow { position } => Some(*position),
            ParseFailure::Internal { fault } => None,
        }
    }

    /// Whether the line itself is at fault, so that the next line can be
    /// parsed as if nothing had happened.  An internal fault is a defect of
    /// the grammar or of whoever built the syntax nodes.
    pub fn is_recoverable(&self) -> (r: bool)
        ensures
            r == !(*self is Internal),
    {
        match self {
            ParseFailure::Internal { fault } => false,
            _ => true,
        }
    }

    /// The failure in words: its kind and what was expected.
    pub fn description(&self) -> (text: String)
        ensures
            text@ == self.wording(),
    {
        match self {
            ParseFailure::Syntax { position, expected } => {
                let mut text = String::from_str("syntax error: expected ");
                text.append(expected.description());
                text
            },
            ParseFailure::NumericOverflow { position } => String::from_str(
                "numeric overflow: the literal does not fit in 32 bits",
            ),
            ParseFailure::Internal { fault } => {
                let mut text = String::from_str("internal fault: ");
                text.append(fault.description());
                text
            },
        }
    }
}

} // verus!
