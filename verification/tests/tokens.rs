use calculator::{tokenize, Expected, Fault, ParseFailure, Token, TokenKind};

fn token(kind: TokenKind, start: usize, end: usize) -> Token {
    Token { kind, start, end }
}

#[test]
fn empty_line_has_only_the_end_token() {
    assert_eq!(tokenize(b""), vec![token(TokenKind::End, 0, 0)]);
    assert_eq!(tokenize(b" \t "), vec![token(TokenKind::End, 3, 3)]);
}

#[test]
fn digits_run_as_long_as_they_can() {
    assert_eq!(
        tokenize(b"123 45"),
        vec![
            token(TokenKind::Integer, 0, 3),
            token(TokenKind::Integer, 4, 6),
            token(TokenKind::End, 6, 6),
        ]
    );
}

#[test]
fn every_symbol_is_a_token() {
    assert_eq!(
        tokenize(b"+-*/%()"),
        vec![
            token(TokenKind::Plus, 0, 1),
            token(TokenKind::Minus, 1, 2),
            token(TokenKind::Star, 2, 3),
            token(TokenKind::Slash, 3, 4),
            token(TokenKind::Percent, 4, 5),
            token(TokenKind::LeftParen, 5, 6),
            token(TokenKind::RightParen, 6, 7),
            token(TokenKind::End, 7, 7),
        ]
    );
}

#[test]
fn other_bytes_are_unknown_tokens() {
    assert_eq!(
        tokenize(b"1a\n"),
        vec![
            token(TokenKind::Integer, 0, 1),
            token(TokenKind::Unknown, 1, 2),
            token(TokenKind::Unknown, 2, 3),
            token(TokenKind::End, 3, 3),
        ]
    );
}

#[test]
fn minus_is_never_part_of_a_number() {
    assert_eq!(
        tokenize(b"-7"),
        vec![
            token(TokenKind::Minus, 0, 1),
            token(TokenKind::Integer, 1, 2),
            token(TokenKind::End, 2, 2),
        ]
    );
}

#[test]
fn expected_sets() {
    let operators = [
        TokenKind::Plus,
        TokenKind::Minus,
        TokenKind::Star,
        TokenKind::Slash,
        TokenKind::Percent,
    ];
    for kind in operators {
        assert!(Expected::OperatorOrEnd.accepts(kind));
        assert!(Expected::OperatorOrClose.accepts(kind));
    }
    assert!(Expected::Operand.accepts(TokenKind::Integer));
    assert!(Expected::Operand.accepts(TokenKind::Minus));
    assert!(Expected::Operand.accepts(TokenKind::LeftParen));
    assert!(!Expected::Operand.accepts(TokenKind::Plus));
    assert!(!Expected::Operand.accepts(TokenKind::RightParen));
    assert!(!Expected::Operand.accepts(TokenKind::End));
    assert!(!Expected::Operand.accepts(TokenKind::Unknown));
    assert!(Expected::OperatorOrEnd.accepts(TokenKind::End));
    assert!(!Expected::OperatorOrEnd.accepts(TokenKind::RightParen));
    assert!(!Expected::OperatorOrEnd.accepts(TokenKind::Integer));
    assert!(Expected::OperatorOrClose.accepts(TokenKind::RightParen));
    assert!(!Expected::OperatorOrClose.accepts(TokenKind::End));
    assert!(!Expected::OperatorOrClose.accepts(TokenKind::LeftParen));
}

#[test]
fn failures_say_where_and_what() {
    let syntax = ParseFailure::Syntax { position: 3, expected: Expected::Operand };
    assert_eq!(syntax.position(), Some(3));
    assert_eq!(syntax.description(), "syntax error: expected an integer, '-' or '('");
    assert!(syntax.is_recoverable());

    let end = ParseFailure::Syntax { position: 5, expected: Expected::OperatorOrEnd };
    assert_eq!(
        end.description(),
        "syntax error: expected an operator or the end of the line"
    );
    let close = ParseFailure::Syntax { position: 5, expected: Expected::OperatorOrClose };
    assert_eq!(close.description(), "syntax error: expected an operator or ')'");

    let overflow = ParseFailure::NumericOverflow { position: 8 };
    assert_eq!(overflow.position(), Some(8));
    assert_eq!(
        overflow.description(),
        "numeric overflow: the literal does not fit in 32 bits"
    );
    assert!(overflow.is_recoverable());

    let fault = ParseFailure::Internal { fault: Fault::ExpectedOperator };
    assert_eq!(fault.position(), None);
    assert_eq!(
        fault.description(),
        "internal fault: an operator is missing in the syntax nodes"
    );
    assert!(!fault.is_recoverable());
    assert_eq!(
        Fault::ExpectedAtom.description(),
        "an operand is missing in the syntax nodes"
    );
    assert_eq!(
        Fault::MalformedLiteral.description(),
        "a literal in the syntax nodes is not a number"
    );
}
