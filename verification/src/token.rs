//! The tokenizer: from the bytes of a line to its tokens.

use vstd::prelude::*;
use crate::literal::{all_digits, is_digit, DIGIT_NINE, DIGIT_ZERO, MINUS_SIGN};

verus! {

/// The kinds of token.
#[derive(Debug, Clone, Copy, PartialEq, Eq, Structural)]
pub enum TokenKind {
    /// A run of decimal digits.
    Integer,
    /// `+`
    Plus,
    /// `-`, which negates an operand or subtracts, depending on its place.
    Minus,
    /// `*`
    Star,
    /// `/`
    Slash,
    /// `%`
    Percent,
    /// `(`
    LeftParen,
    /// `)`
    RightParen,
    /// The end of the line.
    End,
    /// A byte that starts no token.
    Unknown,
}

/// A token: its kind and the bytes `start..end` of the line that spell it.
#[derive(Debug, Clone, Copy, PartialEq, Eq, Structural)]
pub struct Token {
    pub kind: TokenKind,
    pub start: usize,
    pub end: usize,
}

/// The space character.
pub const SPACE: u8 = 0x20;

/// The horizontal tab.
pub const TAB: u8 = 0x09;

/// Whether a byte is white space: a space or a horizontal tab.  White space
/// separates tokens and is otherwise ignored.
pub open spec fn is_space(b: u8) -> bool {
    b == SPACE || b == TAB
}

/// The kind of the token that a byte other than a digit or white space
/// spells.
pub open spec fn symbol_kind(b: u8) -> TokenKind {
    if b == 0x2b {
        TokenKind::Plus
    } else if b == MINUS_SIGN {
        TokenKind::Minus
    } else if b == 0x2a {
        TokenKind::Star
    } else if b == 0x2f {
        TokenKind::Slash
    } else if b == 0x25 {
        TokenKind::Percent
    } else if b == 0x28 {
        TokenKind::LeftParen
    } else if b == 0x29 {
        TokenKind::RightParen
    } else {
        TokenKind::Unknown
    }
}

/// The end of the run of digits that holds position `i`: the first position
/// from `i` on that holds no digit.
pub open spec fn digits_end(line: Seq<u8>, i: int) -> int
    decreases line.len() - i,
{
    if 0 <= i < line.len() && is_digit(line[i]) {
        digits_end(line, i + 1)
    } else {
        i
    }
}

/// A run of digits ends inside the line.
pub proof fn lemma_digits_end_range(line: Seq<u8>, i: int)
    requires
        0 <= i <= line.len(),
    ensures
        i <= digits_end(line, i) <= line.len(),
        forall|k: int| i <= k < digits_end(line, i) ==> is_digit(#[trigger] line[k]),
        digits_end(line, i) < line.len() ==> !is_digit(line[digits_end(line, i)]),
    decreases line.len() - i,
{
    if i < line.len() && is_digit(line[i]) {
        lemma_digits_end_range(line, i + 1);
    }
}

/// The tokens of a line from byte `i` on.  A run of digits is one token, as
/// long as it can be; every other byte that is not white space is a token
/// of its own; the end of the line is the last token.
pub open spec fn lex_from(line: Seq<u8>, i: int) -> Seq<Token>
    decreases line.len() - i,
{
    if i < 0 || i >= line.len() {
        seq![Token { kind: TokenKind::End, start: line.len() as usize, end: line.len() as usize }]
    } else if is_space(line[i]) {
        lex_from(line, i + 1)
    } else if is_digit(line[i]) {
        let j = digits_end(line, i + 1);
        proof {
            lemma_digits_end_range(line, i + 1);
        }
        seq![Token { kind: TokenKind::Integer, start: i as usize, end: j as usize }] + lex_from(
            line,
            j,
        )
    } else {
        seq![Token { kind: symbol_kind(line[i]), start: i as usize, end: (i + 1) as usize }]
            + lex_from(line, i + 1)
    }
}

/// The tokens of a line.
pub open spec fn lex(line: Seq<u8>) -> Seq<Token> {
    lex_from(line, 0)
}

/// Whether the spans of all tokens lie inside a line of `len` bytes.
pub open spec fn spans_within(tokens: Seq<Token>, len: nat) -> bool {
    forall|k: int| 0 <= k < tokens.len() ==> (#[trigger] tokens[k]).start <= tokens[k].end <= len
}

/// Every token of a line spans bytes of that line.
pub proof fn lemma_lex_spans(line: Seq<u8>, i: int)
    requires
        0 <= i <= line.len() <= usize::MAX,
    ensures
        spans_within(lex_from(line, i), line.len()),
    decreases line.len() - i,
{
    if i < line.len() {
        if is_space(line[i]) {
            lemma_lex_spans(line, i + 1);
        } else if is_digit(line[i]) {
            let j = digits_end(line, i + 1);
            lemma_digits_end_range(line, i + 1);
            lemma_lex_spans(line, j);
        } else {
            lemma_lex_spans(line, i + 1);
        }
    }
}

/// A token together with the text that spells it.
pub struct Lexeme {
    pub kind: TokenKind,
    pub offset: usize,
    pub text: Seq<u8>,
}

/// A token of a line with its text.
pub open spec fn lexeme_of(token: Token, line: Seq<u8>) -> Lexeme {
    Lexeme {
        kind: token.kind,
        offset: token.start,
        text: line.subrange(token.start as int, token.end as int),
    }
}

/// The tokens of a line, each with its text.
pub open spec fn lexemes(tokens: Seq<Token>, line: Seq<u8>) -> Seq<Lexeme> {
    Seq::new(tokens.len(), |k: int| lexeme_of(tokens[k], line))
}

/// What a line spells: its tokens in order, each with its offset and text.
pub open spec fn words(line: Seq<u8>) -> Seq<Lexeme> {
    lexemes(lex(line), line)
}

/// Whether the text of every integer token is one or more digits.
pub open spec fn digit_words(ws: Seq<Lexeme>) -> bool {
    forall|k: int|
        0 <= k < ws.len() && (#[trigger] ws[k]).kind == TokenKind::Integer ==> ws[k].text.len() > 0
            && all_digits(ws[k].text)
}

/// Whether every integer token spans one or more digits of the line.
pub open spec fn integer_spans(tokens: Seq<Token>, line: Seq<u8>) -> bool {
    forall|k: int|
        0 <= k < tokens.len() && (#[trigger] tokens[k]).kind == TokenKind::Integer ==> {
            &&& tokens[k].start < tokens[k].end <= line.len()
            &&& all_digits(line.subrange(tokens[k].start as int, tokens[k].end as int))
        }
}

proof fn lemma_lex_integers(line: Seq<u8>, i: int)
    requires
        0 <= i <= line.len() <= usize::MAX,
    ensures
        integer_spans(lex_from(line, i), line),
    decreases line.len() - i,
{
    if i < line.len() {
        if is_space(line[i]) {
            lemma_lex_integers(line, i + 1);
        } else if is_digit(line[i]) {
            let j = digits_end(line, i + 1);
            lemma_digits_end_range(line, i + 1);
            lemma_lex_integers(line, j);
            let first = Token { kind: TokenKind::Integer, start: i as usize, end: j as usize };
            let rest = lex_from(line, j);
            let all = seq![first] + rest;
            assert(all_digits(line.subrange(i, j)));
            assert forall|k: int|
                0 <= k < all.len() && (#[trigger] all[k]).kind == TokenKind::Integer implies {
                &&& all[k].start < all[k].end <= line.len()
                &&& all_digits(line.subrange(all[k].start as int, all[k].end as int))
            } by {
                if k > 0 {
                    assert(all[k] == rest[k - 1]);
                }
            }
        } else {
            lemma_lex_integers(line, i + 1);
            let first = Token {
                kind: symbol_kind(line[i]),
                start: i as usize,
                end: (i + 1) as usize,
            };
            let rest = lex_from(line, i + 1);
            let all = seq![first] + rest;
            assert forall|k: int|
                0 <= k < all.len() && (#[trigger] all[k]).kind == TokenKind::Integer implies {
                &&& all[k].start < all[k].end <= line.len()
                &&& all_digits(line.subrange(all[k].start as int, all[k].end as int))
            } by {
                if k > 0 {
                    assert(all[k] == rest[k - 1]);
                }
            }
        }
    }
}

/// The integer tokens of a line are runs of one or more digits.
pub proof fn lemma_words_digits(line: Seq<u8>)
    requires
        line.len() <= usize::MAX,
    ensures
        digit_words(words(line)),
{
    lemma_lex_integers(line, 0);
}

/// Whether the end of the line is the last token and no other.
pub open spec fn ends_once(tokens: Seq<Token>) -> bool {
    &&& tokens.len() > 0
    &&& forall|k: int|
        0 <= k < tokens.len() ==> ((#[trigger] tokens[k]).kind == TokenKind::End <==> k
            == tokens.len() - 1)
}

/// The tokens of a line end with the end of the line, which stands nowhere
/// else among them.
pub proof fn lemma_lex_ends_once(line: Seq<u8>, i: int)
    requires
        0 <= i <= line.len(),
    ensures
        ends_once(lex_from(line, i)),
    decreases line.len() - i,
{
    if i < line.len() {
        if is_space(line[i]) {
            lemma_lex_ends_once(line, i + 1);
        } else if is_digit(line[i]) {
            let j = digits_end(line, i + 1);
            lemma_digits_end_range(line, i + 1);
            lemma_lex_ends_once(line, j);
            let rest = lex_from(line, j);
            let all = lex_from(line, i);
            assert forall|k: int| 0 <= k < all.len() implies ((#[trigger] all[k]).kind
                == TokenKind::End <==> k == all.len() - 1) by {
                if k > 0 {
                    assert(all[k] == rest[k - 1]);
                }
            }
        } else {
            lemma_lex_ends_once(line, i + 1);
            let rest = lex_from(line, i + 1);
            let all = lex_from(line, i);
            assert forall|k: int| 0 <= k < all.len() implies ((#[trigger] all[k]).kind
                == TokenKind::End <==> k == all.len() - 1) by {
                if k > 0 {
                    assert(all[k] == rest[k - 1]);
                }
            }
        }
    }
}

/// Whether a byte is a decimal digit.
pub fn is_digit_byte(b: u8) -> (r: bool)
    ensures
        r == is_digit(b),
{
    DIGIT_ZERO <= b && b <= DIGIT_NINE
}

/// The kind of the token that a byte other than a digit or white space
/// spells.
pub fn kind_of_symbol(b: u8) -> (kind: TokenKind)
    ensures
        kind == symbol_kind(b),
{
    if b == 0x2b {
        TokenKind::Plus
    } else if b == MINUS_SIGN {
        TokenKind::Minus
    } else if b == 0x2a {
        TokenKind::Star
    } else if b == 0x2f {
        TokenKind::Slash
    } else if b == 0x25 {
        TokenKind::Percent
    } else if b == 0x28 {
        TokenKind::LeftParen
    } else if b == 0x29 {
        TokenKind::RightParen
    } else {
        TokenKind::Unknown
    }
}

/// Splits a line into its tokens.  The result always ends with the token
/// for the end of the line.
pub fn tokenize(line: &[u8]) -> (tokens: Vec<Token>)
    ensures
        tokens@ == lex(line@),
        spans_within(tokens@, line@.len()),
{
    let n = line.len();
    let mut tokens: Vec<Token> = Vec::new();
    let mut i: usize = 0;
    while i < n
        invariant
            n == line@.len(),
            i <= n,
            tokens@ + lex_from(line@, i as int) == lex(line@),
        decreases n - i,
    {
        let b = line[i];
        if b == SPACE || b == TAB {
            i += 1;
        } else if is_digit_byte(b) {
            let start = i;
            i += 1;
            while i < n && is_digit_byte(line[i])
                invariant
                    n == line@.len(),
                    start < i <= n,
                    digits_end(line@, i as int) == digits_end(line@, start + 1),
                decreases n - i,
            {
                i += 1;
            }
            proof {
                let token = Token { kind: TokenKind::Integer, start, end: i };
                assert(tokens@.push(token) + lex_from(line@, i as int) =~= tokens@ + (seq![token]
                    + lex_from(line@, i as int)));
            }
            tokens.push(Token { kind: TokenKind::Integer, start, end: i });
        } else {
            let kind = kind_of_symbol(b);
            proof {
                let token = Token { kind, start: i, end: (i + 1) as usize };
                assert(tokens@.push(token) + lex_from(line@, i + 1) =~= tokens@ + (seq![token]
                    + lex_from(line@, i + 1)));
            }
            tokens.push(Token { kind, start: i, end: i + 1 });
            i += 1;
        }
    }
    proof {
        let token = Token { kind: TokenKind::End, start: n, end: n };
        assert(tokens@.push(token) =~= tokens@ + lex_from(line@, n as int));
        lemma_lex_spans(line@, 0);
    }
    tokens.push(Token { kind: TokenKind::End, start: n, end: n });
    tokens
}

} // verus!
