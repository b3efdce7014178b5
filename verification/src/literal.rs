//! Integer literals: from decimal text to an `i32`.

use vstd::prelude::*;
use crate::failure::{Fault, ParseFailure};

verus! {

/// The byte `-`.
pub const MINUS_SIGN: u8 = 0x2d;

/// The byte `0`.
pub const DIGIT_ZERO: u8 = 0x30;

/// The byte `9`.
pub const DIGIT_NINE: u8 = 0x39;

/// Whether a byte is an ASCII decimal digit.
pub open spec fn is_digit(b: u8) -> bool {
    DIGIT_ZERO <= b <= DIGIT_NINE
}

/// Whether every byte of a text is a decimal digit.
pub open spec fn all_digits(s: Seq<u8>) -> bool {
    forall|i: int| 0 <= i < s.len() ==> is_digit(#[trigger] s[i])
}

/// The number that a run of decimal digits denotes, most significant digit
/// first.  The empty run denotes zero.
pub open spec fn decimal_value(digits: Seq<u8>) -> nat
    decreases digits.len(),
{
    if digits.len() == 0 {
        0
    } else {
        (10 * decimal_value(digits.drop_last()) + (digits.last() - DIGIT_ZERO)) as nat
    }
}

/// Whether a text starts with a minus sign.
pub open spec fn is_negative(text: Seq<u8>) -> bool {
    text.len() > 0 && text[0] == MINUS_SIGN
}

/// The digits of a literal: the text without its minus sign, if it has one.
pub open spec fn literal_digits(text: Seq<u8>) -> Seq<u8> {
    if is_negative(text) {
        text.skip(1)
    } else {
        text
    }
}

/// Whether a text is an integer literal: an optional minus sign followed by
/// one or more decimal digits.
pub open spec fn is_literal(text: Seq<u8>) -> bool {
    literal_digits(text).len() > 0 && all_digits(literal_digits(text))
}

/// The integer that a literal denotes.
pub open spec fn literal_value(text: Seq<u8>) -> int {
    if is_negative(text) {
        -(decimal_value(literal_digits(text)) as int)
    } else {
        decimal_value(literal_digits(text)) as int
    }
}

/// Whether an integer is the value of some `i32`.
pub open spec fn fits_i32(v: int) -> bool {
    i32::MIN <= v <= i32::MAX
}

/// What reading a literal at byte offset `position` of a line gives: its
/// value, a numeric overflow when the value is not an `i32`, or a fault when
/// the text is no literal at all.
pub open spec fn literal_result(text: Seq<u8>, position: usize) -> Result<i32, ParseFailure> {
    if !is_literal(text) {
        Err(ParseFailure::Internal { fault: Fault::MalformedLiteral })
    } else if !fits_i32(literal_value(text)) {
        Err(ParseFailure::NumericOverflow { position })
    } else {
        Ok(literal_value(text) as i32)
    }
}

/// Appending a digit multiplies the value by ten and adds the digit.
pub proof fn lemma_decimal_value_push(digits: Seq<u8>, d: u8)
    requires
        is_digit(d),
    ensures
        decimal_value(digits.push(d)) == 10 * decimal_value(digits) + (d - DIGIT_ZERO),
{
    assert(digits.push(d).drop_last() =~= digits);
}

/// Reads an integer literal.  `position` is only carried into the failure.
pub fn parse_literal(text: &[u8], position: usize) -> (r: Result<i32, ParseFailure>)
    ensures
        r == literal_result(text@, position),
{
    let n = text.len();
    let negative = n > 0 && text[0] == MINUS_SIGN;
    let first: usize = if negative { 1 } else { 0 };
    if first >= n {
        assert(literal_digits(text@).len() == 0);
        return Err(ParseFailure::Internal { fault: Fault::MalformedLiteral });
    }
    // The value read so far, as long as it is at most 2^31.
    let mut acc: u64 = 0;
    let mut too_large = false;
    let mut i: usize = first;
    assert(text@.subrange(first as int, first as int) =~= Seq::<u8>::empty());
    while i < n
        invariant
            n == text@.len(),
            first <= i <= n,
            first == (if is_negative(text@) { 1int } else { 0int }),
            all_digits(text@.subrange(first as int, i as int)),
            !too_large ==> acc == decimal_value(text@.subrange(first as int, i as int)),
            !too_large ==> acc <= 0x8000_0000,
            too_large ==> decimal_value(text@.subrange(first as int, i as int)) > 0x8000_0000,
        decreases n - i,
    {
        let b = text[i];
        if b < DIGIT_ZERO || b > DIGIT_NINE {
            proof {
                let digits = literal_digits(text@);
                assert(digits[i - first] == b);
                assert(!is_digit(digits[i - first]));
            }
            return Err(ParseFailure::Internal { fault: Fault::MalformedLiteral });
        }
        proof {
            let before = text@.subrange(first as int, i as int);
            assert(text@.subrange(first as int, i + 1) =~= before.push(b));
            lemma_decimal_value_push(before, b);
        }
        if !too_large {
            acc = acc * 10 + (b - DIGIT_ZERO) as u64;
            if acc > 0x8000_0000 {
                too_large = true;
            }
        }
        i += 1;
    }
    proof {
        assert(text@.subrange(first as int, n as int) =~= literal_digits(text@));
    }
    if negative {
        if too_large {
            Err(ParseFailure::NumericOverflow { position })
        } else {
            let wide: i64 = -(acc as i64);
            Ok(wide as i32)
        }
    } else {
        if too_large || acc > 0x7fff_ffff {
            Err(ParseFailure::NumericOverflow { position })
        } else {
            Ok(acc as i32)
        }
    }
}

} // verus!
