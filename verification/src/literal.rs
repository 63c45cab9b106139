//! The literal resolver: turns the digit text captured by a number
//! token into an `i32`, or reports a `LiteralError` when the value is
//! too large for that type.

use vstd::prelude::*;

use crate::ast::ParseError;

verus! {

/// Whether `c` is an ASCII decimal digit.
pub open spec fn is_digit(c: char) -> bool {
    ('0' as u32) <= (c as u32) && (c as u32) <= ('9' as u32)
}

/// The numeric value of one digit character.
pub open spec fn digit_val(c: char) -> int {
    (c as u32) - ('0' as u32)
}

/// Whether every character of `s` is a digit.
pub open spec fn all_digits(s: Seq<char>) -> bool {
    forall|i: int| 0 <= i < s.len() ==> is_digit(#[trigger] s[i])
}

/// The value of a digit sequence read in base ten, most significant
/// digit first.
pub open spec fn digits_value(s: Seq<char>) -> int
    decreases s.len(),
{
    if s.len() == 0 {
        0
    } else {
        digits_value(s.drop_last()) * 10 + digit_val(s.last())
    }
}

/// A digit sequence's value is never negative.
pub proof fn lemma_digits_value_nonneg(s: Seq<char>)
    requires
        all_digits(s),
    ensures
        digits_value(s) >= 0,
    decreases s.len(),
{
    if s.len() > 0 {
        assert(all_digits(s.drop_last()));
        lemma_digits_value_nonneg(s.drop_last());
        assert(digits_value(s.drop_last()) * 10 >= 0) by (nonlinear_arith)
            requires
                digits_value(s.drop_last()) >= 0,
        ;
    }
}

/// Whether `e` is a `LiteralError` carrying exactly the text `t`.
pub open spec fn is_literal_error_for(e: ParseError, t: Seq<char>) -> bool {
    match e {
        ParseError::LiteralError { text, reason: _ } => text@ == t,
        _ => false,
    }
}

/// Tests one character for being a decimal digit.
pub fn digit_char(c: char) -> (b: bool)
    ensures
        b == is_digit(c),
{
    let u: u32 = c as u32;
    ('0' as u32) <= u && u <= ('9' as u32)
}

/// Resolves a captured number literal.  The front end guarantees the
/// text is a non-empty digit sequence; only the range check can fail
/// here, and it fails exactly when the value exceeds `i32::MAX`.
pub fn resolve_literal(text: &str) -> (r: Result<i32, ParseError>)
    requires
        text@.len() >= 1,
        all_digits(text@),
    ensures
        match r {
            Ok(v) => digits_value(text@) <= i32::MAX as int && v as int == digits_value(text@),
            Err(e) => digits_value(text@) > i32::MAX as int && is_literal_error_for(e, text@),
        },
{
    let n: usize = text.unicode_len();
    let mut i: usize = 0;
    let mut acc: u64 = 0;
    let mut over: bool = false;
    while i < n
        invariant
            n == text@.len(),
            i <= n,
            text@.len() >= 1,
            all_digits(text@),
            !over ==> acc as int == digits_value(text@.take(i as int)) && acc <= i32::MAX as u64,
            over ==> digits_value(text@.take(i as int)) > i32::MAX as int,
        decreases n - i,
    {
        let c = text.get_char(i);
        assert(is_digit(text@[i as int]));
        let d: u32 = (c as u32) - ('0' as u32);
        proof {
            assert(text@.take(i as int + 1).drop_last() =~= text@.take(i as int));
            assert(text@.take(i as int + 1).last() == text@[i as int]);
        }
        if over {
            proof {
                let prev = digits_value(text@.take(i as int));
                assert(prev * 10 >= prev) by (nonlinear_arith)
                    requires
                        prev > 0,
                ;
            }
        } else {
            let v2: u64 = acc * 10 + (d as u64);
            if v2 > i32::MAX as u64 {
                over = true;
            } else {
                acc = v2;
            }
        }
        i = i + 1;
    }
    proof {
        assert(text@.take(n as int) =~= text@);
    }
    if over {
        Err(ParseError::LiteralError {
            text: text.to_owned(),
            reason: "the value does not fit in a 32-bit signed integer".to_owned(),
        })
    } else {
        Ok(acc as i32)
    }
}

} // verus!
