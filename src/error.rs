use vstd::prelude::*;

use crate::tokenizer::Token;

verus! {

/// Why an evaluation stopped.  Every error aborts the whole evaluation: no
/// partial value is ever returned.
#[derive(Debug, Clone, Copy, PartialEq, Eq, Structural)]
pub enum EvalError {
    /// A run of letters that names none of `sqrt`, `abs`, `fac`.
    UnknownOperation,
    /// A character that starts no token.
    UnrecognizedCharacter(char),
    /// A run of digits and dots that is not an integer literal, or one that
    /// does not fit in an `i64`.
    InvalidNumber,
    /// A token that cannot start an operand.
    UnexpectedToken(Token),
    /// A parenthesised expression not followed by `)`.
    UnclosedParenthesis(Token),
    /// A function name not followed by `(`.
    MissingOpenParenthesis(Token),
    /// The right operand of `/` or `%` is zero.
    DivisionByZero,
    /// A result, intermediate or final, does not fit in an `i64`.
    Overflow,
    /// The exponent of `^` is negative.
    NegativeExponent,
    /// The operand of `sqrt` is negative.
    NegativeSquareRoot,
}

} // verus!
