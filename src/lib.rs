use vstd::prelude::*;

pub mod arith;
pub mod error;
pub mod grouping;
pub mod laws;
pub mod parser;
pub mod tokenizer;

pub use error::EvalError;
pub use parser::{parse, Tokens};
pub use tokenizer::{tokenize, Token};

use arith::value_of;
use parser::spec_expr;
use tokenizer::tokens_of;

verus! {

/// The value of the first expression in the token sequence `ts`.
pub open spec fn value_of_tokens(ts: Seq<Token>) -> Result<int, EvalError> {
    match spec_expr(ts, 0) {
        Ok((v, _)) => Ok(v),
        Err(e) => Err(e),
    }
}

/// The value of the expression written in `s`, in `i64` arithmetic.
pub open spec fn evaluation(s: Seq<char>) -> Result<int, EvalError> {
    match tokens_of(s) {
        Ok(ts) => value_of_tokens(ts),
        Err(e) => Err(e),
    }
}

/// Evaluates an integer expression over `+ - * / % ^`, unary `-`, parentheses
/// and the functions `sqrt`, `abs` and `fac`.
pub fn evaluate(expression: &str) -> (r: Result<i64, EvalError>)
    ensures
        value_of(r) == evaluation(expression@),
{
    match tokenize(expression) {
        Ok(tokens) => parse(tokens),
        Err(e) => Err(e),
    }
}

} // verus!
