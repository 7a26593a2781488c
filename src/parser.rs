use vstd::prelude::*;

use crate::arith::{
    abs_value, absolute, add_values, difference, div_values, division, fac, fac_value,
    modulo, mul_values, negate_value, negation, pow_value, power, product, rem_values,
    sqrt_value, square_root, sub_values, sum, value_of,
};
use crate::error::EvalError;
use crate::tokenizer::Token;

verus! {

/// A value and the index of the first token after the text that gave it, or
/// the error that stopped the parse.
pub type Parsed = Result<(int, int), EvalError>;

/// The token at index `p`, or `Eof` past the end.
pub open spec fn peek_at(ts: Seq<Token>, p: int) -> Token {
    if 0 <= p < ts.len() {
        ts[p]
    } else {
        Token::Eof
    }
}

/// `r` paired with the position `q`.
pub open spec fn at(r: Result<int, EvalError>, q: int) -> Parsed {
    match r {
        Ok(v) => Ok((v, q)),
        Err(e) => Err(e),
    }
}

// Every successful parse consumes at least one token; the guards `p < q <= len`
// below restate that fact so that the recursion is visibly well founded.

/// `expr := modulo (("+" | "-") modulo)*`, from index `p`.
pub open spec fn spec_expr(ts: Seq<Token>, p: int) -> Parsed
    decreases ts.len() - p, 5int,
{
    match spec_modulo(ts, p) {
        Ok((v, q)) => if p < q <= ts.len() {
            spec_expr_rest(ts, q, v)
        } else {
            Err(EvalError::UnexpectedToken(Token::Eof))
        },
        Err(e) => Err(e),
    }
}

/// The `(("+" | "-") modulo)*` part of `expr`, with `acc` the value so far.
pub open spec fn spec_expr_rest(ts: Seq<Token>, q: int, acc: int) -> Parsed
    decreases ts.len() - q, 0int,
{
    let t = peek_at(ts, q);
    if t == Token::Plus || t == Token::Minus {
        match spec_modulo(ts, q + 1) {
            Ok((w, r)) => {
                let v = if t == Token::Plus {
                    sum(acc, w)
                } else {
                    difference(acc, w)
                };
                match v {
                    Ok(v) => if q < r <= ts.len() {
                        spec_expr_rest(ts, r, v)
                    } else {
                        Err(EvalError::UnexpectedToken(Token::Eof))
                    },
                    Err(e) => Err(e),
                }
            },
            Err(e) => Err(e),
        }
    } else {
        Ok((acc, q))
    }
}

/// `modulo := term ("%" term)*`, from index `p`.
pub open spec fn spec_modulo(ts: Seq<Token>, p: int) -> Parsed
    decreases ts.len() - p, 4int,
{
    match spec_term(ts, p) {
        Ok((v, q)) => if p < q <= ts.len() {
            spec_modulo_rest(ts, q, v)
        } else {
            Err(EvalError::UnexpectedToken(Token::Eof))
        },
        Err(e) => Err(e),
    }
}

pub open spec fn spec_modulo_rest(ts: Seq<Token>, q: int, acc: int) -> Parsed
    decreases ts.len() - q, 0int,
{
    if peek_at(ts, q) == Token::Mod {
        match spec_term(ts, q + 1) {
            Ok((w, r)) => match modulo(acc, w) {
                Ok(v) => if q < r <= ts.len() {
                    spec_modulo_rest(ts, r, v)
                } else {
                    Err(EvalError::UnexpectedToken(Token::Eof))
                },
                Err(e) => Err(e),
            },
            Err(e) => Err(e),
        }
    } else {
        Ok((acc, q))
    }
}

/// `term := power (("*" | "/") power)*`, from index `p`.
pub open spec fn spec_term(ts: Seq<Token>, p: int) -> Parsed
    decreases ts.len() - p, 3int,
{
    match spec_power(ts, p) {
        Ok((v, q)) => if p < q <= ts.len() {
            spec_term_rest(ts, q, v)
        } else {
            Err(EvalError::UnexpectedToken(Token::Eof))
        },
        Err(e) => Err(e),
    }
}

pub open spec fn spec_term_rest(ts: Seq<Token>, q: int, acc: int) -> Parsed
    decreases ts.len() - q, 0int,
{
    let t = peek_at(ts, q);
    if t == Token::Mul || t == Token::Div {
        match spec_power(ts, q + 1) {
            Ok((w, r)) => {
                let v = if t == Token::Mul {
                    product(acc, w)
                } else {
                    division(acc, w)
                };
                match v {
                    Ok(v) => if q < r <= ts.len() {
                        spec_term_rest(ts, r, v)
                    } else {
                        Err(EvalError::UnexpectedToken(Token::Eof))
                    },
                    Err(e) => Err(e),
                }
            },
            Err(e) => Err(e),
        }
    } else {
        Ok((acc, q))
    }
}

/// `power := factor ("^" factor)*`, from index `p`: left-associative.
pub open spec fn spec_power(ts: Seq<Token>, p: int) -> Parsed
    decreases ts.len() - p, 2int,
{
    match spec_factor(ts, p) {
        Ok((v, q)) => if p < q <= ts.len() {
            spec_power_rest(ts, q, v)
        } else {
            Err(EvalError::UnexpectedToken(Token::Eof))
        },
        Err(e) => Err(e),
    }
}

pub open spec fn spec_power_rest(ts: Seq<Token>, q: int, acc: int) -> Parsed
    decreases ts.len() - q, 0int,
{
    if peek_at(ts, q) == Token::Pow {
        match spec_factor(ts, q + 1) {
            Ok((w, r)) => match power(acc, w) {
                Ok(v) => if q < r <= ts.len() {
                    spec_power_rest(ts, r, v)
                } else {
                    Err(EvalError::UnexpectedToken(Token::Eof))
                },
                Err(e) => Err(e),
            },
            Err(e) => Err(e),
        }
    } else {
        Ok((acc, q))
    }
}

/// What a function token does to its operand.
pub open spec fn apply_function(f: Token, v: int) -> Result<int, EvalError> {
    if f == Token::Sqrt {
        square_root(v)
    } else if f == Token::Abs {
        absolute(v)
    } else {
        fac(v)
    }
}

/// `factor := NUMBER | "-" factor | "(" expr ")" | ("sqrt" | "abs" | "fac") factor`,
/// where a function name must be followed by `(`.
pub open spec fn spec_factor(ts: Seq<Token>, p: int) -> Parsed
    decreases ts.len() - p, 1int,
{
    let t = peek_at(ts, p);
    match t {
        Token::Num(n) => Ok((n as int, p + 1)),
        Token::Minus => match spec_factor(ts, p + 1) {
            Ok((v, q)) => at(negation(v), q),
            Err(e) => Err(e),
        },
        Token::LParen => match spec_expr(ts, p + 1) {
            Ok((v, q)) => if peek_at(ts, q) == Token::RParen {
                Ok((v, q + 1))
            } else {
                Err(EvalError::UnclosedParenthesis(peek_at(ts, q)))
            },
            Err(e) => Err(e),
        },
        Token::Sqrt | Token::Abs | Token::Fac => if peek_at(ts, p + 1) != Token::LParen {
            Err(EvalError::MissingOpenParenthesis(peek_at(ts, p + 1)))
        } else {
            match spec_factor(ts, p + 1) {
                Ok((v, q)) => at(apply_function(t, v), q),
                Err(e) => Err(e),
            }
        },
        _ => Err(EvalError::UnexpectedToken(t)),
    }
}

/// A token sequence and a cursor into it, owned by one evaluation.
pub struct Tokens {
    tokens: Vec<Token>,
    current_token: usize,
}

impl Tokens {
    /// The token sequence.
    pub closed spec fn toks(&self) -> Seq<Token> {
        self.tokens@
    }

    /// The index of the next token to read.
    pub closed spec fn pos(&self) -> int {
        self.current_token as int
    }

    /// The cursor stands within the sequence or just past it.
    pub closed spec fn wf(&self) -> bool {
        self.current_token <= self.tokens.len()
    }

    /// A cursor at the first of `data`.
    pub fn new(data: Vec<Token>) -> (r: Tokens)
        ensures
            r.wf(),
            r.toks() == data@,
            r.pos() == 0,
    {
        Tokens { tokens: data, current_token: 0 }
    }

    /// Moves past the current token.
    pub fn eat(&mut self)
        requires
            old(self).wf(),
            old(self).pos() < old(self).toks().len(),
        ensures
            final(self).wf(),
            final(self).toks() == old(self).toks(),
            final(self).pos() == old(self).pos() + 1,
    {
        self.current_token += 1;
    }

    /// The current token, or `Eof` past the end.
    pub fn peek(&self) -> (r: Token)
        requires
            self.wf(),
        ensures
            r == peek_at(self.toks(), self.pos()),
    {
        if self.current_token >= self.tokens.len() {
            Token::Eof
        } else {
            self.tokens[self.current_token]
        }
    }
}

/// The outcome of an executable parse step, in the terms of the spec functions.
pub open spec fn outcome(r: Result<i64, EvalError>, q: int) -> Parsed {
    match r {
        Ok(v) => Ok((v as int, q)),
        Err(e) => Err(e),
    }
}

fn expr(t: &mut Tokens) -> (r: Result<i64, EvalError>)
    requires
        old(t).wf(),
    ensures
        final(t).wf(),
        final(t).toks() == old(t).toks(),
        spec_expr(old(t).toks(), old(t).pos()) == outcome(r, final(t).pos()),
        r is Ok ==> old(t).pos() < final(t).pos(),
    decreases old(t).toks().len() - old(t).pos(), 5int,
{
    let ghost ts = t.toks();
    let ghost p = t.pos();
    let mut value = match modulo_level(t) {
        Ok(v) => v,
        Err(e) => return Err(e),
    };
    loop
        invariant
            t.wf(),
            t.toks() == ts,
            ts == old(t).toks(),
            p == old(t).pos(),
            p < t.pos(),
            spec_expr(ts, p) == spec_expr_rest(ts, t.pos(), value as int),
        decreases ts.len() - t.pos(),
    {
        let tok = t.peek();
        let plus = tok == Token::Plus;
        if !plus && tok != Token::Minus {
            return Ok(value);
        }
        t.eat();
        let w = match modulo_level(t) {
            Ok(w) => w,
            Err(e) => return Err(e),
        };
        let next = if plus {
            add_values(value, w)
        } else {
            sub_values(value, w)
        };
        match next {
            Ok(v) => {
                value = v;
            },
            Err(e) => return Err(e),
        }
    }
}

fn modulo_level(t: &mut Tokens) -> (r: Result<i64, EvalError>)
    requires
        old(t).wf(),
    ensures
        final(t).wf(),
        final(t).toks() == old(t).toks(),
        spec_modulo(old(t).toks(), old(t).pos()) == outcome(r, final(t).pos()),
        r is Ok ==> old(t).pos() < final(t).pos(),
    decreases old(t).toks().len() - old(t).pos(), 4int,
{
    let ghost ts = t.toks();
    let ghost p = t.pos();
    let mut value = match term(t) {
        Ok(v) => v,
        Err(e) => return Err(e),
    };
    loop
        invariant
            t.wf(),
            t.toks() == ts,
            ts == old(t).toks(),
            p == old(t).pos(),
            p < t.pos(),
            spec_modulo(ts, p) == spec_modulo_rest(ts, t.pos(), value as int),
        decreases ts.len() - t.pos(),
    {
        if t.peek() != Token::Mod {
            return Ok(value);
        }
        t.eat();
        let w = match term(t) {
            Ok(w) => w,
            Err(e) => return Err(e),
        };
        match rem_values(value, w) {
            Ok(v) => {
                value = v;
            },
            Err(e) => return Err(e),
        }
    }
}

fn term(t: &mut Tokens) -> (r: Result<i64, EvalError>)
    requires
        old(t).wf(),
    ensures
        final(t).wf(),
        final(t).toks() == old(t).toks(),
        spec_term(old(t).toks(), old(t).pos()) == outcome(r, final(t).pos()),
        r is Ok ==> old(t).pos() < final(t).pos(),
    decreases old(t).toks().len() - old(t).pos(), 3int,
{
    let ghost ts = t.toks();
    let ghost p = t.pos();
    let mut value = match power_level(t) {
        Ok(v) => v,
        Err(e) => return Err(e),
    };
    loop
        invariant
            t.wf(),
            t.toks() == ts,
            ts == old(t).toks(),
            p == old(t).pos(),
            p < t.pos(),
            spec_term(ts, p) == spec_term_rest(ts, t.pos(), value as int),
        decreases ts.len() - t.pos(),
    {
        let tok = t.peek();
        let mul = tok == Token::Mul;
        if !mul && tok != Token::Div {
            return Ok(value);
        }
        t.eat();
        let w = match power_level(t) {
            Ok(w) => w,
            Err(e) => return Err(e),
        };
        let next = if mul {
            mul_values(value, w)
        } else {
            div_values(value, w)
        };
        match next {
            Ok(v) => {
                value = v;
            },
            Err(e) => return Err(e),
        }
    }
}

fn power_level(t: &mut Tokens) -> (r: Result<i64, EvalError>)
    requires
        old(t).wf(),
    ensures
        final(t).wf(),
        final(t).toks() == old(t).toks(),
        spec_power(old(t).toks(), old(t).pos()) == outcome(r, final(t).pos()),
        r is Ok ==> old(t).pos() < final(t).pos(),
    decreases old(t).toks().len() - old(t).pos(), 2int,
{
    let ghost ts = t.toks();
    let ghost p = t.pos();
    let mut value = match factor(t) {
        Ok(v) => v,
        Err(e) => return Err(e),
    };
    loop
        invariant
            t.wf(),
            t.toks() == ts,
            ts == old(t).toks(),
            p == old(t).pos(),
            p < t.pos(),
            spec_power(ts, p) == spec_power_rest(ts, t.pos(), value as int),
        decreases ts.len() - t.pos(),
    {
        if t.peek() != Token::Pow {
            return Ok(value);
        }
        t.eat();
        let w = match factor(t) {
            Ok(w) => w,
            Err(e) => return Err(e),
        };
        match pow_value(value, w) {
            Ok(v) => {
                value = v;
            },
            Err(e) => return Err(e),
        }
    }
}

fn factor(t: &mut Tokens) -> (r: Result<i64, EvalError>)
    requires
        old(t).wf(),
    ensures
        final(t).wf(),
        final(t).toks() == old(t).toks(),
        spec_factor(old(t).toks(), old(t).pos()) == outcome(r, final(t).pos()),
        r is Ok ==> old(t).pos() < final(t).pos(),
    decreases old(t).toks().len() - old(t).pos(), 1int,
{
    let tok = t.peek();
    match tok {
        Token::Num(n) => {
            t.eat();
            Ok(n)
        },
        Token::Minus => {
            t.eat();
            match factor(t) {
                Ok(v) => negate_value(v),
                Err(e) => Err(e),
            }
        },
        Token::LParen => {
            t.eat();
            let v = match expr(t) {
                Ok(v) => v,
                Err(e) => return Err(e),
            };
            let close = t.peek();
            if close != Token::RParen {
                return Err(EvalError::UnclosedParenthesis(close));
            }
            t.eat();
            Ok(v)
        },
        Token::Sqrt | Token::Abs | Token::Fac => {
            t.eat();
            let open = t.peek();
            if open != Token::LParen {
                return Err(EvalError::MissingOpenParenthesis(open));
            }
            let v = match factor(t) {
                Ok(v) => v,
                Err(e) => return Err(e),
            };
            match tok {
                Token::Sqrt => sqrt_value(v),
                Token::Abs => abs_value(v),
                _ => fac_value(v),
            }
        },
        _ => Err(EvalError::UnexpectedToken(tok)),
    }
}

/// Parses and evaluates one expression from the first token on.  Tokens after
/// the expression are left unread.
pub fn parse(tokens: Vec<Token>) -> (r: Result<i64, EvalError>)
    ensures
        value_of(r) == crate::value_of_tokens(tokens@),
{
    let mut list = Tokens::new(tokens);
    expr(&mut list)
}

} // verus!
