use vstd::prelude::*;

use crate::arith::{difference, division, product, sum};
use crate::error::EvalError;
use crate::parser::{
    at, peek_at, spec_expr, spec_expr_rest, spec_factor, spec_modulo, spec_modulo_rest,
    spec_power, spec_power_rest, spec_term, spec_term_rest,
};
use crate::laws::{clean_boundary, join, lemma_lex_split};
use crate::tokenizer::{all_digits, decimal, digit_value, lex, number_run, prepend, Token};
use crate::{evaluation, value_of_tokens};

verus! {

/// A binary operator of conventional arithmetic.
pub enum Op {
    Add,
    Sub,
    Mul,
    Div,
}

/// An expression tree over integer literals and `+ - * /`.
pub enum Arith {
    Lit(i64),
    Bin(Op, Box<Arith>, Box<Arith>),
}

pub open spec fn additive(e: Arith) -> bool {
    match e {
        Arith::Bin(op, _, _) => op is Add || op is Sub,
        _ => false,
    }
}

pub open spec fn paren(ts: Seq<Token>) -> Seq<Token> {
    seq![Token::LParen] + ts + seq![Token::RParen]
}

/// `ts`, the tokens of `e`, in parentheses where `e` is a sum or difference.
pub open spec fn as_term(e: Arith, ts: Seq<Token>) -> Seq<Token> {
    if additive(e) {
        paren(ts)
    } else {
        ts
    }
}

/// `ts`, the tokens of `e`, in parentheses unless `e` is a literal.
pub open spec fn as_atom(e: Arith, ts: Seq<Token>) -> Seq<Token> {
    if e is Lit {
        ts
    } else {
        paren(ts)
    }
}

/// The tokens that write `e` with the usual precedence (`*` and `/` above
/// `+` and `-`, all left-associative) and only the parentheses it needs.
pub open spec fn arith_tokens(e: Arith) -> Seq<Token>
    decreases e,
{
    match e {
        Arith::Lit(n) => seq![Token::Num(n)],
        Arith::Bin(op, l, r) => match op {
            Op::Add => arith_tokens(*l) + seq![Token::Plus] + as_term(*r, arith_tokens(*r)),
            Op::Sub => arith_tokens(*l) + seq![Token::Minus] + as_term(*r, arith_tokens(*r)),
            Op::Mul => as_term(*l, arith_tokens(*l)) + seq![Token::Mul] + as_atom(
                *r,
                arith_tokens(*r),
            ),
            Op::Div => as_term(*l, arith_tokens(*l)) + seq![Token::Div] + as_atom(
                *r,
                arith_tokens(*r),
            ),
        },
    }
}

pub open spec fn apply_op(op: Op, x: int, y: int) -> Result<int, EvalError> {
    match op {
        Op::Add => sum(x, y),
        Op::Sub => difference(x, y),
        Op::Mul => product(x, y),
        Op::Div => division(x, y),
    }
}

} // verus!

verus! {

/// The value of `e` computed from the tree: left operand, then right operand,
/// then the operator, in `i64` arithmetic.
pub open spec fn tree_value(e: Arith) -> Result<int, EvalError>
    decreases e,
{
    match e {
        Arith::Lit(n) => Ok(n as int),
        Arith::Bin(op, l, r) => match tree_value(*l) {
            Ok(x) => match tree_value(*r) {
                Ok(y) => apply_op(op, x, y),
                Err(err) => Err(err),
            },
            Err(err) => Err(err),
        },
    }
}

spec fn expr_cont(v: Result<int, EvalError>, ts: Seq<Token>, q: int) -> Result<(int, int), EvalError> {
    match v {
        Ok(x) => spec_expr_rest(ts, q, x),
        Err(err) => Err(err),
    }
}

spec fn term_cont(v: Result<int, EvalError>, ts: Seq<Token>, q: int) -> Result<(int, int), EvalError> {
    match v {
        Ok(x) => spec_term_rest(ts, q, x),
        Err(err) => Err(err),
    }
}

/// `x` stands in `ts` from index `p` on.
spec fn stands_at(ts: Seq<Token>, p: int, x: Seq<Token>) -> bool {
    0 <= p && p + x.len() <= ts.len() && ts.subrange(p, p + x.len()) == x
}

proof fn lemma_stands_split(ts: Seq<Token>, p: int, a: Seq<Token>, b: Seq<Token>)
    requires
        stands_at(ts, p, a + b),
    ensures
        stands_at(ts, p, a),
        stands_at(ts, p + a.len(), b),
{
    assert(ts.subrange(p, p + a.len()) =~= (a + b).subrange(0, a.len() as int));
    assert((a + b).subrange(0, a.len() as int) =~= a);
    assert(ts.subrange(p + a.len(), p + a.len() + b.len()) =~= (a + b).subrange(
        a.len() as int,
        (a + b).len() as int,
    ));
    assert((a + b).subrange(a.len() as int, (a + b).len() as int) =~= b);
}

proof fn lemma_stands_token(ts: Seq<Token>, p: int, t: Token)
    requires
        stands_at(ts, p, seq![t]),
    ensures
        peek_at(ts, p) == t,
{
    assert(ts.subrange(p, p + 1)[0] == ts[p]);
}

spec fn atom_rank(e: Arith) -> int {
    if e is Lit {
        0
    } else if additive(e) {
        2
    } else {
        4
    }
}

spec fn term_rank(e: Arith) -> int {
    if additive(e) {
        3
    } else {
        1
    }
}

spec fn modulo_rank(e: Arith) -> int {
    if additive(e) {
        4
    } else {
        2
    }
}

spec fn expr_rank(e: Arith) -> int {
    if additive(e) {
        1
    } else {
        3
    }
}

spec fn continues_term(t: Token) -> bool {
    t == Token::Mod || t == Token::Mul || t == Token::Div || t == Token::Pow
}

proof fn lemma_atom(e: Arith, ts: Seq<Token>, p: int)
    requires
        stands_at(ts, p, as_atom(e, arith_tokens(e))),
    ensures
        spec_factor(ts, p) == at(tree_value(e), p + as_atom(e, arith_tokens(e)).len()),
    decreases e, atom_rank(e),
{
    let x = arith_tokens(e);
    if let Arith::Lit(n) = e {
        lemma_stands_token(ts, p, Token::Num(n));
    } else {
        lemma_stands_split(ts, p, seq![Token::LParen] + x, seq![Token::RParen]);
        lemma_stands_split(ts, p, seq![Token::LParen], x);
        lemma_stands_token(ts, p, Token::LParen);
        lemma_stands_token(ts, p + 1 + x.len(), Token::RParen);
        lemma_expr(e, ts, p + 1);
    }
}

proof fn lemma_term(e: Arith, ts: Seq<Token>, p: int)
    requires
        stands_at(ts, p, as_term(e, arith_tokens(e))),
        peek_at(ts, p + as_term(e, arith_tokens(e)).len()) != Token::Pow,
    ensures
        spec_term(ts, p) == term_cont(tree_value(e), ts, p + as_term(e, arith_tokens(e)).len()),
    decreases e, term_rank(e),
{
    let x = as_term(e, arith_tokens(e));
    let end = p + x.len();
    match e {
        Arith::Bin(op, l, r) => {
            if additive(e) {
                lemma_atom(e, ts, p);
            } else {
                let xl = as_term(*l, arith_tokens(*l));
                let xr = as_atom(*r, arith_tokens(*r));
                let t = if op is Mul {
                    Token::Mul
                } else {
                    Token::Div
                };
                assert(x == xl + seq![t] + xr);
                lemma_stands_split(ts, p, xl + seq![t], xr);
                lemma_stands_split(ts, p, xl, seq![t]);
                let q = p + xl.len();
                lemma_stands_token(ts, q, t);
                lemma_term(*l, ts, p);
                lemma_atom(*r, ts, q + 1);
                assert(spec_power(ts, q + 1) == at(tree_value(*r), end));
            }
        },
        Arith::Lit(_) => {
            lemma_atom(e, ts, p);
        },
    }
    if additive(e) || e is Lit {
        assert(spec_power(ts, p) == at(tree_value(e), end));
    }
}

proof fn lemma_modulo(e: Arith, ts: Seq<Token>, p: int)
    requires
        stands_at(ts, p, as_term(e, arith_tokens(e))),
        !continues_term(peek_at(ts, p + as_term(e, arith_tokens(e)).len())),
    ensures
        spec_modulo(ts, p) == at(tree_value(e), p + as_term(e, arith_tokens(e)).len()),
    decreases e, modulo_rank(e),
{
    lemma_term(e, ts, p);
}

proof fn lemma_expr(e: Arith, ts: Seq<Token>, p: int)
    requires
        stands_at(ts, p, arith_tokens(e)),
        !continues_term(peek_at(ts, p + arith_tokens(e).len())),
    ensures
        spec_expr(ts, p) == expr_cont(tree_value(e), ts, p + arith_tokens(e).len()),
    decreases e, expr_rank(e),
{
    let x = arith_tokens(e);
    let end = p + x.len();
    if additive(e) {
        if let Arith::Bin(op, l, r) = e {
            let xl = arith_tokens(*l);
            let xr = as_term(*r, arith_tokens(*r));
            let t = if op is Add {
                Token::Plus
            } else {
                Token::Minus
            };
            assert(x == xl + seq![t] + xr);
            lemma_stands_split(ts, p, xl + seq![t], xr);
            lemma_stands_split(ts, p, xl, seq![t]);
            let q = p + xl.len();
            lemma_stands_token(ts, q, t);
            lemma_expr(*l, ts, p);
            lemma_modulo(*r, ts, q + 1);
        }
    } else {
        lemma_modulo(e, ts, p);
    }
}

/// For every expression over `+ - * /` and parentheses, written with the usual
/// precedence and left associativity, the evaluator gives the value of its
/// tree: the conventional grouping.
pub proof fn lemma_conventional_grouping(e: Arith)
    ensures
        value_of_tokens(arith_tokens(e)) == tree_value(e),
{
    let ts = arith_tokens(e);
    assert(ts.subrange(0, ts.len() as int) =~= ts);
    lemma_expr(e, ts, 0);
}

} // verus!

verus! {

pub open spec fn digit_char(d: int) -> char {
    if d == 0 {
        '0'
    } else if d == 1 {
        '1'
    } else if d == 2 {
        '2'
    } else if d == 3 {
        '3'
    } else if d == 4 {
        '4'
    } else if d == 5 {
        '5'
    } else if d == 6 {
        '6'
    } else if d == 7 {
        '7'
    } else if d == 8 {
        '8'
    } else {
        '9'
    }
}

/// The decimal digits of `n`, without leading zeros.
pub open spec fn digits(n: nat) -> Seq<char>
    decreases n,
{
    if n < 10 {
        seq![digit_char(n as int)]
    } else {
        digits(n / 10).push(digit_char((n % 10) as int))
    }
}

/// The text of a token that an expression of `Arith` holds.
pub open spec fn token_text(t: Token) -> Seq<char> {
    match t {
        Token::Num(n) => digits(n as nat),
        Token::Plus => seq!['+'],
        Token::Minus => seq!['-'],
        Token::Mul => seq!['*'],
        Token::Div => seq!['/'],
        Token::LParen => seq!['('],
        _ => seq![')'],
    }
}

pub open spec fn renderable(t: Token) -> bool {
    match t {
        Token::Num(n) => n >= 0,
        Token::Plus | Token::Minus | Token::Mul | Token::Div | Token::LParen | Token::RParen => true,
        _ => false,
    }
}

/// The tokens written out, each followed by a blank.
pub open spec fn render(ts: Seq<Token>) -> Seq<char>
    decreases ts.len(),
{
    if ts.len() == 0 {
        Seq::empty()
    } else {
        token_text(ts[0]) + seq![' '] + render(ts.drop_first())
    }
}

/// Every literal of `e` is zero or more.
pub open spec fn natural_literals(e: Arith) -> bool
    decreases e,
{
    match e {
        Arith::Lit(n) => n >= 0,
        Arith::Bin(_, l, r) => natural_literals(*l) && natural_literals(*r),
    }
}

proof fn lemma_digits(n: nat)
    ensures
        all_digits(digits(n)),
        decimal(digits(n)) == n,
        digits(n).len() >= 1,
    decreases n,
{
    if n >= 10 {
        lemma_digits(n / 10);
        let d = digits(n);
        assert(d.drop_last() =~= digits(n / 10));
        assert(d.last() == digit_char((n % 10) as int));
        assert(digit_value(digit_char((n % 10) as int)) == n % 10);
        assert(n == (n / 10) * 10 + n % 10);
        assert(decimal(d) == decimal(d.drop_last()) * 10 + digit_value(d.last()));
        assert(decimal(d) == decimal(digits(n / 10)) * 10 + digit_value(d.last()));
        assert forall|i: int| 0 <= i < d.len() implies crate::tokenizer::is_digit(#[trigger] d[i]) by {
            if i < d.len() - 1 {
                assert(d[i] == digits(n / 10)[i]);
            }
        }
    } else {
        assert(digit_value(digit_char(n as int)) == n);
        let d = digits(n);
        assert(d.drop_last() =~= Seq::<char>::empty());
        assert(decimal(d.drop_last()) == 0);
        assert(d.last() == digit_char(n as int));
        assert(decimal(d) == decimal(d.drop_last()) * 10 + digit_value(d.last()));
    }
}

proof fn lemma_number_run_digits(d: Seq<char>, k: int)
    requires
        all_digits(d),
        0 <= k <= d.len(),
    ensures
        number_run(d + seq![' '], k) == d.len() - k,
    decreases d.len() - k,
{
    let a = d + seq![' '];
    if k < d.len() {
        assert(a[k] == d[k]);
        lemma_number_run_digits(d, k + 1);
    } else {
        assert(a[k] == ' ');
    }
}

proof fn lemma_lex_token(t: Token)
    requires
        renderable(t),
    ensures
        lex(token_text(t) + seq![' '], 0) == Ok::<Seq<Token>, EvalError>(seq![t]),
{
    let a = token_text(t) + seq![' '];
    assert(lex(a, a.len() as int) == Ok::<Seq<Token>, EvalError>(Seq::empty()));
    assert(seq![t] + Seq::<Token>::empty() =~= seq![t]);
    if let Token::Num(n) = t {
        let d = digits(n as nat);
        lemma_digits(n as nat);
        lemma_number_run_digits(d, 1);
        assert(a[0] == d[0]);
        assert(a.subrange(0, d.len() as int) =~= d);
        assert(a[d.len() as int] == ' ');
        assert(lex(a, d.len() as int) == lex(a, a.len() as int));
        assert(!crate::tokenizer::is_blank(a[0]));
    } else {
        assert(a[1] == ' ');
        assert(lex(a, 1) == lex(a, 2));
        assert(!crate::tokenizer::is_blank(a[0]));
    }
}

proof fn lemma_lex_render(ts: Seq<Token>)
    requires
        forall|i: int| 0 <= i < ts.len() ==> renderable(#[trigger] ts[i]),
    ensures
        lex(render(ts), 0) == Ok::<Seq<Token>, EvalError>(ts),
    decreases ts.len(),
{
    if ts.len() == 0 {
        assert(ts =~= Seq::<Token>::empty());
    } else {
        let a = token_text(ts[0]) + seq![' '];
        let rest = ts.drop_first();
        assert forall|i: int| 0 <= i < rest.len() implies renderable(#[trigger] rest[i]) by {
            assert(rest[i] == ts[i + 1]);
        }
        lemma_lex_render(rest);
        assert(render(ts) == a + render(rest));
        lemma_lex_token(ts[0]);
        assert(a.last() == ' ');
        assert(clean_boundary(a, render(rest)));
        lemma_lex_split(a, render(rest), 0);
        assert(seq![ts[0]] + rest =~= ts);
    }
}

proof fn lemma_tokens_renderable(e: Arith)
    requires
        natural_literals(e),
    ensures
        forall|i: int|
            0 <= i < arith_tokens(e).len() ==> renderable(#[trigger] arith_tokens(e)[i]),
    decreases e,
{
    if let Arith::Bin(op, l, r) = e {
        lemma_tokens_renderable(*l);
        lemma_tokens_renderable(*r);
        let xl = arith_tokens(*l);
        let xr = arith_tokens(*r);
        let tl = as_term(*l, xl);
        let tr = as_term(*r, xr);
        let ar = as_atom(*r, xr);
        assert forall|i: int| 0 <= i < tl.len() implies renderable(#[trigger] tl[i]) by {
            if additive(*l) && 1 <= i < tl.len() - 1 {
                assert(tl[i] == xl[i - 1]);
            }
        }
        assert forall|i: int| 0 <= i < tr.len() implies renderable(#[trigger] tr[i]) by {
            if additive(*r) && 1 <= i < tr.len() - 1 {
                assert(tr[i] == xr[i - 1]);
            }
        }
        assert forall|i: int| 0 <= i < ar.len() implies renderable(#[trigger] ar[i]) by {
            if !(*r is Lit) && 1 <= i < ar.len() - 1 {
                assert(ar[i] == xr[i - 1]);
            }
        }
    }
}

/// The same law on text: an expression over `+ - * /` written with the usual
/// precedence, only the parentheses it needs and a blank after every token,
/// evaluates to the value of its tree.
pub proof fn lemma_conventional_grouping_text(e: Arith)
    requires
        natural_literals(e),
    ensures
        evaluation(render(arith_tokens(e))) == tree_value(e),
{
    lemma_tokens_renderable(e);
    lemma_lex_render(arith_tokens(e));
    lemma_conventional_grouping(e);
}

} // verus!
