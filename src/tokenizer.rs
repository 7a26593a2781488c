use vstd::prelude::*;
use vstd::string::*;

use crate::error::EvalError;

verus! {

/// One lexical unit of an expression.
#[derive(Debug, Clone, Copy, PartialEq, Eq, Structural)]
pub enum Token {
    /// An integer literal.
    Num(i64),
    /// `+`
    Plus,
    /// `-`
    Minus,
    /// `*`
    Mul,
    /// `/`
    Div,
    /// `(`
    LParen,
    /// `)`
    RParen,
    /// `%`
    Mod,
    /// `^`
    Pow,
    /// `sqrt`
    Sqrt,
    /// `abs`
    Abs,
    /// `fac`
    Fac,
    /// Never produced by `tokenize`: what lookahead sees past the last token.
    Eof,
}

/// Unicode's `White_Space` characters.
pub open spec fn is_blank(c: char) -> bool {
    let u = c as u32;
    u == 0x20 || (0x09 <= u <= 0x0d) || u == 0x85 || u == 0xa0 || u == 0x1680 || (0x2000 <= u
        <= 0x200a) || u == 0x2028 || u == 0x2029 || u == 0x202f || u == 0x205f || u == 0x3000
}

pub open spec fn is_digit(c: char) -> bool {
    '0' <= c <= '9'
}

/// Characters that make up a number literal.
pub open spec fn is_number_char(c: char) -> bool {
    is_digit(c) || c == '.'
}

/// Whether `char::is_alphabetic` holds of `c`.
pub uninterp spec fn alphabetic(c: char) -> bool;

/// Relies on `char::is_alphabetic`: whether `c` has Unicode's `Alphabetic`
/// property.
#[verifier::external_body]
fn is_letter(c: char) -> (r: bool)
    ensures
        r == alphabetic(c),
{
    c.is_alphabetic()
}

/// How many characters from index `k` on continue a number literal.
pub open spec fn number_run(cs: Seq<char>, k: int) -> nat
    decreases (cs.len() - k) as nat,
{
    if 0 <= k < cs.len() && is_number_char(cs[k]) {
        1 + number_run(cs, k + 1)
    } else {
        0
    }
}

/// Letters make up names; a blank always ends one.
pub open spec fn is_word_char(c: char) -> bool {
    alphabetic(c) && !is_blank(c)
}

/// How many characters from index `k` on continue a name.
pub open spec fn word_run(cs: Seq<char>, k: int) -> nat
    decreases (cs.len() - k) as nat,
{
    if 0 <= k < cs.len() && is_word_char(cs[k]) {
        1 + word_run(cs, k + 1)
    } else {
        0
    }
}

pub open spec fn all_digits(s: Seq<char>) -> bool {
    forall|i: int| 0 <= i < s.len() ==> is_digit(#[trigger] s[i])
}

pub open spec fn digit_value(c: char) -> int {
    (c as u32) - ('0' as u32)
}

/// The number that a run of decimal digits writes.
pub open spec fn decimal(s: Seq<char>) -> int
    decreases s.len(),
{
    if s.len() == 0 {
        0
    } else {
        decimal(s.drop_last()) * 10 + digit_value(s.last())
    }
}

/// The token that a literal stands for: it must be digits only and fit in an `i64`.
pub open spec fn number_token(lit: Seq<char>) -> Result<Token, EvalError> {
    if all_digits(lit) && decimal(lit) <= i64::MAX {
        Ok(Token::Num(decimal(lit) as i64))
    } else {
        Err(EvalError::InvalidNumber)
    }
}

/// The token that a name stands for.
pub open spec fn word_token(name: Seq<char>) -> Result<Token, EvalError> {
    if name == seq!['s', 'q', 'r', 't'] {
        Ok(Token::Sqrt)
    } else if name == seq!['a', 'b', 's'] {
        Ok(Token::Abs)
    } else if name == seq!['f', 'a', 'c'] {
        Ok(Token::Fac)
    } else {
        Err(EvalError::UnknownOperation)
    }
}

/// The token of a single-character operator or parenthesis.
pub open spec fn symbol_token(c: char) -> Option<Token> {
    if c == '+' {
        Some(Token::Plus)
    } else if c == '-' {
        Some(Token::Minus)
    } else if c == '*' {
        Some(Token::Mul)
    } else if c == '/' {
        Some(Token::Div)
    } else if c == '(' {
        Some(Token::LParen)
    } else if c == ')' {
        Some(Token::RParen)
    } else if c == '%' {
        Some(Token::Mod)
    } else if c == '^' {
        Some(Token::Pow)
    } else {
        None
    }
}

/// `ts` in front of the tokens of `r`, or the error of `r`.
pub open spec fn prepend(ts: Seq<Token>, r: Result<Seq<Token>, EvalError>) -> Result<
    Seq<Token>,
    EvalError,
> {
    match r {
        Ok(rest) => Ok(ts + rest),
        Err(e) => Err(e),
    }
}

/// The tokens of the text `cs` from index `i` on: blanks are skipped, maximal
/// runs of digits and dots are numbers, each of `+ - * / ( ) % ^` is a token
/// of its own, maximal runs of letters are names, and any other character is
/// an error.  The first error met ends the scan.
pub open spec fn lex(cs: Seq<char>, i: int) -> Result<Seq<Token>, EvalError>
    decreases cs.len() - i
    via lex_decreases

{
    if i < 0 || i >= cs.len() {
        Ok(Seq::empty())
    } else if is_blank(cs[i]) {
        lex(cs, i + 1)
    } else if is_number_char(cs[i]) {
        let j = i + 1 + number_run(cs, i + 1);
        match number_token(cs.subrange(i, j)) {
            Ok(t) => prepend(seq![t], lex(cs, j)),
            Err(e) => Err(e),
        }
    } else if let Some(t) = symbol_token(cs[i]) {
        prepend(seq![t], lex(cs, i + 1))
    } else if is_word_char(cs[i]) {
        let j = i + 1 + word_run(cs, i + 1);
        match word_token(cs.subrange(i, j)) {
            Ok(t) => prepend(seq![t], lex(cs, j)),
            Err(e) => Err(e),
        }
    } else {
        Err(EvalError::UnrecognizedCharacter(cs[i]))
    }
}

#[via_fn]
proof fn lex_decreases(cs: Seq<char>, i: int) {
    if 0 <= i < cs.len() {
        lemma_number_run_bound(cs, i + 1);
        lemma_word_run_bound(cs, i + 1);
    }
}

pub proof fn lemma_number_run_bound(cs: Seq<char>, k: int)
    requires
        0 <= k <= cs.len(),
    ensures
        k + number_run(cs, k) <= cs.len(),
    decreases cs.len() - k,
{
    if k < cs.len() {
        lemma_number_run_bound(cs, k + 1);
    }
}

pub proof fn lemma_word_run_bound(cs: Seq<char>, k: int)
    requires
        0 <= k <= cs.len(),
    ensures
        k + word_run(cs, k) <= cs.len(),
    decreases cs.len() - k,
{
    if k < cs.len() {
        lemma_word_run_bound(cs, k + 1);
    }
}

/// The tokens of a text.
pub open spec fn tokens_of(s: Seq<char>) -> Result<Seq<Token>, EvalError> {
    lex(s, 0)
}

fn is_blank_char(c: char) -> (r: bool)
    ensures
        r == is_blank(c),
{
    let u = c as u32;
    u == 0x20 || (0x09 <= u && u <= 0x0d) || u == 0x85 || u == 0xa0 || u == 0x1680 || (0x2000
        <= u && u <= 0x200a) || u == 0x2028 || u == 0x2029 || u == 0x202f || u == 0x205f || u
        == 0x3000
}

fn is_digit_char(c: char) -> (r: bool)
    ensures
        r == is_digit(c),
{
    '0' <= c && c <= '9'
}

fn is_number_start(c: char) -> (r: bool)
    ensures
        r == is_number_char(c),
{
    is_digit_char(c) || c == '.'
}

/// The characters of `s`, in order.
fn chars_of(s: &str) -> (r: Vec<char>)
    ensures
        r@ == s@,
{
    let n = s.unicode_len();
    let mut out: Vec<char> = Vec::new();
    let mut i: usize = 0;
    while i < n
        invariant
            n == s@.len(),
            i <= n,
            out@ == s@.subrange(0, i as int),
        decreases n - i,
    {
        out.push(s.get_char(i));
        i += 1;
        assert(out@ =~= s@.subrange(0, i as int));
    }
    assert(s@.subrange(0, n as int) =~= s@);
    out
}

fn is_word_start(c: char) -> (r: bool)
    ensures
        r == is_word_char(c),
{
    is_letter(c) && !is_blank_char(c)
}

pub proof fn lemma_decimal_nonneg(s: Seq<char>)
    requires
        all_digits(s),
    ensures
        decimal(s) >= 0,
    decreases s.len(),
{
    if s.len() > 0 {
        assert(is_digit(s[s.len() - 1]));
        lemma_decimal_nonneg(s.drop_last());
    }
}

/// A prefix of a run of digits writes no larger a number than the whole run.
pub proof fn lemma_decimal_prefix(s: Seq<char>, k: int)
    requires
        all_digits(s),
        0 <= k <= s.len(),
    ensures
        decimal(s.subrange(0, k)) <= decimal(s),
    decreases s.len() - k,
{
    if k < s.len() {
        let p = s.subrange(0, k);
        let q = s.subrange(0, k + 1);
        assert(q.drop_last() =~= p);
        assert(is_digit(q.last()));
        assert(all_digits(p));
        lemma_decimal_nonneg(p);
        lemma_decimal_prefix(s, k + 1);
    } else {
        assert(s.subrange(0, k) =~= s);
    }
}

/// The integer token that `cs[start..end]` writes.
fn number_literal(cs: &Vec<char>, start: usize, end: usize) -> (r: Result<Token, EvalError>)
    requires
        start <= end <= cs@.len(),
    ensures
        r == number_token(cs@.subrange(start as int, end as int)),
{
    let ghost lit = cs@.subrange(start as int, end as int);
    let mut acc: i64 = 0;
    let mut k: usize = start;
    while k < end
        invariant
            start <= k <= end <= cs@.len(),
            lit == cs@.subrange(start as int, end as int),
            all_digits(lit.subrange(0, k - start)),
            acc == decimal(lit.subrange(0, k - start)),
        decreases end - k,
    {
        let c = cs[k];
        let ghost p = lit.subrange(0, k - start);
        let ghost q = lit.subrange(0, k - start + 1);
        proof {
            assert(q.drop_last() =~= p);
            assert(q.last() == c);
        }
        if !is_digit_char(c) {
            assert(!is_digit(lit[k - start]));
            return Err(EvalError::InvalidNumber);
        }
        let d = (c as u32 - '0' as u32) as i64;
        let next = match acc.checked_mul(10) {
            Some(m) => m.checked_add(d),
            None => None,
        };
        match next {
            Some(v) => {
                acc = v;
            },
            None => {
                proof {
                    lemma_decimal_nonneg(p);
                    if all_digits(lit) {
                        lemma_decimal_prefix(lit, k - start + 1);
                    }
                }
                return Err(EvalError::InvalidNumber);
            },
        }
        k += 1;
    }
    proof {
        assert(lit.subrange(0, end - start) =~= lit);
    }
    Ok(Token::Num(acc))
}

/// The function token that `cs[start..end]` names.
fn word_literal(cs: &Vec<char>, start: usize, end: usize) -> (r: Result<Token, EvalError>)
    requires
        start <= end <= cs@.len(),
    ensures
        r == word_token(cs@.subrange(start as int, end as int)),
{
    let ghost name = cs@.subrange(start as int, end as int);
    let len = end - start;
    if len == 4 && cs[start] == 's' && cs[start + 1] == 'q' && cs[start + 2] == 'r' && cs[start
        + 3] == 't' {
        assert(name =~= seq!['s', 'q', 'r', 't']);
        Ok(Token::Sqrt)
    } else if len == 3 && cs[start] == 'a' && cs[start + 1] == 'b' && cs[start + 2] == 's' {
        assert(name =~= seq!['a', 'b', 's']);
        assert(name != seq!['s', 'q', 'r', 't']);
        Ok(Token::Abs)
    } else if len == 3 && cs[start] == 'f' && cs[start + 1] == 'a' && cs[start + 2] == 'c' {
        assert(name =~= seq!['f', 'a', 'c']);
        assert(name != seq!['s', 'q', 'r', 't']);
        assert(name != seq!['a', 'b', 's']) by {
            if name == seq!['a', 'b', 's'] {
                assert(name[0] == 'a');
            }
        }
        Ok(Token::Fac)
    } else {
        proof {
            if name == seq!['s', 'q', 'r', 't'] {
                assert(name.len() == 4);
                assert(name[0] == 's' && name[1] == 'q' && name[2] == 'r' && name[3] == 't');
            }
            if name == seq!['a', 'b', 's'] {
                assert(name.len() == 3);
                assert(name[0] == 'a' && name[1] == 'b' && name[2] == 's');
            }
            if name == seq!['f', 'a', 'c'] {
                assert(name.len() == 3);
                assert(name[0] == 'f' && name[1] == 'a' && name[2] == 'c');
            }
        }
        Err(EvalError::UnknownOperation)
    }
}

/// The token of a single-character operator or parenthesis.
fn symbol(c: char) -> (r: Option<Token>)
    ensures
        r == symbol_token(c),
{
    if c == '+' {
        Some(Token::Plus)
    } else if c == '-' {
        Some(Token::Minus)
    } else if c == '*' {
        Some(Token::Mul)
    } else if c == '/' {
        Some(Token::Div)
    } else if c == '(' {
        Some(Token::LParen)
    } else if c == ')' {
        Some(Token::RParen)
    } else if c == '%' {
        Some(Token::Mod)
    } else if c == '^' {
        Some(Token::Pow)
    } else {
        None
    }
}

proof fn lemma_prepend_push(ts: Seq<Token>, t: Token, r: Result<Seq<Token>, EvalError>)
    ensures
        prepend(ts, prepend(seq![t], r)) == prepend(ts.push(t), r),
{
    if let Ok(rest) = r {
        assert(ts + (seq![t] + rest) =~= ts.push(t) + rest);
    }
}

/// Splits a text into tokens; blanks separate tokens and are dropped.  Fails
/// on the first run of letters that names no function, the first literal that
/// is no `i64`, and the first character that starts no token.
pub fn tokenize(expr: &str) -> (r: Result<Vec<Token>, EvalError>)
    ensures
        match r {
            Ok(ts) => tokens_of(expr@) == Ok::<Seq<Token>, EvalError>(ts@),
            Err(e) => tokens_of(expr@) == Err::<Seq<Token>, EvalError>(e),
        },
{
    let cs = chars_of(expr);
    let n = cs.len();
    let mut out: Vec<Token> = Vec::new();
    let mut i: usize = 0;
    assert(out@ + seq![] =~= out@) by {};
    while i < n
        invariant
            n == cs@.len(),
            cs@ == expr@,
            i <= n,
            lex(cs@, 0) == prepend(out@, lex(cs@, i as int)),
        decreases n - i,
    {
        let c = cs[i];
        let next: usize;
        let t: Token;
        if is_blank_char(c) {
            i += 1;
            continue;
        }
        if is_number_start(c) {
            let mut j: usize = i + 1;
            while j < n && is_number_start(cs[j])
                invariant
                    n == cs@.len(),
                    i < j <= n,
                    number_run(cs@, i + 1) == (j - i - 1) + number_run(cs@, j as int),
                decreases n - j,
            {
                j += 1;
            }
            match number_literal(&cs, i, j) {
                Ok(tok) => {
                    t = tok;
                },
                Err(e) => {
                    return Err(e);
                },
            }
            next = j;
        } else if let Some(tok) = symbol(c) {
            t = tok;
            next = i + 1;
        } else if is_word_start(c) {
            let mut j: usize = i + 1;
            while j < n && is_word_start(cs[j])
                invariant
                    n == cs@.len(),
                    i < j <= n,
                    word_run(cs@, i + 1) == (j - i - 1) + word_run(cs@, j as int),
                decreases n - j,
            {
                j += 1;
            }
            match word_literal(&cs, i, j) {
                Ok(tok) => {
                    t = tok;
                },
                Err(e) => {
                    return Err(e);
                },
            }
            next = j;
        } else {
            return Err(EvalError::UnrecognizedCharacter(c));
        }
        proof {
            lemma_prepend_push(out@, t, lex(cs@, next as int));
        }
        out.push(t);
        i = next;
    }
    proof {
        assert(out@ + Seq::<Token>::empty() =~= out@);
    }
    Ok(out)
}

} // verus!
