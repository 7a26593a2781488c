use calculator::{evaluate, parse, tokenize, EvalError, Token, Tokens};

#[test]
fn power_is_left_associative() {
    assert_eq!(evaluate("2^3^2"), Ok(64));
}

#[test]
fn unary_minus_binds_tighter_than_power() {
    assert_eq!(evaluate("-2^2"), Ok(4));
}

#[test]
fn double_negation() {
    assert_eq!(evaluate("--5"), Ok(5));
}

#[test]
fn same_text_twice_gives_same_result() {
    let text = "abs(3 - 10) * fac(4) % 7";
    assert_eq!(evaluate(text), evaluate(text));
    assert_eq!(evaluate(text), Ok(0));
}

#[test]
fn blanks_do_not_matter() {
    assert_eq!(evaluate("1+2"), evaluate(" 1 + 2 "));
    assert_eq!(evaluate("1+2"), Ok(3));
    assert_eq!(evaluate("\t1\n+\u{3000}2\r"), Ok(3));
}

#[test]
fn blanks_separate_tokens() {
    assert_eq!(evaluate("1 2 + 1"), Ok(1));
    assert_eq!(evaluate("f a c(3)"), Err(EvalError::UnknownOperation));
    assert_eq!(tokenize("12 3"), Ok(vec![Token::Num(12), Token::Num(3)]));
}

#[test]
fn trailing_tokens_are_ignored() {
    assert_eq!(evaluate("2 + 2 9"), Ok(4));
}

#[test]
fn truncating_division_and_remainder() {
    assert_eq!(evaluate("-7 / 2"), Ok(-3));
    assert_eq!(evaluate("-7 % 2"), Ok(-1));
    assert_eq!(evaluate("7 % -2"), Ok(1));
    assert_eq!(evaluate("7 / -2"), Ok(-3));
}

#[test]
fn square_root_truncates() {
    assert_eq!(evaluate("sqrt(15)"), Ok(3));
    assert_eq!(evaluate("sqrt(16)"), Ok(4));
    assert_eq!(evaluate("sqrt(0)"), Ok(0));
    assert_eq!(evaluate("sqrt(9223372036854775807)"), Ok(3037000499));
}

#[test]
fn factorial_of_small_values_is_one() {
    assert_eq!(evaluate("fac(0)"), Ok(1));
    assert_eq!(evaluate("fac(1)"), Ok(1));
    assert_eq!(evaluate("fac(-3)"), Ok(1));
    assert_eq!(evaluate("fac(20)"), Ok(2432902008176640000));
}

#[test]
fn powers_of_units_and_zero() {
    assert_eq!(evaluate("0^0"), Ok(1));
    assert_eq!(evaluate("0^5"), Ok(0));
    assert_eq!(evaluate("(-1)^3"), Ok(-1));
    assert_eq!(evaluate("(-1)^4"), Ok(1));
    assert_eq!(evaluate("1^9223372036854775807"), Ok(1));
    assert_eq!(evaluate("2^62"), Ok(4611686018427387904));
    assert_eq!(evaluate("(-2)^63"), Ok(i64::MIN));
}

#[test]
fn largest_literal() {
    assert_eq!(evaluate("9223372036854775807"), Ok(i64::MAX));
    assert_eq!(evaluate("9223372036854775808"), Err(EvalError::InvalidNumber));
}

#[test]
fn unknown_operation() {
    assert_eq!(evaluate("foo(1)"), Err(EvalError::UnknownOperation));
    assert_eq!(evaluate("sqrtx(4)"), Err(EvalError::UnknownOperation));
}

#[test]
fn unrecognized_character() {
    assert_eq!(evaluate("1 # 2"), Err(EvalError::UnrecognizedCharacter('#')));
}

#[test]
fn malformed_literal() {
    assert_eq!(evaluate("1.2.3"), Err(EvalError::InvalidNumber));
    assert_eq!(evaluate(".5"), Err(EvalError::InvalidNumber));
}

#[test]
fn unexpected_token() {
    assert_eq!(evaluate("2 + * 3"), Err(EvalError::UnexpectedToken(Token::Mul)));
    assert_eq!(evaluate(""), Err(EvalError::UnexpectedToken(Token::Eof)));
}

#[test]
fn unclosed_parenthesis() {
    assert_eq!(evaluate("(1 + 2"), Err(EvalError::UnclosedParenthesis(Token::Eof)));
}

#[test]
fn missing_open_parenthesis() {
    assert_eq!(evaluate("sqrt 4"), Err(EvalError::MissingOpenParenthesis(Token::Num(4))));
    assert_eq!(evaluate("sqrt abs(4)"), Err(EvalError::MissingOpenParenthesis(Token::Abs)));
}

#[test]
fn division_by_zero() {
    assert_eq!(evaluate("1 / 0"), Err(EvalError::DivisionByZero));
    assert_eq!(evaluate("1 % (2 - 2)"), Err(EvalError::DivisionByZero));
}

#[test]
fn overflow() {
    assert_eq!(evaluate("9223372036854775807 + 1"), Err(EvalError::Overflow));
    assert_eq!(evaluate("fac(21)"), Err(EvalError::Overflow));
    assert_eq!(evaluate("2^63"), Err(EvalError::Overflow));
    assert_eq!(evaluate("3^100"), Err(EvalError::Overflow));
    assert_eq!(evaluate("-(2^62) * 4 / -1"), Err(EvalError::Overflow));
    assert_eq!(evaluate("abs(-(2^62) * 2)"), Err(EvalError::Overflow));
}

#[test]
fn remainder_by_minus_one_is_zero() {
    assert_eq!(evaluate("-(2^62) * 2 % -1"), Ok(0));
}

#[test]
fn negative_exponent() {
    assert_eq!(evaluate("2 ^ -1"), Err(EvalError::NegativeExponent));
}

#[test]
fn negative_square_root() {
    assert_eq!(evaluate("sqrt(-4)"), Err(EvalError::NegativeSquareRoot));
}

#[test]
fn tokenize_splits_runs() {
    assert_eq!(
        tokenize(" 12+abs( 3)^ 4 "),
        Ok(vec![
            Token::Num(12),
            Token::Plus,
            Token::Abs,
            Token::LParen,
            Token::Num(3),
            Token::RParen,
            Token::Pow,
            Token::Num(4),
        ])
    );
    assert_eq!(tokenize("é"), Err(EvalError::UnknownOperation));
}

#[test]
fn parse_reads_one_expression() {
    let tokens = vec![Token::Num(2), Token::Mod, Token::Num(3), Token::Num(9)];
    assert_eq!(parse(tokens), Ok(2));
}

#[test]
fn cursor_moves_forward() {
    let mut cursor = Tokens::new(vec![Token::Num(1), Token::Plus]);
    assert_eq!(cursor.peek(), Token::Num(1));
    cursor.eat();
    assert_eq!(cursor.peek(), Token::Plus);
    cursor.eat();
    assert_eq!(cursor.peek(), Token::Eof);
}

#[test]
fn conventional_grouping_of_four_operators() {
    assert_eq!(evaluate("10 - 4 - 3 * 2 / 3 + ( 7 - 2 ) "), Ok(9));
    assert_eq!(evaluate("100 / 10 / 5 - 8 * ( 1 - 3 ) "), Ok(18));
}

#[test]
fn symbols_are_checked_before_letters() {
    assert_eq!(tokenize("abs(-1)%2^3"), Ok(vec![
        Token::Abs,
        Token::LParen,
        Token::Minus,
        Token::Num(1),
        Token::RParen,
        Token::Mod,
        Token::Num(2),
        Token::Pow,
        Token::Num(3),
    ]));
}
