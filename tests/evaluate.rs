use calculator::{evaluate, EvalError};

#[test]
fn basic_addition() {
    assert_eq!(evaluate("2 + 2"), Ok(4));
}

#[test]
fn chained_additions() {
    assert_eq!(evaluate("1 + 2 + 3 + 4"), Ok(10));
}

#[test]
fn basic_subtraction() {
    assert_eq!(evaluate("5 - 5"), Ok(0));
}

#[test]
fn chained_subtractions() {
    assert_eq!(evaluate("5 - 4 - 3 - 2"), Ok(-4));
}

#[test]
fn chained_addition_and_subtraction() {
    assert_eq!(evaluate(" 1 + 2 - 3 + 4 - 5 + 6 - 7 - 8 + 9 + 10"), Ok(9));
}

#[test]
fn basic_multiplication() {
    assert_eq!(evaluate("5 * 6"), Ok(30));
}

#[test]
fn chained_multiplications() {
    assert_eq!(evaluate("1 * 2 * 3"), Ok(6));
}

#[test]
fn basic_division() {
    assert_eq!(evaluate("18 / 3"), Ok(6));
}

#[test]
fn chained_divisions() {
    assert_eq!(evaluate("10 / 5 / 2"), Ok(1));
}

#[test]
fn chained_multiplication_and_division() {
    assert_eq!(evaluate("1 * 2 * 3 / 2 * 3 * 4 / 6"), Ok(6));
}

#[test]
fn basic_power() {
    assert_eq!(evaluate("2 ^ 3"), Ok(8));
}

#[test]
fn basic_factorial() {
    assert_eq!(evaluate("fac(5)"), Ok(120));
}

#[test]
fn factorial_of_factorial() {
    assert_eq!(evaluate("fac(fac(3))"), Ok(720));
}

#[test]
fn basic_modulo() {
    assert_eq!(evaluate("5 % 2"), Ok(1));
}

#[test]
fn modulo_precedence_with_plusminus() {
    assert_eq!(evaluate("1 + 5 % 2"), Ok(2));
}

#[test]
fn modulo_precedence_with_muldiv() {
    assert_eq!(evaluate("2 * 3 % 4"), Ok(2));
}

#[test]
fn operator_precedence_with_muldiv_and_plusminus() {
    assert_eq!(evaluate("5 + 3 * 2"), Ok(11));
}

#[test]
fn parentheses() {
    assert_eq!(evaluate("3 - (2 - 1)"), Ok(2));
}

#[test]
fn nested_parentheses() {
    assert_eq!(evaluate("2 * (1 - (8 - 6 + (5 - 3) * 2))"), Ok(-10));
}

#[test]
fn number_negation() {
    assert_eq!(evaluate("-4"), Ok(-4));
}

#[test]
fn expression_negation() {
    assert_eq!(evaluate("-(1 + 3)"), Ok(-4));
}

#[test]
fn absolute_value() {
    assert_eq!(evaluate("abs(-5)"), Ok(5));
}

#[test]
fn nested_absolutes() {
    assert_eq!(evaluate("abs(1 - abs(5 - 10))"), Ok(4));
}

#[test]
fn operator_precedence_with_muldiv_and_factorial() {
    assert_eq!(evaluate("fac(3) * 8"), Ok(48));
}

#[test]
fn parentheses_override_precedence() {
    assert_eq!(evaluate("(10 - 5) * 6"), Ok(30));
}

#[test]
fn complex_expression() {
    assert_eq!(evaluate("sqrt(1) * ((fac(3) + (15 * (abs(8^2 - fac(2))) + 3^2) - ((1 + 2) * (3 + 4) / (1 + 2))) - (-5 + 2))"), Ok(941));
}

// Integer arithmetic reads no fractional literal, so this input fails
// before `fac` is reached.
#[test]
fn unsupported_factorial_with_floats() {
    assert_eq!(evaluate("fac(3.1)"), Err(EvalError::InvalidNumber));
}
