use vstd::prelude::*;

use crate::error::EvalError;

verus! {

/// `v` fits in an `i64`.
pub open spec fn in_i64(v: int) -> bool {
    i64::MIN <= v <= i64::MAX
}

/// `v` where it fits in an `i64`, an overflow otherwise.
pub open spec fn checked(v: int) -> Result<int, EvalError> {
    if in_i64(v) {
        Ok(v)
    } else {
        Err(EvalError::Overflow)
    }
}

pub open spec fn abs(v: int) -> int {
    if v < 0 {
        -v
    } else {
        v
    }
}

/// Division that truncates toward zero.
pub open spec fn quotient(x: int, d: int) -> int {
    if (x >= 0) == (d > 0) {
        abs(x) / abs(d)
    } else {
        -(abs(x) / abs(d))
    }
}

/// The remainder of truncating division: it takes the sign of the dividend.
pub open spec fn remainder(x: int, d: int) -> int {
    if x >= 0 {
        abs(x) % abs(d)
    } else {
        -(abs(x) % abs(d))
    }
}

/// `b` to the power `e`.
pub open spec fn pow(b: int, e: nat) -> int
    decreases e,
{
    if e == 0 {
        1
    } else {
        b * pow(b, (e - 1) as nat)
    }
}

/// The product of the integers from 2 up to `n`: 1 where `n` is below 2.
pub open spec fn factorial(n: int) -> int
    decreases n,
{
    if n <= 1 {
        1
    } else {
        n * factorial(n - 1)
    }
}

/// The largest `r` with `r * r <= n`.
pub open spec fn floor_sqrt(n: nat) -> nat
    decreases n,
{
    if n == 0 {
        0
    } else {
        let r = floor_sqrt((n - 1) as nat);
        if (r + 1) * (r + 1) <= n {
            r + 1
        } else {
            r
        }
    }
}

pub open spec fn sum(x: int, y: int) -> Result<int, EvalError> {
    checked(x + y)
}

pub open spec fn difference(x: int, y: int) -> Result<int, EvalError> {
    checked(x - y)
}

pub open spec fn product(x: int, y: int) -> Result<int, EvalError> {
    checked(x * y)
}

pub open spec fn division(x: int, d: int) -> Result<int, EvalError> {
    if d == 0 {
        Err(EvalError::DivisionByZero)
    } else {
        checked(quotient(x, d))
    }
}

pub open spec fn modulo(x: int, d: int) -> Result<int, EvalError> {
    if d == 0 {
        Err(EvalError::DivisionByZero)
    } else {
        checked(remainder(x, d))
    }
}

pub open spec fn power(b: int, e: int) -> Result<int, EvalError> {
    if e < 0 {
        Err(EvalError::NegativeExponent)
    } else {
        checked(pow(b, e as nat))
    }
}

pub open spec fn negation(v: int) -> Result<int, EvalError> {
    checked(-v)
}

pub open spec fn square_root(v: int) -> Result<int, EvalError> {
    if v < 0 {
        Err(EvalError::NegativeSquareRoot)
    } else {
        Ok(floor_sqrt(v as nat) as int)
    }
}

pub open spec fn absolute(v: int) -> Result<int, EvalError> {
    checked(abs(v))
}

pub open spec fn fac(v: int) -> Result<int, EvalError> {
    checked(factorial(v))
}

/// An executable result read as a mathematical one.
pub open spec fn value_of(r: Result<i64, EvalError>) -> Result<int, EvalError> {
    match r {
        Ok(v) => Ok(v as int),
        Err(e) => Err(e),
    }
}

/// `x + y`, or an overflow.
pub fn add_values(x: i64, y: i64) -> (r: Result<i64, EvalError>)
    ensures
        value_of(r) == sum(x as int, y as int),
{
    match x.checked_add(y) {
        Some(v) => Ok(v),
        None => Err(EvalError::Overflow),
    }
}

/// `x - y`, or an overflow.
pub fn sub_values(x: i64, y: i64) -> (r: Result<i64, EvalError>)
    ensures
        value_of(r) == difference(x as int, y as int),
{
    match x.checked_sub(y) {
        Some(v) => Ok(v),
        None => Err(EvalError::Overflow),
    }
}

/// `x * y`, or an overflow.
pub fn mul_values(x: i64, y: i64) -> (r: Result<i64, EvalError>)
    ensures
        value_of(r) == product(x as int, y as int),
{
    match x.checked_mul(y) {
        Some(v) => Ok(v),
        None => Err(EvalError::Overflow),
    }
}

/// `x / d` truncated toward zero; fails on a zero divisor and on overflow.
pub fn div_values(x: i64, d: i64) -> (r: Result<i64, EvalError>)
    ensures
        value_of(r) == division(x as int, d as int),
{
    if d == 0 {
        return Err(EvalError::DivisionByZero);
    }
    match x.checked_div(d) {
        Some(v) => Ok(v),
        None => Err(EvalError::Overflow),
    }
}

/// The remainder of `x / d`, with the sign of `x`; fails on a zero divisor.
pub fn rem_values(x: i64, d: i64) -> (r: Result<i64, EvalError>)
    ensures
        value_of(r) == modulo(x as int, d as int),
{
    if d == 0 {
        return Err(EvalError::DivisionByZero);
    }
    if d == -1 {
        assert(abs(x as int) % 1 == 0);
        return Ok(0);
    }
    proof {
        let (a, b) = (abs(x as int), abs(d as int));
        assert(0 <= a % b < b) by (nonlinear_arith)
            requires
                b > 0,
        ;
        if x == 0 {
            assert(0int % b == 0);
        }
        assert(x != i64::MIN || d != -1);
    }
    match x.checked_rem(d) {
        Some(v) => Ok(v),
        None => Err(EvalError::Overflow),
    }
}

/// `-v`, or an overflow.
pub fn negate_value(v: i64) -> (r: Result<i64, EvalError>)
    ensures
        value_of(r) == negation(v as int),
{
    match 0i64.checked_sub(v) {
        Some(w) => Ok(w),
        None => Err(EvalError::Overflow),
    }
}

/// `|v|`, or an overflow.
pub fn abs_value(v: i64) -> (r: Result<i64, EvalError>)
    ensures
        value_of(r) == absolute(v as int),
{
    if v < 0 {
        negate_value(v)
    } else {
        Ok(v)
    }
}

proof fn lemma_factorial_grows(k: int, m: int)
    requires
        k <= m,
    ensures
        1 <= factorial(k) <= factorial(m),
    decreases m - k,
{
    if k < m {
        lemma_factorial_grows(k, m - 1);
        if m > 1 {
            assert(factorial(m - 1) <= m * factorial(m - 1)) by (nonlinear_arith)
                requires
                    m > 1,
                    factorial(m - 1) >= 1,
            ;
        }
    } else {
        lemma_factorial_positive(m);
    }
}

proof fn lemma_factorial_positive(n: int)
    ensures
        factorial(n) >= 1,
    decreases n,
{
    if n > 1 {
        lemma_factorial_positive(n - 1);
        assert(n * factorial(n - 1) >= 1) by (nonlinear_arith)
            requires
                n > 1,
                factorial(n - 1) >= 1,
        ;
    }
}

/// The product of `2..=n`, or an overflow.
pub fn fac_value(n: i64) -> (r: Result<i64, EvalError>)
    ensures
        value_of(r) == fac(n as int),
{
    if n <= 1 {
        return Ok(1);
    }
    let mut acc: i64 = 1;
    let mut k: i64 = 2;
    loop
        invariant
            2 <= k <= n,
            acc == factorial(k - 1),
        decreases n - k,
    {
        assert(factorial(k as int) == k * factorial(k - 1));
        proof {
            lemma_factorial_positive(k - 1);
        }
        assert(acc * k == k * acc && acc * k >= 0) by (nonlinear_arith)
            requires
                acc >= 0,
                k >= 0,
        ;
        match acc.checked_mul(k) {
            Some(v) => {
                acc = v;
            },
            None => {
                proof {
                    lemma_factorial_positive(k - 1);
                    lemma_factorial_grows(k as int, n as int);
                }
                return Err(EvalError::Overflow);
            },
        }
        if k == n {
            return Ok(acc);
        }
        k += 1;
    }
}

proof fn lemma_pow_unit(b: int, e: nat)
    requires
        b == 0 || b == 1 || b == -1,
    ensures
        b == 0 ==> pow(b, e) == if e == 0 {
            1int
        } else {
            0int
        },
        b == 1 ==> pow(b, e) == 1,
        b == -1 ==> pow(b, e) == if e % 2 == 0 {
            1int
        } else {
            -1int
        },
    decreases e,
{
    if e > 0 {
        lemma_pow_unit(b, (e - 1) as nat);
    }
}

/// With a base of magnitude two or more every further factor at least doubles
/// the magnitude.
proof fn lemma_pow_grows(b: int, k: nat, m: nat)
    requires
        abs(b) >= 2,
        k <= m,
    ensures
        abs(pow(b, m)) >= abs(pow(b, k)),
        k < m ==> abs(pow(b, m)) >= 2 * abs(pow(b, k)),
    decreases m - k,
{
    if k < m {
        let m1 = (m - 1) as nat;
        lemma_pow_grows(b, k, m1);
        let p = pow(b, m1);
        assert(abs(b * p) >= 2 * abs(p)) by (nonlinear_arith)
            requires
                abs(b) >= 2,
                abs(b) == if b < 0 { -b } else { b },
                abs(p) == if p < 0 { -p } else { p },
                abs(b * p) == if b * p < 0 { -(b * p) } else { b * p },
        ;
    }
}

/// `b` to the power `e`; fails on a negative exponent and on overflow.
pub fn pow_value(b: i64, e: i64) -> (r: Result<i64, EvalError>)
    ensures
        value_of(r) == power(b as int, e as int),
{
    if e < 0 {
        return Err(EvalError::NegativeExponent);
    }
    if b == 0 || b == 1 || b == -1 {
        proof {
            lemma_pow_unit(b as int, e as nat);
        }
        if b == 0 {
            return if e == 0 {
                Ok(1)
            } else {
                Ok(0)
            };
        } else if b == 1 {
            return Ok(1);
        } else {
            return if e % 2 == 0 {
                Ok(1)
            } else {
                Ok(-1)
            };
        }
    }
    let mut acc: i64 = 1;
    let mut k: i64 = 0;
    while k < e
        invariant
            0 <= k <= e,
            abs(b as int) >= 2,
            acc == pow(b as int, k as nat),
        decreases e - k,
    {
        assert(pow(b as int, (k + 1) as nat) == b * pow(b as int, k as nat));
        assert(acc * b == b * acc) by (nonlinear_arith);
        match acc.checked_mul(b) {
            Some(v) => {
                acc = v;
            },
            None => {
                proof {
                    lemma_pow_grows(b as int, (k + 1) as nat, e as nat);
                }
                return Err(EvalError::Overflow);
            },
        }
        k += 1;
    }
    Ok(acc)
}

proof fn lemma_floor_sqrt(n: nat)
    ensures
        ({
            let f = floor_sqrt(n) as int;
            f * f <= n < (f + 1) * (f + 1)
        }),
    decreases n,
{
    if n > 0 {
        lemma_floor_sqrt((n - 1) as nat);
        let r = floor_sqrt((n - 1) as nat) as int;
        assert(n <= (r + 1) * (r + 1) < (r + 2) * (r + 2)) by (nonlinear_arith)
            requires
                n - 1 < (r + 1) * (r + 1),
                r >= 0,
        ;
        let f = floor_sqrt(n) as int;
        let m = n as int;
        if (r + 1) * (r + 1) <= n {
            assert(f == r + 1);
            assert(f * f <= m < (f + 1) * (f + 1)) by (nonlinear_arith)
                requires
                    f == r + 1,
                    (r + 1) * (r + 1) <= m < (r + 2) * (r + 2),
            ;
        } else {
            assert(f == r);
            assert(f * f <= m < (f + 1) * (f + 1)) by (nonlinear_arith)
                requires
                    f == r,
                    r * r <= m - 1,
                    m < (r + 1) * (r + 1),
            ;
        }
        assert(f * f <= m < (f + 1) * (f + 1));
    } else {
        assert(floor_sqrt(n) == 0);
    }
}

proof fn lemma_floor_sqrt_unique(n: nat, r: int)
    requires
        0 <= r,
        r * r <= n < (r + 1) * (r + 1),
    ensures
        r == floor_sqrt(n),
{
    lemma_floor_sqrt(n);
    let s = floor_sqrt(n) as int;
    if r < s {
        assert((r + 1) * (r + 1) <= s * s) by (nonlinear_arith)
            requires
                0 <= r < s,
        ;
    } else if s < r {
        assert((s + 1) * (s + 1) <= r * r) by (nonlinear_arith)
            requires
                0 <= s < r,
        ;
    }
}

/// The integer square root of `v`, rounded down; fails where `v` is negative.
pub fn sqrt_value(v: i64) -> (r: Result<i64, EvalError>)
    ensures
        value_of(r) == square_root(v as int),
{
    if v < 0 {
        return Err(EvalError::NegativeSquareRoot);
    }
    let n = v as u64;
    let mut lo: u64 = 0;
    let mut hi: u64 = 3037000500;
    assert(3037000500 * 3037000500 > i64::MAX) by (nonlinear_arith);
    while hi - lo > 1
        invariant
            lo < hi <= 3037000500,
            lo * lo <= n,
            n < hi * hi,
            n == v,
        decreases hi - lo,
    {
        let mid = lo + (hi - lo) / 2;
        assert(mid * mid < 3037000500 * 3037000500) by (nonlinear_arith)
            requires
                mid < 3037000500,
        ;
        if mid * mid <= n {
            lo = mid;
        } else {
            hi = mid;
        }
    }
    proof {
        lemma_floor_sqrt_unique(n as nat, lo as int);
    }
    Ok(lo as i64)
}

} // verus!
