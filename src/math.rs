use vstd::prelude::*;
use vstd::arithmetic::div_mod::{
    lemma_basic_div, lemma_div_is_ordered, lemma_fundamental_div_mod,
    lemma_fundamental_div_mod_converse,
};
use vstd::arithmetic::mul::lemma_mul_inequality;
use crate::constants::TOKEN_DENOM;
use crate::error::PoolError;

verus! {

/// `a / b` in the fixed-point domain, rounded half up: `(a * DENOM + b / 2) / b`.
pub open spec fn scaled_div(a: int, b: int) -> int {
    (a * TOKEN_DENOM + b / 2) / b
}

/// `a * b` in the fixed-point domain, rounded down: `a * b / DENOM`.
pub open spec fn scaled_mul(a: int, b: int) -> int {
    (a * b) / (TOKEN_DENOM as int)
}

/// Integer power `b^e`.
pub open spec fn int_pow(b: int, e: nat) -> int
    decreases e,
{
    if e == 0 {
        1
    } else {
        b * int_pow(b, (e - 1) as nat)
    }
}

/// What `div_u128` returns.
pub open spec fn div_result(a: u128, b: u128) -> Result<u128, PoolError> {
    if b == 0 {
        Err(PoolError::DivisionByZero)
    } else if scaled_div(a as int, b as int) > u128::MAX {
        Err(PoolError::ArithmeticOverflow)
    } else {
        Ok(scaled_div(a as int, b as int) as u128)
    }
}

/// What `mul_u128` returns.
pub open spec fn mul_result(a: u128, b: u128) -> Result<u128, PoolError> {
    if scaled_mul(a as int, b as int) > u128::MAX {
        Err(PoolError::ArithmeticOverflow)
    } else {
        Ok(scaled_mul(a as int, b as int) as u128)
    }
}

/// What `calc_spot_price` returns: the three fixed-point divisions of
/// `(bI / wI) / (bO / wO) / (1 - fee)`, in that order, the first failing
/// one deciding the error. A fee above one is out of range.
pub open spec fn spot_price_result(
    balance_in: u128,
    weight_in: u128,
    balance_out: u128,
    weight_out: u128,
    swap_fee: u128,
) -> Result<u128, PoolError> {
    if swap_fee > TOKEN_DENOM {
        Err(PoolError::FeeOutOfRange)
    } else {
        match div_result(balance_in, weight_in) {
            Err(e) => Err(e),
            Ok(numer) => match div_result(balance_out, weight_out) {
                Err(e) => Err(e),
                Ok(denom) => match div_result(numer, denom) {
                    Err(e) => Err(e),
                    Ok(ratio) => div_result(ratio, (TOKEN_DENOM - swap_fee) as u128),
                },
            },
        }
    }
}

/// Multiplying by a fixed-point factor of at most one does not increase
/// an amount.
pub proof fn lemma_scaled_mul_le(a: int, b: int)
    requires
        a >= 0,
        0 <= b <= TOKEN_DENOM,
    ensures
        0 <= scaled_mul(a, b) <= a,
        scaled_mul(b, a) == scaled_mul(a, b),
{
    let d = TOKEN_DENOM as int;
    lemma_mul_inequality(b, d, a);
    assert(a * b == b * a && a * d == d * a) by (nonlinear_arith);
    assert(a * b >= 0) by (nonlinear_arith)
        requires
            a >= 0,
            b >= 0,
    ;
    lemma_div_is_ordered(a * b, a * d, d);
    lemma_div_is_ordered(0, a * b, d);
    lemma_fundamental_div_mod_converse(a * d, d, a, 0);
}

/// The fixed-point ratio of a part to its whole is at most one.
pub proof fn lemma_scaled_div_le_one(n: int, t: int)
    requires
        0 <= n <= t,
        t > 0,
    ensures
        0 <= scaled_div(n, t) <= TOKEN_DENOM,
{
    let d = TOKEN_DENOM as int;
    let x = n * d + t / 2;
    lemma_fundamental_div_mod(x, t);
    let q = x / t;
    let r = x % t;
    assert(0 <= q <= d) by (nonlinear_arith)
        requires
            x == t * q + r,
            0 <= r < t,
            x == n * d + t / 2,
            0 <= t / 2 < t,
            0 <= n <= t,
            d > 0,
    ;
}

/// The fixed-point ratio of nothing to a positive whole is zero.
pub proof fn lemma_scaled_div_zero(t: int)
    requires
        t > 0,
    ensures
        scaled_div(0, t) == 0,
{
    lemma_basic_div(t / 2, t);
}

/// Floor division depends on the ratio alone: `a / b == c / d` where
/// `a * d == c * b`.
pub proof fn lemma_div_same_ratio(a: int, b: int, c: int, d: int)
    requires
        a >= 0,
        c >= 0,
        b > 0,
        d > 0,
        a * d == c * b,
    ensures
        a / b == c / d,
{
    lemma_fundamental_div_mod(a, b);
    let q = a / b;
    let r = a % b;
    let r2 = c - d * q;
    assert(r2 * b == r * d) by (nonlinear_arith)
        requires
            a == b * q + r,
            a * d == c * b,
            r2 == c - d * q,
    ;
    assert(0 <= r2 < d) by (nonlinear_arith)
        requires
            r2 * b == r * d,
            0 <= r < b,
            b > 0,
            d > 0,
    ;
    lemma_fundamental_div_mod_converse(c, d, q, r2);
}

/// Rounding half up as one floor division: `(n + m / 2) / m == (2n + m) / 2m`.
pub proof fn lemma_round_half_up(n: int, m: int)
    requires
        n >= 0,
        m > 0,
    ensures
        (n + m / 2) / m == (2 * n + m) / (2 * m),
{
    lemma_fundamental_div_mod(n + m / 2, m);
    let q = (n + m / 2) / m;
    let r = (n + m / 2) % m;
    if m % 2 == 0 {
        assert(2 * n + m == (2 * m) * q + 2 * r) by (nonlinear_arith)
            requires
                n + m / 2 == m * q + r,
                m == 2 * (m / 2),
        ;
        lemma_fundamental_div_mod_converse(2 * n + m, 2 * m, q, 2 * r);
    } else {
        assert(2 * n + m == (2 * m) * q + 2 * r + 1) by (nonlinear_arith)
            requires
                n + m / 2 == m * q + r,
                m == 2 * (m / 2) + 1,
        ;
        lemma_fundamental_div_mod_converse(2 * n + m, 2 * m, q, 2 * r + 1);
    }
}

/// Splits `x * m` by `d` without leaving 128 bits: returns `(q, r)` with
/// `x * m == q * d + r` and `r < d`.
fn mul_divmod_small(x: u128, m: u128, d: u128) -> (res: (u128, u128))
    requires
        x < d,
    ensures
        x * m == res.0 * d + res.1,
        res.1 < d,
        res.0 <= m,
        m > 0 ==> res.0 < m,
    decreases m,
{
    if m == 0 {
        assert(x * m == 0) by (nonlinear_arith)
            requires
                m == 0,
        ;
        return (0, 0);
    }
    let half = m / 2;
    let (q, r) = mul_divmod_small(x, half, d);
    let mut q2: u128;
    let mut r2: u128;
    if r >= d - r {
        q2 = 2 * q + 1;
        r2 = r - (d - r);
    } else {
        q2 = 2 * q;
        r2 = r + r;
    }
    assert(x * (2 * half) == q2 * d + r2) by (nonlinear_arith)
        requires
            x * half == q * d + r,
            r >= d - r ==> q2 == 2 * q + 1 && r2 == r - (d - r),
            r < d - r ==> q2 == 2 * q && r2 == r + r,
    ;
    let ghost q1 = q2;
    let ghost r1 = r2;
    if m % 2 == 1 {
        if r2 >= d - x {
            assert(q2 < 2 * half + 1) by (nonlinear_arith)
                requires
                    x * (2 * half) == q2 * d + r2,
                    x < d,
                    r2 >= 0,
                    half >= 0,
            ;
            q2 = q2 + 1;
            r2 = r2 - (d - x);
        } else {
            r2 = r2 + x;
        }
    }
    let ghost qq = q2;
    assert(x * m == qq * d + r2) by (nonlinear_arith)
        requires
            m == 2 * half + m % 2,
            m % 2 == 0 || m % 2 == 1,
            x * (2 * half) == q1 * d + r1,
            m % 2 == 1 && r1 >= d - x ==> qq == q1 + 1 && r2 == r1 - (d - x),
            m % 2 == 1 && r1 < d - x ==> qq == q1 && r2 == r1 + x,
            m % 2 == 0 ==> qq == q1 && r2 == r1,
    ;
    assert(qq < m) by (nonlinear_arith)
        requires
            x * m == qq * d + r2,
            x < d,
            r2 >= 0,
            m > 0,
    ;
    (q2, r2)
}

/// `(a * m + c) / d`, or `None` where that does not fit in 128 bits. No
/// intermediate value leaves 128 bits.
fn mul_add_div(a: u128, m: u128, c: u128, d: u128) -> (res: Option<u128>)
    requires
        c < d,
    ensures
        match res {
            Some(v) => v == (a * m + c) / (d as int),
            None => (a * m + c) / (d as int) > u128::MAX,
        },
{
    let qa = a / d;
    let ra = a % d;
    proof {
        lemma_fundamental_div_mod(a as int, d as int);
    }
    let (q, r) = mul_divmod_small(ra, m, d);
    let mut q2 = q;
    let mut r2 = r;
    if r >= d - c {
        q2 = q + 1;
        r2 = r - (d - c);
    } else {
        r2 = r + c;
    }
    let ghost g = q2;
    assert(a * m + c == (qa * m + g) * d + r2) by (nonlinear_arith)
        requires
            a == qa * d + ra,
            ra * m == q * d + r,
            r >= d - c ==> g == q + 1 && r2 == r - (d - c),
            r < d - c ==> g == q && r2 == r + c,
    ;
    proof {
        lemma_fundamental_div_mod_converse(a * m + c, d as int, qa * m + g, r2 as int);
    }
    match qa.checked_mul(m) {
        None => {
            assert(qa * m <= qa * m + g);
            None
        },
        Some(p) => p.checked_add(q2),
    }
}

/// Fixed-point division rounded half up: `(a * DENOM + b / 2) / b`,
/// computed without overflow of any intermediate value.
pub fn div_u128(a: u128, b: u128) -> (r: Result<u128, PoolError>)
    ensures
        r == div_result(a, b),
{
    if b == 0 {
        return Err(PoolError::DivisionByZero);
    }
    match mul_add_div(a, TOKEN_DENOM, b / 2, b) {
        Some(v) => Ok(v),
        None => Err(PoolError::ArithmeticOverflow),
    }
}

/// Fixed-point multiplication rounded down: `a * b / DENOM`, computed
/// without overflow of any intermediate value.
pub fn mul_u128(a: u128, b: u128) -> (r: Result<u128, PoolError>)
    ensures
        r == mul_result(a, b),
{
    match mul_add_div(a, b, 0, TOKEN_DENOM) {
        Some(v) => Ok(v),
        None => Err(PoolError::ArithmeticOverflow),
    }
}

/// Integer power: `base` multiplied by itself `exp` times.
pub fn pow_u128(base: u128, exp: u128) -> (r: u128)
    requires
        int_pow(base as int, exp as nat) <= u128::MAX,
    ensures
        r == int_pow(base as int, exp as nat),
{
    if base == 0 {
        return if exp == 0 { 1 } else { 0 };
    }
    let mut acc: u128 = 1;
    let mut i: u128 = 0;
    while i < exp
        invariant
            base >= 1,
            i <= exp,
            acc == int_pow(base as int, i as nat),
            int_pow(base as int, exp as nat) <= u128::MAX,
        decreases exp - i,
    {
        proof {
            lemma_pow_grows(base as int, (i + 1) as nat, exp as nat);
            assert(int_pow(base as int, (i + 1) as nat) == base * int_pow(base as int, i as nat));
            assert(acc * base == base * acc) by (nonlinear_arith);
        }
        acc = acc * base;
        i = i + 1;
    }
    acc
}

proof fn lemma_pow_grows(b: int, i: nat, e: nat)
    requires
        b >= 1,
        i <= e,
    ensures
        1 <= int_pow(b, i) <= int_pow(b, e),
    decreases e,
{
    if e > i {
        lemma_pow_grows(b, i, (e - 1) as nat);
        assert(int_pow(b, (e - 1) as nat) <= b * int_pow(b, (e - 1) as nat)) by (nonlinear_arith)
            requires
                b >= 1,
                int_pow(b, (e - 1) as nat) >= 1,
        ;
    } else if i > 0 {
        lemma_pow_grows(b, (i - 1) as nat, (i - 1) as nat);
        assert(b * int_pow(b, (i - 1) as nat) >= 1) by (nonlinear_arith)
            requires
                b >= 1,
                int_pow(b, (i - 1) as nat) >= 1,
        ;
    }
}

/// Spot price of `token_in` in units of `token_out`:
/// `(bI / wI) / (bO / wO) / (1 - fee)`, each division a `div_u128`.
pub fn calc_spot_price(
    token_balance_in: u128,
    token_weight_in: u128,
    token_balance_out: u128,
    token_weight_out: u128,
    swap_fee: u128,
) -> (r: Result<u128, PoolError>)
    ensures
        r == spot_price_result(
            token_balance_in,
            token_weight_in,
            token_balance_out,
            token_weight_out,
            swap_fee,
        ),
{
    if swap_fee > TOKEN_DENOM {
        return Err(PoolError::FeeOutOfRange);
    }
    let numer = div_u128(token_balance_in, token_weight_in)?;
    let denom = div_u128(token_balance_out, token_weight_out)?;
    let ratio = div_u128(numer, denom)?;
    div_u128(ratio, TOKEN_DENOM - swap_fee)
}

} // verus!
