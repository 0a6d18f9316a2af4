use balancer_pool::constants::TOKEN_DENOM;
use balancer_pool::error::PoolError;
use balancer_pool::math::{calc_spot_price, div_u128, mul_u128, pow_u128};

fn to_token_denom(x: u128) -> u128 {
    x * TOKEN_DENOM
}

#[test]
fn test_pow() {
    let pow_of_2 = pow_u128(2, 2);

    assert_eq!(pow_of_2, 4);
}

#[test]
fn pow_edge_cases() {
    assert_eq!(pow_u128(0, 0), 1);
    assert_eq!(pow_u128(0, 5), 0);
    assert_eq!(pow_u128(1, 1000), 1);
    assert_eq!(pow_u128(3, 4), 81);
    assert_eq!(pow_u128(2, 127), 1u128 << 127);
}

#[test]
fn div_rounds_half_up() {
    assert_eq!(div_u128(to_token_denom(1), to_token_denom(2)), Ok(TOKEN_DENOM / 2));
    assert_eq!(div_u128(1, 3 * TOKEN_DENOM), Ok(0));
    // 2 / (3 * DENOM) scaled is 0.666.. and rounds up to 1
    assert_eq!(div_u128(2, 3 * TOKEN_DENOM), Ok(1));
    assert_eq!(div_u128(to_token_denom(2), 3), Ok(666_666_666_666_666_666_666_666_666_666_666_667));
}

#[test]
fn div_by_zero_fails() {
    assert_eq!(div_u128(5, 0), Err(PoolError::DivisionByZero));
}

#[test]
fn div_needs_wide_intermediate() {
    // a * DENOM overflows 128 bits, the quotient does not
    let a = u128::MAX / 2;
    assert_eq!(div_u128(a, a), Ok(TOKEN_DENOM));
    assert_eq!(div_u128(u128::MAX, 1), Err(PoolError::ArithmeticOverflow));
}

#[test]
fn mul_truncates() {
    assert_eq!(mul_u128(TOKEN_DENOM / 2, to_token_denom(3)), Ok(to_token_denom(3) / 2));
    assert_eq!(mul_u128(TOKEN_DENOM - 1, 1), Ok(0));
    assert_eq!(mul_u128(u128::MAX, TOKEN_DENOM), Ok(u128::MAX));
    assert_eq!(mul_u128(u128::MAX, TOKEN_DENOM + 1), Err(PoolError::ArithmeticOverflow));
}

#[test]
fn spot_price_formula() {
    let d = TOKEN_DENOM;
    assert_eq!(calc_spot_price(100 * d, 20 * d, d, 10 * d, 0), Ok(50 * d));
    // a tenth of fee: the price grows by 1 / 0.9
    assert_eq!(
        calc_spot_price(1000 * d, 10 * d, 1000 * d, 10 * d, d / 10),
        Ok(1_111_111_111_111_111_111)
    );
    assert_eq!(calc_spot_price(d, 0, d, d, 0), Err(PoolError::DivisionByZero));
    assert_eq!(calc_spot_price(d, d, d, d, d), Err(PoolError::DivisionByZero));
    assert_eq!(calc_spot_price(d, d, d, d, d + 1), Err(PoolError::FeeOutOfRange));
}
