use balancer_pool::constants::{INIT_POOL_SUPPLY, MAX_BOUND_TOKENS, TOKEN_DENOM};
use balancer_pool::error::PoolError;
use balancer_pool::math::div_u128;
use balancer_pool::pool::Pool;

const D: u128 = TOKEN_DENOM;

fn ctl() -> String {
    "controller".to_string()
}

fn id(s: &str) -> String {
    s.to_string()
}

fn open_pool(fee: u128) -> Pool {
    Pool::new(ctl(), 1, fee).unwrap()
}

fn two_token_pool(wa: u128, ba: u128, wb: u128, bb: u128) -> Pool {
    let mut p = open_pool(0);
    p.bind(&ctl(), &id("a"), wa, ba).unwrap();
    p.bind(&ctl(), &id("b"), wb, bb).unwrap();
    p
}

#[test]
fn new_pool_is_open_and_empty() {
    let p = open_pool(D / 100);
    assert!(!p.is_finalized());
    assert_eq!(p.get_num_tokens(), 0);
    assert!(p.get_current_tokens().is_empty());
    assert_eq!(p.get_pool_token_total_supply(), 0);
    assert_eq!(p.get_swap_fee(), D / 100);
    assert_eq!(p.get_controller(), ctl());
    assert!(matches!(Pool::new(ctl(), 1, D / 10 + 1), Err(PoolError::FeeOutOfRange)));
}

#[test]
fn equal_pool_price_is_one() {
    let mut p = two_token_pool(10 * D, 1000 * D, 10 * D, 1000 * D);
    p.finalize(&ctl()).unwrap();
    assert_eq!(p.get_spot_price_sans_fee(&id("a"), &id("b")), Ok(D));
}

#[test]
fn uneven_pool_prices() {
    let p = two_token_pool(20 * D, 100 * D, 10 * D, D);
    assert_eq!(p.get_spot_price_sans_fee(&id("b"), &id("a")), Ok(2 * D / 100));
    assert_eq!(p.get_spot_price_sans_fee(&id("a"), &id("b")), Ok(50 * D));
}

#[test]
fn reciprocal_prices_on_exact_ratios() {
    let p = two_token_pool(20 * D, 100 * D, 10 * D, D);
    let ab = p.get_spot_price_sans_fee(&id("a"), &id("b")).unwrap();
    let ba = p.get_spot_price_sans_fee(&id("b"), &id("a")).unwrap();
    assert_eq!(div_u128(D * D, ba * D), Ok(ab));
}

#[test]
fn spot_price_of_unbound_token_fails() {
    let p = two_token_pool(20 * D, 100 * D, 10 * D, D);
    assert_eq!(p.get_spot_price(&id("a"), &id("z")), Err(PoolError::NotBound));
    assert_eq!(p.get_spot_price_sans_fee(&id("z"), &id("a")), Err(PoolError::NotBound));
}

#[test]
fn join_doubles_an_equal_pool() {
    let mut p = two_token_pool(10 * D, 100 * D, 10 * D, D);
    p.finalize(&ctl()).unwrap();
    assert_eq!(p.get_pool_token_total_supply(), 100 * D);
    p.join_pool(&id("bob"), 100 * D, vec![100 * D, D]).unwrap();
    assert_eq!(p.get_balance(&id("a")), Ok(200 * D));
    assert_eq!(p.get_balance(&id("b")), Ok(2 * D));
    assert_eq!(p.get_pool_token_balance(&id("bob")), 100 * D);
    assert_eq!(p.get_pool_token_total_supply(), 200 * D);
}

#[test]
fn exit_beyond_holdings_fails_unchanged() {
    let mut p = two_token_pool(10 * D, 100 * D, 10 * D, D);
    p.finalize(&ctl()).unwrap();
    p.join_pool(&id("bob"), 10 * D, vec![10 * D, D]).unwrap();
    let r = p.exit_pool(&id("bob"), 10 * D + 1, vec![0, 0]);
    assert_eq!(r, Err(PoolError::InsufficientBalance));
    assert_eq!(p.get_balance(&id("a")), Ok(110 * D));
    assert_eq!(p.get_balance(&id("b")), Ok(D + D / 10));
    assert_eq!(p.get_pool_token_balance(&id("bob")), 10 * D);
    assert_eq!(p.get_pool_token_total_supply(), 110 * D);
    let r = p.exit_pool(&id("nobody"), 1, vec![0, 0]);
    assert_eq!(r, Err(PoolError::InsufficientBalance));
}

#[test]
fn limits_of_wrong_length_fail_unchanged() {
    let mut p = two_token_pool(10 * D, 100 * D, 10 * D, D);
    p.finalize(&ctl()).unwrap();
    assert_eq!(p.join_pool(&id("bob"), D, vec![D]), Err(PoolError::AmountsLengthMismatch));
    assert_eq!(
        p.exit_pool(&ctl(), D, vec![0, 0, 0]),
        Err(PoolError::AmountsLengthMismatch)
    );
    assert_eq!(p.get_balance(&id("a")), Ok(100 * D));
    assert_eq!(p.get_pool_token_balance(&ctl()), INIT_POOL_SUPPLY);
    assert_eq!(p.get_pool_token_total_supply(), INIT_POOL_SUPPLY);
}

#[test]
fn finalize_with_one_token_fails() {
    let mut p = open_pool(0);
    p.bind(&ctl(), &id("a"), D, D).unwrap();
    assert_eq!(p.finalize(&ctl()), Err(PoolError::InsufficientTokens));
    assert!(!p.is_finalized());
    assert_eq!(p.get_pool_token_total_supply(), 0);
}

#[test]
fn finalize_checks_caller_and_state() {
    let mut p = two_token_pool(D, D, D, D);
    assert_eq!(p.finalize(&id("mallory")), Err(PoolError::Unauthorized));
    p.finalize(&ctl()).unwrap();
    assert_eq!(p.finalize(&ctl()), Err(PoolError::InvalidLifecycleState));
    assert_eq!(p.get_pool_token_balance(&ctl()), INIT_POOL_SUPPLY);
    assert_eq!(p.bind(&ctl(), &id("c"), D, D), Err(PoolError::InvalidLifecycleState));
    assert_eq!(p.rebind(&ctl(), &id("a"), D, D), Err(PoolError::InvalidLifecycleState));
    assert_eq!(p.unbind(&ctl(), &id("a")), Err(PoolError::InvalidLifecycleState));
}

#[test]
fn join_and_exit_need_a_finalized_pool() {
    let mut p = two_token_pool(D, D, D, D);
    assert_eq!(p.join_pool(&ctl(), D, vec![D, D]), Err(PoolError::InvalidLifecycleState));
    assert_eq!(p.exit_pool(&ctl(), D, vec![0, 0]), Err(PoolError::InvalidLifecycleState));
    assert!(matches!(p.get_final_tokens(), Err(PoolError::InvalidLifecycleState)));
}

#[test]
fn rebind_after_bind_with_same_values_changes_nothing() {
    let mut p = open_pool(0);
    p.bind(&ctl(), &id("a"), 3 * D, 7 * D).unwrap();
    p.bind(&ctl(), &id("b"), 5 * D, 11 * D).unwrap();
    let before = p.get_current_tokens();
    p.rebind(&ctl(), &id("b"), 5 * D, 11 * D).unwrap();
    assert_eq!(p.get_current_tokens(), before);
    assert_eq!(p.get_balance(&id("b")), Ok(11 * D));
    // total weight is unchanged: exactly 42 more units of weight fit
    assert_eq!(p.bind(&ctl(), &id("c"), 42 * D + 1, D), Err(PoolError::TotalWeightExceeded));
    p.bind(&ctl(), &id("c"), 42 * D, D).unwrap();
}

#[test]
fn unbind_after_bind_restores_the_pool() {
    let mut p = open_pool(0);
    p.bind(&ctl(), &id("a"), 30 * D, D).unwrap();
    p.bind(&ctl(), &id("b"), 20 * D, D).unwrap();
    p.unbind(&ctl(), &id("b")).unwrap();
    assert_eq!(p.get_current_tokens(), vec![id("a")]);
    assert!(!p.is_bound(&id("b")));
    // the weight of b is free again
    p.bind(&ctl(), &id("c"), 20 * D, D).unwrap();
}

#[test]
fn unbind_moves_the_last_token() {
    let mut p = open_pool(0);
    p.bind(&ctl(), &id("a"), D, D).unwrap();
    p.bind(&ctl(), &id("b"), D, 2 * D).unwrap();
    p.bind(&ctl(), &id("c"), D, 3 * D).unwrap();
    p.unbind(&ctl(), &id("a")).unwrap();
    assert_eq!(p.get_current_tokens(), vec![id("c"), id("b")]);
    assert_eq!(p.get_balance(&id("c")), Ok(3 * D));
    assert_eq!(p.unbind(&ctl(), &id("a")), Err(PoolError::NotBound));
}

#[test]
fn bind_errors() {
    let mut p = open_pool(0);
    assert_eq!(p.bind(&id("mallory"), &id("a"), D, D), Err(PoolError::Unauthorized));
    assert_eq!(p.bind(&ctl(), &id("a"), D - 1, D), Err(PoolError::WeightOutOfRange));
    assert_eq!(p.bind(&ctl(), &id("a"), 50 * D + 1, D), Err(PoolError::WeightOutOfRange));
    assert_eq!(p.bind(&ctl(), &id("a"), D, D / 1_000_000_000_000 - 1), Err(PoolError::BalanceTooLow));
    p.bind(&ctl(), &id("a"), D, D).unwrap();
    assert_eq!(p.bind(&ctl(), &id("a"), D, D), Err(PoolError::AlreadyBound));
    assert_eq!(p.get_num_tokens(), 1);
    assert_eq!(p.rebind(&ctl(), &id("z"), D, D), Err(PoolError::NotBound));
    assert_eq!(p.rebind(&id("mallory"), &id("a"), D, D), Err(PoolError::Unauthorized));
    assert_eq!(p.rebind(&ctl(), &id("a"), D, 0), Err(PoolError::BalanceTooLow));
}

#[test]
fn bind_beyond_capacity_fails() {
    let mut p = open_pool(0);
    let names = ["t0", "t1", "t2", "t3", "t4", "t5", "t6", "t7", "t8"];
    for n in names.iter().take(MAX_BOUND_TOKENS as usize) {
        p.bind(&ctl(), &id(n), D, D).unwrap();
    }
    assert_eq!(p.bind(&ctl(), &id("t8"), D, D), Err(PoolError::CapacityExceeded));
}

#[test]
fn join_and_exit_slippage_and_rounding() {
    let mut p = two_token_pool(10 * D, 100 * D, 10 * D, D);
    p.finalize(&ctl()).unwrap();
    assert_eq!(p.join_pool(&id("bob"), 100 * D, vec![100 * D, D - 1]), Err(PoolError::SlippageExceeded));
    assert_eq!(p.join_pool(&id("bob"), 0, vec![0, 0]), Err(PoolError::RoundingTooCoarse));
    assert_eq!(p.get_balance(&id("a")), Ok(100 * D));
    assert_eq!(p.exit_pool(&ctl(), 50 * D, vec![50 * D + 1, 0]), Err(PoolError::SlippageExceeded));
    assert_eq!(p.exit_pool(&ctl(), 0, vec![0, 0]), Err(PoolError::RoundingTooCoarse));
    p.exit_pool(&ctl(), 50 * D, vec![50 * D, D / 2]).unwrap();
    assert_eq!(p.get_balance(&id("a")), Ok(50 * D));
    assert_eq!(p.get_balance(&id("b")), Ok(D / 2));
    assert_eq!(p.get_pool_token_total_supply(), 50 * D);
}

#[test]
fn spot_price_with_and_without_fee() {
    let mut p = Pool::new(ctl(), 1, D / 10).unwrap();
    p.bind(&ctl(), &id("a"), 10 * D, 1000 * D).unwrap();
    p.bind(&ctl(), &id("b"), 10 * D, 1000 * D).unwrap();
    assert_eq!(p.spot_price(&id("a"), &id("b"), false), Ok(D));
    // divided by (1 - 0.1)
    assert_eq!(p.spot_price(&id("a"), &id("b"), true), Ok(1_111_111_111_111_111_111));
    assert_eq!(p.get_spot_price(&id("a"), &id("b")), Ok(1_111_111_111_111_111_111));
}
