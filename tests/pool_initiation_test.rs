use balancer_pool::constants::{INIT_POOL_SUPPLY, TOKEN_DENOM};
use balancer_pool::error::PoolError;
use balancer_pool::pool_factory::PoolFactory;

fn alice() -> String {
    "alice".to_string()
}

fn token_a() -> String {
    "token_a".to_string()
}

fn token_b() -> String {
    "token_b".to_string()
}

fn to_token_denom(x: u128) -> u128 {
    x * TOKEN_DENOM
}

fn swap_fee() -> u128 {
    3 * TOKEN_DENOM / 1000
}

#[test]
fn pool_initial_state_test() {
    let mut contract = PoolFactory::init(alice()).unwrap();

    let pool_id = contract.new_pool(&alice(), swap_fee()).unwrap();
    assert_eq!(contract.pool_is_finalized(pool_id), Ok(false));
    assert_eq!(contract.get_pool_num_tokens(pool_id), Ok(0));
    assert_eq!(contract.get_pool_current_tokens(pool_id).unwrap().len(), 0);
    assert_eq!(contract.get_pool_current_tokens(pool_id).unwrap().len(), 0);
}

#[test]
fn bind_and_finalize_valid_pool() {
    let mut contract = PoolFactory::init(alice()).unwrap();

    let pool_id = contract.new_pool(&alice(), swap_fee()).unwrap();

    contract
        .bind_pool(&alice(), pool_id, &token_a(), to_token_denom(5), to_token_denom(1000))
        .unwrap();

    contract
        .bind_pool(&alice(), pool_id, &token_b(), to_token_denom(5), to_token_denom(1000))
        .unwrap();

    contract.finalize_pool(&alice(), pool_id).unwrap();

    let tokens = contract.get_pool_final_tokens(pool_id).unwrap();
    assert_eq!(tokens.len(), 2);
}

#[test]
fn bind_rebind_finalize_valid_pool() {
    let mut contract = PoolFactory::init(alice()).unwrap();

    let pool_id = contract.new_pool(&alice(), swap_fee()).unwrap();

    // Bind token_a
    contract
        .bind_pool(&alice(), pool_id, &token_a(), to_token_denom(5), to_token_denom(1000))
        .unwrap();

    // Bind token_b
    contract
        .bind_pool(&alice(), pool_id, &token_b(), to_token_denom(5), to_token_denom(1000))
        .unwrap();

    // Rebind token_b
    contract
        .rebind_pool(&alice(), pool_id, &token_b(), to_token_denom(10), to_token_denom(300))
        .unwrap();

    contract.finalize_pool(&alice(), pool_id).unwrap();

    let tokens = contract.get_pool_final_tokens(pool_id).unwrap();
    assert_eq!(tokens.len(), 2);

    let balance_b = contract.get_pool_balance(pool_id, &token_b());

    assert_eq!(balance_b, Ok(to_token_denom(300)));

    let owner_pool_tokens = contract.get_pool_token_balance(pool_id, &alice()).unwrap();
    assert_eq!(owner_pool_tokens, INIT_POOL_SUPPLY);
}

#[test]
fn get_non_existing_pool_info_test() {
    let contract = PoolFactory::init(alice()).unwrap();
    assert_eq!(contract.pool_is_finalized(1), Err(PoolError::NoPool));
}

#[test]
fn pool_final_tokens_fail_test() {
    let mut contract = PoolFactory::init(alice()).unwrap();

    let pool_id = contract.new_pool(&alice(), swap_fee()).unwrap();
    assert!(matches!(
        contract.get_pool_final_tokens(pool_id),
        Err(PoolError::InvalidLifecycleState)
    ));
}

#[test]
fn token_is_bound_through_registry() {
    let mut contract = PoolFactory::init(alice()).unwrap();
    let pool_id = contract.new_pool(&alice(), swap_fee()).unwrap();
    contract
        .bind_pool(&alice(), pool_id, &token_a(), to_token_denom(5), to_token_denom(10))
        .unwrap();
    assert_eq!(contract.pool_token_is_bound(&token_a(), pool_id), Ok(true));
    assert_eq!(contract.pool_token_is_bound(&token_b(), pool_id), Err(PoolError::NotBound));
    contract.unbind_pool(&alice(), pool_id, &token_a()).unwrap();
    assert_eq!(contract.pool_token_is_bound(&token_a(), pool_id), Err(PoolError::NotBound));
    assert_eq!(contract.get_pool_balance(pool_id, &token_a()), Err(PoolError::NotBound));
}
