use balancer_pool::constants::{INIT_POOL_SUPPLY, TOKEN_DENOM};
use balancer_pool::pool_factory::PoolFactory;

fn alice() -> String {
    "alice".to_string()
}

fn bob() -> String {
    "bob".to_string()
}

fn token_a() -> String {
    "token_a".to_string()
}

fn token_b() -> String {
    "token_b".to_string()
}

fn to_token_denom(x: u128) -> u128 {
    x * TOKEN_DENOM
}

fn swap_fee() -> u128 {
    3 * TOKEN_DENOM / 1000
}

fn create_even_pool() -> (PoolFactory, u64) {
    let mut contract = PoolFactory::init(alice()).unwrap();

    let pool_id = contract.new_pool(&alice(), swap_fee()).unwrap();

    // Token a is stable coin worth $1
    contract
        .bind_pool(&alice(), pool_id, &token_a(), to_token_denom(20), to_token_denom(100))
        .unwrap();

    // Token b is governance token worth $200
    contract
        .bind_pool(&alice(), pool_id, &token_b(), to_token_denom(10), to_token_denom(1))
        .unwrap();
    contract.finalize_pool(&alice(), pool_id).unwrap();

    (contract, pool_id)
}

#[test]
fn test_pool_join() {
    let (mut contract, pool_id) = create_even_pool();

    let price_a = contract.get_pool_spot_price_sans_fee(pool_id, &token_b(), &token_a()).unwrap();
    let price_b = contract.get_pool_spot_price_sans_fee(pool_id, &token_a(), &token_b()).unwrap();

    let expected_price_a = to_token_denom(2) / 100;
    let expected_price_b = to_token_denom(50);

    assert_eq!(expected_price_a, price_a);
    assert_eq!(expected_price_b, price_b);

    let pool_amount_out = to_token_denom(100);
    let max_amounts_in = vec![to_token_denom(100), to_token_denom(1)];
    contract.join_pool(&bob(), pool_id, pool_amount_out, max_amounts_in).unwrap();

    let expected_total_supply = to_token_denom(200);
    let total_supply = contract.get_pool_token_total_supply(pool_id).unwrap();
    assert_eq!(total_supply, expected_total_supply);

    /* Test Pool Token balances */
    let owner_pool_tokens = contract.get_pool_token_balance(pool_id, &alice()).unwrap();
    let joined_pool_tokens = contract.get_pool_token_balance(pool_id, &bob()).unwrap();

    assert_eq!(owner_pool_tokens, INIT_POOL_SUPPLY);
    assert_eq!(joined_pool_tokens, INIT_POOL_SUPPLY);

    /* Test pooled tokens balances */
    let pool_dai_balance = contract.get_pool_balance(pool_id, &token_a()).unwrap();
    let pool_mkr_balance = contract.get_pool_balance(pool_id, &token_b()).unwrap();

    let expected_pool_dai_balance = to_token_denom(200);
    let expected_pool_mkr_balance = to_token_denom(2);

    assert_eq!(pool_dai_balance, expected_pool_dai_balance);
    assert_eq!(pool_mkr_balance, expected_pool_mkr_balance);
}

#[test]
fn test_pool_exit() {
    let (mut contract, pool_id) = create_even_pool();

    let price_a = contract.get_pool_spot_price_sans_fee(pool_id, &token_b(), &token_a()).unwrap();
    let price_b = contract.get_pool_spot_price_sans_fee(pool_id, &token_a(), &token_b()).unwrap();

    let expected_price_a = to_token_denom(2) / 100;
    let expected_price_b = to_token_denom(50);

    assert_eq!(expected_price_a, price_a);
    assert_eq!(expected_price_b, price_b);

    let pool_amount_out = to_token_denom(100);
    let max_amounts_in = vec![to_token_denom(100), to_token_denom(1)];
    contract.join_pool(&bob(), pool_id, pool_amount_out, max_amounts_in).unwrap();

    let owner_pool_tokens = contract.get_pool_token_balance(pool_id, &alice()).unwrap();
    let joined_pool_tokens = contract.get_pool_token_balance(pool_id, &bob()).unwrap();

    assert_eq!(owner_pool_tokens, INIT_POOL_SUPPLY);
    assert_eq!(joined_pool_tokens, INIT_POOL_SUPPLY);

    let pool_tokens_in = to_token_denom(100);
    let min_amounts_out = vec![to_token_denom(100), to_token_denom(1)];

    /* Test exit */
    contract.exit_pool(&bob(), pool_id, pool_tokens_in, min_amounts_out).unwrap();

    let owner_pool_tokens_after_exit = contract.get_pool_token_balance(pool_id, &alice()).unwrap();
    let joined_pool_tokens_after_exit = contract.get_pool_token_balance(pool_id, &bob()).unwrap();

    assert_eq!(owner_pool_tokens_after_exit, INIT_POOL_SUPPLY);
    assert_eq!(joined_pool_tokens_after_exit, 0);

    /* Test pooled tokens balances */
    let pool_dai_balance = contract.get_pool_balance(pool_id, &token_a()).unwrap();
    let pool_mkr_balance = contract.get_pool_balance(pool_id, &token_b()).unwrap();

    let expected_pool_dai_balance = to_token_denom(100);
    let expected_pool_mkr_balance = to_token_denom(1);

    assert_eq!(pool_dai_balance, expected_pool_dai_balance);
    assert_eq!(pool_mkr_balance, expected_pool_mkr_balance);
}
