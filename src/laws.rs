use vstd::prelude::*;
use vstd::arithmetic::div_mod::lemma_fundamental_div_mod_converse;
use crate::constants::TOKEN_DENOM;
use crate::math::{div_result, lemma_div_same_ratio, lemma_round_half_up, scaled_div};
use crate::error::PoolError;
use crate::pool::{
    bind_result, index_of, lemma_bind_keeps_inv, pool_inv, rebind_result, spot_result,
    unbind_result, PoolView, Record,
};

verus! {

proof fn lemma_last_index(w: PoolView, token: Seq<char>)
    requires
        pool_inv(w),
        w.tokens.len() > 0,
        w.tokens.last() == token,
    ensures
        index_of(w, token) == w.tokens.len() - 1,
        w.tokens.contains(token),
{
    let i = w.tokens.len() - 1;
    let j = index_of(w, token);
    assert(w.tokens[i] == token);
    assert(0 <= j < w.tokens.len() && w.tokens[j] == token);
    if j < i {
        assert(w.tokens[j] != w.tokens[i]);
    }
}

/// Rebinding a freshly bound token to the weight and balance it was bound
/// with succeeds and changes nothing: not the total weight, not the
/// token's record, nor anything else.
pub proof fn lemma_rebind_after_bind_idempotent(
    v: PoolView,
    sender: Seq<char>,
    token: Seq<char>,
    denorm: u128,
    balance: u128,
)
    requires
        pool_inv(v),
        bind_result(v, sender, token, denorm, balance) is Ok,
    ensures
        ({
            let w = bind_result(v, sender, token, denorm, balance)->Ok_0;
            rebind_result(w, sender, token, denorm, balance) == Ok::<PoolView, PoolError>(w)
        }),
{
    let w = bind_result(v, sender, token, denorm, balance)->Ok_0;
    lemma_bind_keeps_inv(v, sender, token, denorm, balance);
    lemma_last_index(w, token);
    let i = w.tokens.len() - 1;
    let rec = w.records[i];
    assert(w.records.update(i, Record { denorm, balance, ..rec }) =~= w.records);
}

/// Unbinding a freshly bound token succeeds and gives back the pool as it
/// was before the bind: the same total weight, and the token no longer
/// among the current tokens.
pub proof fn lemma_unbind_after_bind_restores(
    v: PoolView,
    sender: Seq<char>,
    token: Seq<char>,
    denorm: u128,
    balance: u128,
)
    requires
        pool_inv(v),
        bind_result(v, sender, token, denorm, balance) is Ok,
    ensures
        ({
            let w = bind_result(v, sender, token, denorm, balance)->Ok_0;
            &&& unbind_result(w, sender, token) == Ok::<PoolView, PoolError>(v)
            &&& v.total_weight == unbind_result(w, sender, token)->Ok_0.total_weight
            &&& !unbind_result(w, sender, token)->Ok_0.tokens.contains(token)
        }),
{
    let w = bind_result(v, sender, token, denorm, balance)->Ok_0;
    lemma_bind_keeps_inv(v, sender, token, denorm, balance);
    lemma_last_index(w, token);
    let i = w.tokens.len() - 1;
    assert(w.tokens.update(i, w.tokens[i]).drop_last() =~= v.tokens);
    assert(w.records.update(i, Record { index: i as u64, ..w.records[i] }).drop_last()
        =~= v.records);
}

/// The ratio `balance / weight` of a bound token, in fixed point.
pub open spec fn token_ratio(v: PoolView, token: Seq<char>) -> int {
    let r = v.records[index_of(v, token)];
    scaled_div(r.balance as int, r.denorm as int)
}

proof fn lemma_div_by_denom(x: u128)
    requires
        x <= u128::MAX,
    ensures
        div_result(x, TOKEN_DENOM) == Ok::<u128, PoolError>(x),
{
    let d = TOKEN_DENOM as int;
    lemma_fundamental_div_mod_converse(x * d + d / 2, d, x as int, d / 2);
}

proof fn lemma_exact_div(n: int, m: int, k: int)
    requires
        m > 0,
        n * TOKEN_DENOM == k * m,
    ensures
        scaled_div(n, m) == k,
{
    lemma_fundamental_div_mod_converse(n * TOKEN_DENOM + m / 2, m, k, m / 2);
}

/// The spot price without fee of `a` in `b` is the fixed-point reciprocal
/// of that of `b` in `a`, `scaled_div(DENOM * DENOM, p * DENOM)`, wherever
/// the price of `b` in `a` comes out of its last division without rounding.
pub proof fn lemma_spot_price_reciprocal(v: PoolView, a: Seq<char>, b: Seq<char>)
    requires
        pool_inv(v),
        spot_result(v, a, b, 0) is Ok,
        spot_result(v, b, a, 0) is Ok,
        (token_ratio(v, b) * TOKEN_DENOM) % token_ratio(v, a) == 0,
    ensures
        spot_result(v, a, b, 0)->Ok_0 == scaled_div(
            TOKEN_DENOM * TOKEN_DENOM,
            spot_result(v, b, a, 0)->Ok_0 * TOKEN_DENOM,
        ),
{
    let d = TOKEN_DENOM as int;
    let n = token_ratio(v, a);
    let m = token_ratio(v, b);
    assert(m != 0 && n != 0);
    assert(n > 0 && m > 0);
    // the prices of `a` in `b` and of `b` in `a`, before the division by one
    let k = scaled_div(n, m);
    let j = (m * d) / n;
    vstd::arithmetic::div_mod::lemma_fundamental_div_mod(m * d, n);
    assert(m * d == j * n) by (nonlinear_arith)
        requires
            m * d == n * j + (m * d) % n,
            (m * d) % n == 0,
    ;
    lemma_exact_div(m, n, j);
    lemma_div_by_denom(j as u128);
    lemma_div_by_denom(k as u128);
    assert(j > 0) by (nonlinear_arith)
        requires
            m * d == j * n,
            m > 0,
            n > 0,
            d > 0,
    ;
    assert(j * d > 0) by (nonlinear_arith)
        requires
            j > 0,
            d > 0,
    ;
    assert(n * d >= 0 && d * d * d >= 0) by (nonlinear_arith)
        requires
            n > 0,
            d > 0,
    ;
    lemma_round_half_up(n * d, m);
    lemma_round_half_up(d * d * d, j * d);
    assert((2 * (n * d) + m) * (2 * (j * d)) == (2 * (d * d * d) + j * d) * (2 * m)) by (
    nonlinear_arith)
        requires
            m * d == j * n,
    ;
    lemma_div_same_ratio(2 * (n * d) + m, 2 * m, 2 * (d * d * d) + j * d, 2 * (j * d));
    assert(d * d * d == (d * d) * d) by (nonlinear_arith);
}

} // verus!
