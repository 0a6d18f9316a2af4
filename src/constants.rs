use vstd::prelude::*;

verus! {

/// The fixed-point scale: one whole unit of any amount, weight or fee.
pub const TOKEN_DENOM: u128 = 1_000_000_000_000_000_000;

/// Fewest tokens a pool must hold before it can be finalized.
pub const MIN_BOUND_TOKENS: u64 = 2;

/// Most tokens a pool may hold.
pub const MAX_BOUND_TOKENS: u64 = 8;

/// Lowest swap fee a pool may be created with.
pub const MIN_FEE: u128 = 0;

/// Highest swap fee a pool may be created with (a tenth).
pub const MAX_FEE: u128 = TOKEN_DENOM / 10;

/// Fraction of the shares handed in on exit that the pool keeps.
pub const EXIT_FEE: u128 = 0;

/// Lowest weight of a bound token.
pub const MIN_WEIGHT: u128 = TOKEN_DENOM;

/// Highest weight of a bound token.
pub const MAX_WEIGHT: u128 = TOKEN_DENOM * 50;

/// Highest sum of the weights of all bound tokens.
pub const MAX_TOTAL_WEIGHT: u128 = TOKEN_DENOM * 50;

/// Lowest balance a token may be bound or rebound with.
pub const MIN_BALANCE: u128 = TOKEN_DENOM / 1_000_000_000_000;

/// Shares minted to the controller when the pool is finalized.
pub const INIT_POOL_SUPPLY: u128 = TOKEN_DENOM * 100;

} // verus!
