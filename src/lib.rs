//! A weighted constant-mean market maker: pools that hold several tokens at
//! configurable weights, price them against one another in fixed-point
//! arithmetic, and issue shares to those who join.
//!
//! - `math`: fixed-point division and multiplication without overflow, and
//!   the spot price formula.
//! - `ledger`: the shares of one pool.
//! - `pool`: the pool's lifecycle and operations, each specified by a
//!   function on `PoolView`.
//! - `laws`: properties that relate several operations.
//! - `pool_factory`: a registry of pools under counted identifiers.

pub mod constants;
pub mod error;
pub mod math;
pub mod ledger;
pub mod pool;
pub mod laws;
pub mod pool_factory;
