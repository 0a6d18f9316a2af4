use vstd::prelude::*;

verus! {

/// Every way in which an operation of the pool, its share ledger or the
/// registry of pools can refuse to act. A refused operation changes nothing.
#[derive(Clone, Copy, Debug, PartialEq, Eq, Structural)]
pub enum PoolError {
    /// The caller is not the controller (or owner) that the operation needs.
    Unauthorized,
    /// The pool is finalized where it must be open, or open where it must be finalized.
    InvalidLifecycleState,
    /// A swap fee outside the allowed range.
    FeeOutOfRange,
    /// A token weight outside the allowed range.
    WeightOutOfRange,
    /// A token balance under the allowed minimum.
    BalanceTooLow,
    /// The sum of the weights would pass its maximum.
    TotalWeightExceeded,
    /// The pool already holds as many tokens as it may.
    CapacityExceeded,
    /// Too few tokens are bound to finalize the pool.
    InsufficientTokens,
    /// The token is not bound to the pool.
    NotBound,
    /// The token is already bound to the pool.
    AlreadyBound,
    /// A fixed-point division by zero.
    DivisionByZero,
    /// A ratio or an amount rounded down to zero.
    RoundingTooCoarse,
    /// An amount passed the limit that the caller gave.
    SlippageExceeded,
    /// The participant holds fewer shares than the operation takes.
    InsufficientBalance,
    /// One limit per bound token was expected.
    AmountsLengthMismatch,
    /// Minting zero shares.
    ZeroAmount,
    /// A result does not fit in 128 bits.
    ArithmeticOverflow,
    /// The account identifier is malformed.
    InvalidAccountId,
    /// No pool has the given identifier.
    NoPool,
}

} // verus!
