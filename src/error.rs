use vstd::prelude::*;

verus! {

/// Why a ledger operation was refused. A refused operation leaves the vault as it was.
#[derive(Clone, Copy, Debug, PartialEq, Eq, Structural)]
pub enum StakingError {
    /// An overflow or underflow in the bookkeeping, or a clock that went backward.
    ArithmeticFault,
    /// A new identity tried to stake while the registry was full.
    CapacityExceeded,
    /// An unstake asked for more than the identity has staked.
    InsufficientStake,
    /// An unstake named an identity that is not in the registry.
    NotFound,
    /// A stake of nothing.
    ZeroAmount,
}

} // verus!
