//! Why an operation was refused.
use vstd::prelude::*;

verus! {

/// Every error aborts its operation and leaves the state as it was.
#[derive(Debug, Clone, Copy, PartialEq, Eq, Structural)]
pub enum ContractError {
    /// The sender is not the owner.
    Unauthorized,
    /// The current epoch has not lasted its full duration yet.
    CurrentEpochNotExpired,
    /// Every claimable epoch has already been claimed by this address.
    NothingToClaim,
    /// The grace period is zero or above the protocol maximum.
    InvalidGracePeriod,
    /// A reward exceeds what an epoch still has available.
    InvalidReward,
    /// The fee collector's confirmation carried no epoch, or none was awaited.
    CannotReadEpoch,
    /// A confirmation arrived under an id this contract never issued.
    UnknownReplyId(u64),
    /// An amount, epoch id or time would not fit in its integer type.
    Overflow,
}

} // verus!
