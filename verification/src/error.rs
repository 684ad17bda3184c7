//! The ways in which a message to the contract is refused.

use vstd::prelude::*;

verus! {

#[derive(Debug, Clone, Copy, PartialEq, Eq, Structural)]
pub enum ContractError {
    NotAuthorized {},
    AlreadyExists {},
    CursorOutOfBounds {},
    GrantExpired {},
    GrantNotFound {},
    RewardNotFound {},
    EmptyRewards {},
    InvalidRewardAmount {},
    ValidationError {},
    InvalidExpiration {},
}

} // verus!
