//! The messages that the contract takes and the answers it gives.

use vstd::prelude::*;
use crate::models::{
    Expiration, GrantQueryResult, RewardInitArgs, RewardKey, RewardQueryResult, TokenAmount,
};

verus! {

#[derive(Debug, Clone, Copy, PartialEq, Eq, Structural)]
pub struct InstantiateMsg {}

#[derive(Debug, Clone, PartialEq, Eq)]
pub enum ExecuteMsg {
    Grant { grantee: String, keys: Vec<String>, expiration: Option<Expiration> },
    Revoke { grantee: String, keys: Vec<String> },
    Register { rewards: Vec<RewardInitArgs> },
    Claim { grants: Vec<RewardKey> },
    Pause { keys: Vec<String> },
}

#[derive(Debug, Clone, PartialEq, Eq)]
pub enum QueryMsg {
    Select { fields: Option<Vec<String>> },
    Rewards { contract: String, limit: Option<u8>, cursor: Option<String> },
    Grants { wallet: String, limit: Option<u8>, cursor: Option<RewardKey> },
}

#[derive(Debug, Clone, PartialEq, Eq)]
pub struct SelectResponse {
    pub created_by: Option<String>,
}

#[derive(Debug, Clone, PartialEq, Eq)]
pub struct GrantsResponse {
    pub rewards: Vec<GrantQueryResult>,
    pub cursor: Option<RewardKey>,
}

#[derive(Debug, Clone, PartialEq, Eq)]
pub struct RewardsResponse {
    pub rewards: Vec<RewardQueryResult>,
    pub cursor: Option<String>,
}

/// What a query answers: a page of a contract's rewards, a page of a
/// wallet's grants, or, for a selection, the fields to select, which the
/// storage's loader reads.
#[derive(Debug, Clone, PartialEq, Eq)]
pub enum QueryAnswer {
    Select { fields: Option<Vec<String>> },
    Rewards(RewardsResponse),
    Grants(GrantsResponse),
}

/// The message that a claim sends to each contract whose rewards are claimed.
#[derive(Debug, Clone, PartialEq, Eq)]
pub enum ClaimableExecuteMsgInterface {
    Claim { tokens: Option<Vec<TokenAmount>> },
}

/// A message to be executed by another contract after this one.
#[derive(Debug, Clone, PartialEq, Eq)]
pub struct ClaimMessage {
    pub contract_addr: String,
    pub msg: ClaimableExecuteMsgInterface,
}

/// The value of the `action` attribute of a response.
#[derive(Debug, Clone, Copy, PartialEq, Eq, Structural)]
pub enum Action {
    Instantiate,
    Register,
    Grant,
    Revoke,
    Pause,
    Claim,
}

/// What a successful message answers: the action it took and the messages to
/// send on.
#[derive(Debug, Clone, PartialEq, Eq)]
pub struct Response {
    pub action: Action,
    pub messages: Vec<ClaimMessage>,
}

impl Response {
    /// A response with an action and no messages.
    pub fn new(action: Action) -> (r: Response)
        ensures
            r.action == action,
            r.messages@.len() == 0,
    {
        Response { action, messages: Vec::new() }
    }
}

} // verus!
