//! The contract's state: who created it, the registered rewards, the grants,
//! and the per-wallet claim totals of each token.

use vstd::prelude::*;
use crate::models::{
    ClaimTotals, ClaimTotalsView, Grant, GrantKey, RewardKey, RewardMetadata, RewardMetadataView,
};
use crate::msg::InstantiateMsg;
use crate::table::Table;

verus! {

/// Registered rewards by (contract, key).
pub type RewardsMap = Map<(Seq<char>, Seq<char>), RewardMetadataView>;

/// Grants by (wallet, (contract, key)).
pub type GrantsMap = Map<(Seq<char>, (Seq<char>, Seq<char>)), Grant>;

/// Claim totals by (wallet, token key).
pub type TotalsMap = Map<(Seq<char>, Seq<char>), ClaimTotalsView>;

/// The state as maps from the keys' strings to the values' views.
#[verifier::ext_equal]
pub struct StateView {
    pub created_by: Seq<char>,
    /// (contract, key) to the reward that the contract registered under key.
    pub rewards: RewardsMap,
    /// (wallet, (contract, key)) to the wallet's grant of that reward.
    pub grants: GrantsMap,
    /// (wallet, token key) to the wallet's totals of that token.
    pub claim_totals: TotalsMap,
}

pub struct ContractState {
    pub created_by: String,
    pub rewards: Table<RewardKey, RewardMetadata>,
    pub grants: Table<GrantKey, Grant>,
    pub claim_totals: Table<(String, String), ClaimTotals>,
}

impl View for ContractState {
    type V = StateView;

    open spec fn view(&self) -> StateView {
        StateView {
            created_by: self.created_by@,
            rewards: self.rewards@,
            grants: self.grants@,
            claim_totals: self.claim_totals@,
        }
    }
}

/// The state of a contract just created by `sender`.
pub open spec fn initial_state(sender: Seq<char>) -> StateView {
    StateView {
        created_by: sender,
        rewards: Map::empty(),
        grants: Map::empty(),
        claim_totals: Map::empty(),
    }
}

/// Creates the state of a contract instantiated by `sender`.
pub fn initialize(sender: &String, _msg: &InstantiateMsg) -> (s: ContractState)
    ensures
        s@ == initial_state(sender@),
{
    ContractState {
        created_by: sender.clone(),
        rewards: Table::new(),
        grants: Table::new(),
        claim_totals: Table::new(),
    }
}

/// Whether `addr` created the contract.
pub fn is_owner(state: &ContractState, addr: &String) -> (r: bool)
    ensures
        r == (state@.created_by == addr@),
{
    state.created_by == *addr
}

} // verus!
