//! The contract's entry points: instantiation and the messages that change
//! the state.

use vstd::prelude::*;
use crate::error::ContractError;
use crate::execute::claim_rewards::{claim_all, messages_match, reward_keys_view, try_claim_rewards};
use crate::execute::{attempted, executed};
use crate::execute::grant_rewards::{grant_all, keys_view, try_grant_rewards};
use crate::execute::pause_rewards::{pause_all, pause_rewards};
use crate::execute::register_rewards::{args_view, register_all, register_rewards};
use crate::execute::revoke_rewards::{revoke_all, revoke_rewards};
use crate::models::BlockInfo;
use crate::msg::{Action, ExecuteMsg, InstantiateMsg, QueryAnswer, QueryMsg, Response};
use crate::query::get_grants::{get_grants, grants_result};
use crate::query::get_rewards::{get_rewards, rewards_result};
use crate::outcome::{Outcome, Stop};
use crate::state::{initial_state, initialize, ContractState, StateView};

verus! {

/// Instantiates the contract for `sender`, who becomes its creator.
pub fn instantiate(sender: &String, msg: InstantiateMsg) -> (r: (ContractState, Response))
    ensures
        r.0@ == initial_state(sender@),
        r.1.action == Action::Instantiate,
        r.1.messages@.len() == 0,
{
    let state = initialize(sender, &msg);
    (state, Response::new(Action::Instantiate))
}

/// What a message does to the state, by the model of its kind.
pub open spec fn execute_outcome(s: StateView, block: BlockInfo, sender: Seq<char>, msg: ExecuteMsg) -> Outcome<StateView> {
    match msg {
        ExecuteMsg::Register { rewards } => register_all(s, block, sender, args_view(rewards@)),
        ExecuteMsg::Grant { grantee, keys, expiration } => grant_all(s, sender, grantee@, keys_view(keys@), expiration),
        ExecuteMsg::Revoke { grantee, keys } => Outcome::Done(revoke_all(s, sender, grantee@, keys_view(keys@))),
        ExecuteMsg::Pause { keys } => Outcome::Done(pause_all(s, sender, keys_view(keys@))),
        ExecuteMsg::Claim { grants } => match claim_all(s, sender, block, reward_keys_view(grants@)) {
            Outcome::Done((s2, _)) => Outcome::Done(s2),
            Outcome::Fail(e) => Outcome::Fail(e),
            Outcome::Abort => Outcome::Abort,
        },
    }
}

/// The response to a message that succeeded: its action, and the claim
/// messages of a claim (none for the other kinds).
pub open spec fn response_matches(s: StateView, block: BlockInfo, sender: Seq<char>, msg: ExecuteMsg, resp: Response) -> bool {
    match msg {
        ExecuteMsg::Register { .. } => resp.action == Action::Register && resp.messages@.len() == 0,
        ExecuteMsg::Grant { .. } => resp.action == Action::Grant && resp.messages@.len() == 0,
        ExecuteMsg::Revoke { .. } => resp.action == Action::Revoke && resp.messages@.len() == 0,
        ExecuteMsg::Pause { .. } => resp.action == Action::Pause && resp.messages@.len() == 0,
        ExecuteMsg::Claim { grants } => resp.action == Action::Claim && match claim_all(
            s,
            sender,
            block,
            reward_keys_view(grants@),
        ) {
            Outcome::Done((_, groups)) => messages_match(resp.messages@, groups),
            _ => false,
        },
    }
}

/// Runs a message sent by `sender` in `block`, on every input: where the
/// contract would panic on an overflowing amount it stops with
/// `Stop::Overflow`.
pub fn try_execute(state: &mut ContractState, block: &BlockInfo, sender: &String, msg: ExecuteMsg) -> (r: Result<
    Response,
    Stop,
>)
    ensures
        attempted(old(state)@, final(state)@, r, execute_outcome(old(state)@, *block, sender@, msg)),
        r matches Ok(resp) ==> response_matches(old(state)@, *block, sender@, msg, resp),
{
    match msg {
        ExecuteMsg::Register { rewards } => match register_rewards(state, block, sender, rewards) {
            Ok(resp) => Ok(resp),
            Err(e) => Err(Stop::Refused(e)),
        },
        ExecuteMsg::Grant { grantee, keys, expiration } => try_grant_rewards(
            state,
            sender,
            &grantee,
            keys,
            expiration,
        ),
        ExecuteMsg::Revoke { grantee, keys } => match revoke_rewards(state, sender, &grantee, keys) {
            Ok(resp) => Ok(resp),
            Err(e) => Err(Stop::Refused(e)),
        },
        ExecuteMsg::Pause { keys } => match pause_rewards(state, sender, keys) {
            Ok(resp) => Ok(resp),
            Err(e) => Err(Stop::Refused(e)),
        },
        ExecuteMsg::Claim { grants } => try_claim_rewards(state, block, sender, grants),
    }
}

/// Runs a message sent by `sender` in `block`.
pub fn execute(state: &mut ContractState, block: &BlockInfo, sender: &String, msg: ExecuteMsg) -> (r: Result<
    Response,
    ContractError,
>)
    requires
        !(execute_outcome(old(state)@, *block, sender@, msg) is Abort),
    ensures
        executed(old(state)@, final(state)@, r, execute_outcome(old(state)@, *block, sender@, msg)),
        r matches Ok(resp) ==> response_matches(old(state)@, *block, sender@, msg, resp),
{
    match try_execute(state, block, sender, msg) {
        Ok(resp) => Ok(resp),
        Err(Stop::Refused(e)) => Err(e),
        Err(Stop::Overflow) => {
            proof {
                assert(false);
            }
            Err(ContractError::ValidationError {})
        },
    }
}

/// Answers a query: the pages come from the state; a selection of fields is
/// handed back, for the storage's loader to read.
pub fn query(state: &ContractState, msg: QueryMsg) -> (r: Result<QueryAnswer, ContractError>)
    ensures
        match msg {
            QueryMsg::Select { fields } => r == Result::<QueryAnswer, ContractError>::Ok(QueryAnswer::Select { fields }),
            QueryMsg::Rewards { contract, limit, cursor } => match r {
                Ok(QueryAnswer::Rewards(resp)) => rewards_result(state@, contract@, limit, cursor, Ok(resp)),
                Ok(_) => false,
                Err(e) => rewards_result(state@, contract@, limit, cursor, Err(e)),
            },
            QueryMsg::Grants { wallet, limit, cursor } => match r {
                Ok(QueryAnswer::Grants(resp)) => grants_result(state@, wallet@, limit, cursor, Ok(resp)),
                Ok(_) => false,
                Err(e) => grants_result(state@, wallet@, limit, cursor, Err(e)),
            },
        },
{
    match msg {
        QueryMsg::Select { fields } => Ok(QueryAnswer::Select { fields }),
        QueryMsg::Rewards { contract, limit, cursor } => match get_rewards(state, &contract, limit, cursor) {
            Ok(resp) => Ok(QueryAnswer::Rewards(resp)),
            Err(e) => Err(e),
        },
        QueryMsg::Grants { wallet, limit, cursor } => match get_grants(state, &wallet, limit, cursor) {
            Ok(resp) => Ok(QueryAnswer::Grants(resp)),
            Err(e) => Err(e),
        },
    }
}

} // verus!
