//! Registering rewards under the sending contract's address.

use vstd::prelude::*;
use crate::error::ContractError;
use crate::execute::executed;
use crate::models::{
    copy_amounts, copy_opt_str, expiration_reached, BlockInfo, Expiration,
    RewardInitArgs, RewardInitArgsView, RewardMetadata, RewardMetadataView, RewardKey,
    TokenAmountView,
};
use crate::msg::{Action, Response};
use crate::outcome::{fold_outcome, lemma_fold_empty, lemma_fold_next, lemma_fold_stuck, lemma_fold_whole, Outcome};
use crate::state::{ContractState, RewardsMap, StateView};
use crate::table::{DeepCopy, Table};

verus! {

/// A reward pays something: it has tokens, and no amount is zero.
pub open spec fn amounts_valid(tokens: Seq<TokenAmountView>) -> bool {
    &&& tokens.len() > 0
    &&& forall|i: int| 0 <= i < tokens.len() ==> (#[trigger] tokens[i]).amount != 0
}

/// The reward that `args` registers.
pub open spec fn new_reward(args: RewardInitArgsView) -> RewardMetadataView {
    RewardMetadataView {
        claims_processed: 0,
        claims_remaining: args.count,
        message: args.message,
        tokens: args.tokens,
        is_paused: false,
    }
}

/// Registering one reward: its expiration must lie after the block, its
/// amounts must be valid, and its key must be new for the sender.
pub open spec fn register_one(
    rewards: RewardsMap,
    block: BlockInfo,
    sender: Seq<char>,
    args: RewardInitArgsView,
) -> Outcome<RewardsMap> {
    if expiration_reached(args.expires_at, block) {
        Outcome::Fail(ContractError::InvalidExpiration {})
    } else if !amounts_valid(args.tokens) {
        Outcome::Fail(ContractError::InvalidRewardAmount {})
    } else if rewards.contains_key((sender, args.key)) {
        Outcome::Fail(ContractError::AlreadyExists {})
    } else {
        Outcome::Done(rewards.insert((sender, args.key), new_reward(args)))
    }
}

pub open spec fn register_step(block: BlockInfo, sender: Seq<char>) -> spec_fn(
    RewardsMap,
    RewardInitArgsView,
) -> Outcome<RewardsMap> {
    |m: RewardsMap, a: RewardInitArgsView| register_one(m, block, sender, a)
}

pub open spec fn args_view(v: Seq<RewardInitArgs>) -> Seq<RewardInitArgsView> {
    v.map_values(|a: RewardInitArgs| a@)
}

/// Registering a list of rewards, one after the other; the first refusal
/// refuses the whole message.
pub open spec fn register_all(
    s: StateView,
    block: BlockInfo,
    sender: Seq<char>,
    args: Seq<RewardInitArgsView>,
) -> Outcome<StateView> {
    match fold_outcome(s.rewards, args, register_step(block, sender)) {
        Outcome::Done(m) => Outcome::Done(StateView { rewards: m, ..s }),
        Outcome::Fail(e) => Outcome::Fail(e),
        Outcome::Abort => Outcome::Abort,
    }
}

fn register_reward(
    rewards: &mut Table<RewardKey, RewardMetadata>,
    block: &BlockInfo,
    sender: &String,
    args: &RewardInitArgs,
) -> (r: Result<(), ContractError>)
    ensures
        match register_one(old(rewards)@, *block, sender@, args@) {
            Outcome::Done(m) => final(rewards)@ == m && r is Ok,
            Outcome::Fail(e) => final(rewards)@ == old(rewards)@ && r == Result::<(), ContractError>::Err(e),
            Outcome::Abort => false,
        },
{
    // the expiration must lie after the current block
    if let Some(expires_at) = &args.expires_at {
        match expires_at {
            Expiration::Time(time) => {
                if *time <= block.time {
                    return Err(ContractError::InvalidExpiration {});
                }
            },
            Expiration::Height(height) => {
                if *height <= block.height {
                    return Err(ContractError::InvalidExpiration {});
                }
            },
        }
    }
    assert(!expiration_reached(args@.expires_at, *block));
    // a reward must pay something, and no amount may be zero
    let n = args.tokens.len();
    if n == 0 {
        assert(args@.tokens.len() == 0);
        return Err(ContractError::InvalidRewardAmount {});
    }
    let mut j: usize = 0;
    while j < n
        invariant
            n == args.tokens@.len(),
            j <= n,
            !expiration_reached(args@.expires_at, *block),
            forall|i: int| 0 <= i < j ==> args.tokens@[i].amount != 0,
        decreases n - j,
    {
        if args.tokens[j].amount == 0 {
            assert(args@.tokens[j as int].amount == 0);
            return Err(ContractError::InvalidRewardAmount {});
        }
        j = j + 1;
    }
    assert(amounts_valid(args@.tokens));
    let key: RewardKey = (sender.clone(), args.key.clone());
    if rewards.contains(&key) {
        return Err(ContractError::AlreadyExists {});
    }
    let meta = RewardMetadata {
        claims_processed: 0,
        is_paused: false,
        message: copy_opt_str(&args.message),
        claims_remaining: args.count,
        tokens: copy_amounts(&args.tokens),
    };
    assert(meta@ == new_reward(args@));
    rewards.insert(key, meta);
    Ok(())
}

/// Registers `rewards` under the sender's address.
pub fn register_rewards(
    state: &mut ContractState,
    block: &BlockInfo,
    sender: &String,
    rewards: Vec<RewardInitArgs>,
) -> (r: Result<Response, ContractError>)
    ensures
        executed(old(state)@, final(state)@, r, register_all(old(state)@, *block, sender@, args_view(rewards@))),
        r matches Ok(resp) ==> resp.action == Action::Register && resp.messages@.len() == 0,
{
    let ghost args = args_view(rewards@);
    let ghost step = register_step(*block, sender@);
    let mut table = state.rewards.deep_copy();
    let n = rewards.len();
    let mut i: usize = 0;
    proof {
        lemma_fold_empty(state.rewards@, args, step);
    }
    while i < n
        invariant
            n == rewards@.len(),
            args == args_view(rewards@),
            step == register_step(*block, sender@),
            i <= n,
            fold_outcome(state.rewards@, args.take(i as int), step) == Outcome::Done(table@),
        decreases n - i,
    {
        proof {
            lemma_fold_next(state.rewards@, args, step, i as int);
        }
        match register_reward(&mut table, block, sender, &rewards[i]) {
            Ok(()) => {},
            Err(e) => {
                proof {
                    lemma_fold_stuck(state.rewards@, args, step, i + 1);
                }
                return Err(e);
            },
        }
        i = i + 1;
    }
    proof {
        lemma_fold_whole(state.rewards@, args, step);
    }
    state.rewards = table;
    Ok(Response::new(Action::Register))
}

} // verus!
