//! Pausing rewards that the sender registered.

use vstd::prelude::*;
use crate::error::ContractError;
use crate::execute::grant_rewards::keys_view;
use crate::models::RewardMetadataView;
use crate::msg::{Action, Response};
use crate::seqs::lemma_take_next_contains;
use crate::state::{ContractState, StateView};

verus! {

/// Pausing marks each of the sender's rewards under `keys` that exists as
/// paused, and changes nothing else; keys without a reward are passed over.
pub open spec fn pause_all(s: StateView, sender: Seq<char>, keys: Seq<Seq<char>>) -> StateView {
    StateView {
        rewards: Map::new(
            |k: (Seq<char>, Seq<char>)| s.rewards.contains_key(k),
            |k: (Seq<char>, Seq<char>)|
                if k.0 == sender && keys.contains(k.1) {
                    RewardMetadataView { is_paused: true, ..s.rewards[k] }
                } else {
                    s.rewards[k]
                },
        ),
        ..s
    }
}

/// Pauses the sender's rewards under `keys`.
pub fn pause_rewards(state: &mut ContractState, sender: &String, keys: Vec<String>) -> (r: Result<
    Response,
    ContractError,
>)
    ensures
        final(state)@ == pause_all(old(state)@, sender@, keys_view(keys@)),
        r matches Ok(resp) && resp.action == Action::Pause && resp.messages@.len() == 0,
{
    let ghost ks = keys_view(keys@);
    let ghost start = state@;
    let n = keys.len();
    let mut i: usize = 0;
    assert(pause_all(start, sender@, ks.take(0)).rewards =~= start.rewards);
    while i < n
        invariant
            n == keys@.len(),
            ks == keys_view(keys@),
            i <= n,
            state@ == pause_all(start, sender@, ks.take(i as int)),
        decreases n - i,
    {
        let reward_key = (sender.clone(), keys[i].clone());
        let ghost before = state.rewards@;
        proof {
            lemma_take_next_contains(ks, i as int);
        }
        match state.rewards.take(&reward_key) {
            Some(mut reward) => {
                reward.is_paused = true;
                state.rewards.insert(reward_key, reward);
                assert(state.rewards@ =~= pause_all(start, sender@, ks.take(i + 1)).rewards);
            },
            None => {
                assert(state.rewards@ =~= pause_all(start, sender@, ks.take(i + 1)).rewards);
            },
        }
        i = i + 1;
    }
    assert(ks.take(n as int) =~= ks);
    Ok(Response::new(Action::Pause))
}

} // verus!
