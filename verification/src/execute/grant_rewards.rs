//! Granting a wallet the right to claim rewards that the sender registered.

use vstd::prelude::*;
use crate::error::ContractError;
use crate::execute::{attempted, executed};
use crate::models::{
    token_key, ClaimTotals, ClaimTotalsView, Expiration, Grant, GrantKey, RewardKey,
    RewardMetadata, TokenAmountView,
};
use crate::msg::{Action, Response};
use crate::outcome::{
    fold_outcome, lemma_fold_empty, lemma_fold_next, lemma_fold_stuck, lemma_fold_whole, stopped_as, Outcome,
    Stop,
};
use crate::state::{ContractState, StateView, TotalsMap};
use crate::table::{DeepCopy, Table};

verus! {

/// Adds a granted amount to the grantee's totals of its token, opening the
/// totals at that amount where there are none yet. The addition panics on
/// overflow.
pub open spec fn add_granted(totals: TotalsMap, grantee: Seq<char>, ta: TokenAmountView) -> Outcome<TotalsMap> {
    let k = (grantee, token_key(ta.token));
    if totals.contains_key(k) {
        let t = totals[k];
        if t.amount_granted + ta.amount > u128::MAX {
            Outcome::Abort
        } else {
            Outcome::Done(
                totals.insert(k, ClaimTotalsView { amount_granted: (t.amount_granted + ta.amount) as u128, ..t }),
            )
        }
    } else {
        Outcome::Done(
            totals.insert(k, ClaimTotalsView { token: ta.token, amount_claimed: 0, amount_granted: ta.amount }),
        )
    }
}

pub open spec fn add_granted_step(grantee: Seq<char>) -> spec_fn(TotalsMap, TokenAmountView) -> Outcome<TotalsMap> {
    |t: TotalsMap, ta: TokenAmountView| add_granted(t, grantee, ta)
}

/// Granting one reward of the sender: the reward must exist; each of its
/// amounts is added to the grantee's granted totals, and the grant is set,
/// replacing an earlier grant of the same reward.
pub open spec fn grant_one(
    s: StateView,
    sender: Seq<char>,
    grantee: Seq<char>,
    expires_at: Option<Expiration>,
    key: Seq<char>,
) -> Outcome<StateView> {
    let rk = (sender, key);
    if !s.rewards.contains_key(rk) {
        Outcome::Fail(ContractError::RewardNotFound {})
    } else {
        match fold_outcome(s.claim_totals, s.rewards[rk].tokens, add_granted_step(grantee)) {
            Outcome::Done(t) => Outcome::Done(
                StateView {
                    claim_totals: t,
                    grants: s.grants.insert((grantee, rk), Grant { expires_at }),
                    ..s
                },
            ),
            Outcome::Fail(e) => Outcome::Fail(e),
            Outcome::Abort => Outcome::Abort,
        }
    }
}

pub open spec fn grant_step(sender: Seq<char>, grantee: Seq<char>, expires_at: Option<Expiration>) -> spec_fn(
    StateView,
    Seq<char>,
) -> Outcome<StateView> {
    |s: StateView, k: Seq<char>| grant_one(s, sender, grantee, expires_at, k)
}

pub open spec fn keys_view(v: Seq<String>) -> Seq<Seq<char>> {
    v.map_values(|k: String| k@)
}

/// Granting a list of rewards, one after the other; the first refusal
/// refuses the whole message.
pub open spec fn grant_all(
    s: StateView,
    sender: Seq<char>,
    grantee: Seq<char>,
    keys: Seq<Seq<char>>,
    expires_at: Option<Expiration>,
) -> Outcome<StateView> {
    fold_outcome(s, keys, grant_step(sender, grantee, expires_at))
}

fn grant_reward(
    created_by: Ghost<Seq<char>>,
    rewards: &Table<RewardKey, RewardMetadata>,
    grants: &mut Table<GrantKey, Grant>,
    totals: &mut Table<(String, String), ClaimTotals>,
    sender: &String,
    grantee: &String,
    key: &String,
    expires_at: &Option<Expiration>,
) -> (r: Result<(), Stop>)
    ensures
        match grant_one(
            StateView { created_by: created_by@, rewards: rewards@, grants: old(grants)@, claim_totals: old(totals)@ },
            sender@,
            grantee@,
            *expires_at,
            key@,
        ) {
            Outcome::Done(s) => final(grants)@ == s.grants && final(totals)@ == s.claim_totals && r is Ok,
            Outcome::Fail(e) => {
                &&& final(grants)@ == old(grants)@
                &&& final(totals)@ == old(totals)@
                &&& r == Result::<(), Stop>::Err(Stop::Refused(e))
            },
            Outcome::Abort => r == Result::<(), Stop>::Err(Stop::Overflow),
        },
{
    let reward_key: RewardKey = (sender.clone(), key.clone());
    match rewards.get(&reward_key) {
        None => Err(Stop::Refused(ContractError::RewardNotFound {})),
        Some(reward) => {
            let ghost tokens = reward@.tokens;
            let ghost step = add_granted_step(grantee@);
            let ghost start = totals@;
            let n = reward.tokens.len();
            let mut j: usize = 0;
            proof {
                lemma_fold_empty(start, tokens, step);
            }
            while j < n
                invariant
                    n == reward.tokens@.len(),
                    tokens == reward@.tokens,
                    tokens.len() == n,
                    rewards@.contains_key((sender@, key@)),
                    tokens == rewards@[(sender@, key@)].tokens,
                    step == add_granted_step(grantee@),
                    start == old(totals)@,
                    j <= n,
                    fold_outcome(start, tokens.take(j as int), step) == Outcome::Done(totals@),
                decreases n - j,
            {
                proof {
                    lemma_fold_next(start, tokens, step, j as int);
                    if !(fold_outcome(start, tokens.take(j + 1), step) is Done) {
                        lemma_fold_stuck(start, tokens, step, j + 1);
                    }
                }
                let ta = &reward.tokens[j];
                assert(ta@ == tokens[j as int]);
                let token_key: (String, String) = (grantee.clone(), ta.token.key().clone());
                let updated = match totals.get(&token_key) {
                    Some(t) => {
                        let granted = match t.amount_granted.checked_add(ta.amount) {
                            Some(v) => v,
                            None => {
                                assert(add_granted(totals@, grantee@, ta@) is Abort);
                                assert(fold_outcome(start, tokens, step) is Abort);
                                return Err(Stop::Overflow);
                            },
                        };
                        ClaimTotals { token: t.token.deep_copy(), amount_claimed: t.amount_claimed, amount_granted: granted }
                    },
                    None => ClaimTotals { token: ta.token.deep_copy(), amount_claimed: 0, amount_granted: ta.amount },
                };
                totals.insert(token_key, updated);
                j = j + 1;
            }
            proof {
                lemma_fold_whole(start, tokens, step);
            }
            let grant_key: GrantKey = (grantee.clone(), reward_key);
            grants.insert(grant_key, Grant { expires_at: *expires_at });
            Ok(())
        },
    }
}

/// Grants `grantee` the rewards that the sender registered under `keys`, on
/// every input: where the contract would panic on an overflowing total it
/// stops with `Stop::Overflow`.
pub fn try_grant_rewards(
    state: &mut ContractState,
    sender: &String,
    grantee: &String,
    keys: Vec<String>,
    expires_at: Option<Expiration>,
) -> (r: Result<Response, Stop>)
    ensures
        attempted(old(state)@, final(state)@, r, grant_all(old(state)@, sender@, grantee@, keys_view(keys@), expires_at)),
        r matches Ok(resp) ==> resp.action == Action::Grant && resp.messages@.len() == 0,
{
    let ghost ks = keys_view(keys@);
    let ghost step = grant_step(sender@, grantee@, expires_at);
    let ghost start = state@;
    let mut grants = state.grants.deep_copy();
    let mut totals = state.claim_totals.deep_copy();
    let n = keys.len();
    let mut i: usize = 0;
    proof {
        lemma_fold_empty(start, ks, step);
    }
    while i < n
        invariant
            n == keys@.len(),
            ks == keys_view(keys@),
            step == grant_step(sender@, grantee@, expires_at),
            start == state@,
            i <= n,
            fold_outcome(start, ks.take(i as int), step) == Outcome::Done(
                StateView { grants: grants@, claim_totals: totals@, ..start },
            ),
        decreases n - i,
    {
        proof {
            lemma_fold_next(start, ks, step, i as int);
            if !(fold_outcome(start, ks.take(i + 1), step) is Done) {
                lemma_fold_stuck(start, ks, step, i + 1);
            }
        }
        match grant_reward(
            Ghost(state.created_by@),
            &state.rewards,
            &mut grants,
            &mut totals,
            sender,
            grantee,
            &keys[i],
            &expires_at,
        ) {
            Ok(()) => {},
            Err(stop) => {
                return Err(stop);
            },
        }
        i = i + 1;
    }
    proof {
        lemma_fold_whole(start, ks, step);
    }
    state.grants = grants;
    state.claim_totals = totals;
    Ok(Response::new(Action::Grant))
}

/// Grants `grantee` the rewards that the sender registered under `keys`.
pub fn grant_rewards(
    state: &mut ContractState,
    sender: &String,
    grantee: &String,
    keys: Vec<String>,
    expires_at: Option<Expiration>,
) -> (r: Result<Response, ContractError>)
    requires
        !(grant_all(old(state)@, sender@, grantee@, keys_view(keys@), expires_at) is Abort),
    ensures
        executed(old(state)@, final(state)@, r, grant_all(old(state)@, sender@, grantee@, keys_view(keys@), expires_at)),
        r matches Ok(resp) ==> resp.action == Action::Grant && resp.messages@.len() == 0,
{
    match try_grant_rewards(state, sender, grantee, keys, expires_at) {
        Ok(resp) => Ok(resp),
        Err(Stop::Refused(e)) => Err(e),
        Err(Stop::Overflow) => {
            proof {
                assert(false);
            }
            Err(ContractError::ValidationError {})
        },
    }
}

} // verus!
