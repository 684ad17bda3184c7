//! What holds of the contract across messages.

use vstd::prelude::*;
use crate::contract::execute_outcome;
use crate::error::ContractError;
use crate::execute::claim_rewards::{
    add_claimed, add_claimed_step, claim_all, claim_collect, collect_step, contracts_of, merge_amount,
    merge_step, lemma_merge_never_fails, reward_keys_view, settle_step, token_keys, ClaimGroup,
};
use crate::order::{grant_key_lt, grant_key_order};
use crate::query::is_desc_page;
use crate::query::get_grants::{grant_member, grants_page, page_registered};
use crate::query::get_rewards::{reward_member, rewards_page};
use crate::order::{lex_lt, lex_order};
use crate::seqs::{
    lemma_position, lemma_sum_bounds, lemma_sum_le, lemma_sum_permutation, lemma_sum_push, lemma_sum_update,
    lemma_sum_remove, lemma_sum_zero, position, seq_sum,
};
use crate::execute::grant_rewards::{add_granted, add_granted_step, grant_all, grant_one, keys_view};
use crate::execute::pause_rewards::pause_all;
use crate::execute::register_rewards::{amounts_valid, args_view, new_reward, register_all, register_step};
use crate::execute::revoke_rewards::revoke_all;
use crate::models::{
    expiration_reached, token_key, BlockInfo, Expiration, Grant, RewardInitArgs, RewardInitArgsView, RewardKey,
    TokenAmountView, TokenView,
};
use crate::msg::ExecuteMsg;
use crate::outcome::{fold_outcome, lemma_fold_next, lemma_fold_stuck, Outcome};
use crate::state::{initial_state, RewardsMap, StateView, TotalsMap};

verus! {

/// The state's invariant: every grant is of a registered reward, and its
/// wallet has totals of each of the reward's tokens; every registered reward
/// pays something and has had no claim counted.
pub open spec fn consistent(s: StateView) -> bool {
    &&& forall|gk: (Seq<char>, (Seq<char>, Seq<char>))| #[trigger]
        s.grants.contains_key(gk) ==> s.rewards.contains_key(gk.1)
    &&& forall|gk: (Seq<char>, (Seq<char>, Seq<char>)), i: int|
        #![trigger s.grants.contains_key(gk), s.rewards[gk.1].tokens[i]]
        s.grants.contains_key(gk) && 0 <= i < s.rewards[gk.1].tokens.len() ==> s.claim_totals.contains_key(
            (gk.0, token_key(s.rewards[gk.1].tokens[i].token)),
        )
    &&& forall|rk: (Seq<char>, Seq<char>)| #[trigger]
        s.rewards.contains_key(rk) ==> amounts_valid(s.rewards[rk].tokens) && s.rewards[rk].claims_processed == 0
}

/// A newly instantiated contract is consistent.
pub proof fn lemma_initial_consistent(sender: Seq<char>)
    ensures
        consistent(initial_state(sender)),
{
}

/// The registered rewards only grow, and a registered reward keeps its
/// tokens and its count of claims processed.
pub open spec fn rewards_kept(pre: RewardsMap, post: RewardsMap) -> bool {
    forall|rk: (Seq<char>, Seq<char>)| #[trigger]
        pre.contains_key(rk) ==> post.contains_key(rk) && post[rk].tokens == pre[rk].tokens
            && post[rk].claims_processed == pre[rk].claims_processed
}

proof fn lemma_register_fold(m: RewardsMap, block: BlockInfo, sender: Seq<char>, args: Seq<RewardInitArgsView>)
    requires
        forall|rk: (Seq<char>, Seq<char>)| #[trigger]
            m.contains_key(rk) ==> amounts_valid(m[rk].tokens) && m[rk].claims_processed == 0,
    ensures
        fold_outcome(m, args, register_step(block, sender)) matches Outcome::Done(m2) ==> {
            &&& rewards_kept(m, m2)
            &&& forall|rk: (Seq<char>, Seq<char>)| #[trigger]
                m2.contains_key(rk) ==> amounts_valid(m2[rk].tokens) && m2[rk].claims_processed == 0
        },
    decreases args.len(),
{
    if args.len() > 0 {
        lemma_register_fold(m, block, sender, args.drop_last());
    }
}

proof fn lemma_add_granted_fold(t: TotalsMap, grantee: Seq<char>, tokens: Seq<TokenAmountView>)
    ensures
        fold_outcome(t, tokens, add_granted_step(grantee)) matches Outcome::Done(t2) ==> {
            &&& forall|k: (Seq<char>, Seq<char>)| #[trigger] t.contains_key(k) ==> t2.contains_key(k)
            &&& forall|i: int|
                0 <= i < tokens.len() ==> t2.contains_key((grantee, token_key(#[trigger] tokens[i].token)))
        },
    decreases tokens.len(),
{
    if tokens.len() > 0 {
        lemma_add_granted_fold(t, grantee, tokens.drop_last());
        if let Outcome::Done(t2) = fold_outcome(t, tokens, add_granted_step(grantee)) {
            let t1 = fold_outcome(t, tokens.drop_last(), add_granted_step(grantee))->Done_0;
            assert forall|i: int| 0 <= i < tokens.len() implies t2.contains_key(
                (grantee, token_key(#[trigger] tokens[i].token)),
            ) by {
                if i < tokens.len() - 1 {
                    assert(tokens.drop_last()[i] == tokens[i]);
                }
            }
        }
    }
}

proof fn lemma_grant_one_consistent(
    s: StateView,
    sender: Seq<char>,
    grantee: Seq<char>,
    expires_at: Option<Expiration>,
    key: Seq<char>,
)
    requires
        consistent(s),
    ensures
        grant_one(s, sender, grantee, expires_at, key) matches Outcome::Done(s2) ==> consistent(s2)
            && s2.rewards == s.rewards,
{
    let rk = (sender, key);
    if s.rewards.contains_key(rk) {
        lemma_add_granted_fold(s.claim_totals, grantee, s.rewards[rk].tokens);
    }
}

proof fn lemma_grant_fold(
    s: StateView,
    sender: Seq<char>,
    grantee: Seq<char>,
    keys: Seq<Seq<char>>,
    expires_at: Option<Expiration>,
)
    requires
        consistent(s),
    ensures
        grant_all(s, sender, grantee, keys, expires_at) matches Outcome::Done(s2) ==> consistent(s2)
            && s2.rewards == s.rewards,
    decreases keys.len(),
{
    if keys.len() > 0 {
        lemma_grant_fold(s, sender, grantee, keys.drop_last(), expires_at);
        if let Outcome::Done(s1) = grant_all(s, sender, grantee, keys.drop_last(), expires_at) {
            lemma_grant_one_consistent(s1, sender, grantee, expires_at, keys.last());
        }
    }
}

proof fn lemma_add_claimed_fold(t: TotalsMap, claimant: Seq<char>, tokens: Seq<TokenAmountView>)
    ensures
        fold_outcome(t, tokens, add_claimed_step(claimant)) matches Outcome::Done(t2) ==> t2.dom() == t.dom(),
    decreases tokens.len(),
{
    if tokens.len() > 0 {
        lemma_add_claimed_fold(t, claimant, tokens.drop_last());
        if let Outcome::Done(t1) = fold_outcome(t, tokens.drop_last(), add_claimed_step(claimant)) {
            if let Outcome::Done(t2) = add_claimed(t1, claimant, tokens.last()) {
                assert(t2.dom() =~= t1.dom());
            }
        }
    }
}

proof fn lemma_settle_fold(t: TotalsMap, claimant: Seq<char>, groups: Seq<ClaimGroup>)
    ensures
        fold_outcome(t, groups, settle_step(claimant)) matches Outcome::Done(t2) ==> t2.dom() == t.dom(),
    decreases groups.len(),
{
    if groups.len() > 0 {
        lemma_settle_fold(t, claimant, groups.drop_last());
        if let Outcome::Done(t1) = fold_outcome(t, groups.drop_last(), settle_step(claimant)) {
            lemma_add_claimed_fold(t1, claimant, groups.last().tokens);
        }
    }
}

/// Every message that succeeds keeps the state consistent, keeps every
/// registered reward, with its tokens, and never unregisters one.
pub proof fn lemma_execute_consistent(s: StateView, block: BlockInfo, sender: Seq<char>, msg: ExecuteMsg)
    requires
        consistent(s),
    ensures
        execute_outcome(s, block, sender, msg) matches Outcome::Done(s2) ==> consistent(s2) && rewards_kept(
            s.rewards,
            s2.rewards,
        ),
{
    match msg {
        ExecuteMsg::Register { rewards } => {
            let args = rewards@.map_values(|a: RewardInitArgs| a@);
            lemma_register_fold(s.rewards, block, sender, args);
            if let Outcome::Done(m2) = fold_outcome(s.rewards, args, register_step(block, sender)) {
                let s2 = StateView { rewards: m2, ..s };
                assert(consistent(s2));
            }
        },
        ExecuteMsg::Grant { grantee, keys, expiration } => {
            lemma_grant_fold(s, sender, grantee@, keys@.map_values(|k: String| k@), expiration);
        },
        ExecuteMsg::Revoke { grantee, keys } => {},
        ExecuteMsg::Pause { keys } => {
            let s2 = pause_all(s, sender, keys@.map_values(|k: String| k@));
            assert(s2.rewards.dom() =~= s.rewards.dom());
            assert(consistent(s2));
        },
        ExecuteMsg::Claim { grants } => {
            let ks = grants@.map_values(|k: RewardKey| k@);
            if let Outcome::Done(groups) = claim_collect(s, sender, block, ks) {
                lemma_settle_fold(s.claim_totals, sender, groups);
            }
        },
    }
}

/// A registration that succeeds stores each reward under the sender and its
/// key, unpaused, with no claims processed, and with the count, message and
/// tokens it was given; and it leaves every reward registered before as it
/// was.
pub proof fn lemma_register_then_read(s: StateView, block: BlockInfo, sender: Seq<char>, args: Seq<RewardInitArgsView>)
    ensures
        register_all(s, block, sender, args) matches Outcome::Done(s2) ==> {
            &&& forall|i: int|
                0 <= i < args.len() ==> s2.rewards.contains_key((sender, #[trigger] args[i].key))
                    && s2.rewards[(sender, args[i].key)] == new_reward(args[i])
            &&& forall|rk: (Seq<char>, Seq<char>)| #[trigger]
                s.rewards.contains_key(rk) ==> s2.rewards.contains_key(rk) && s2.rewards[rk] == s.rewards[rk]
            &&& s2.grants == s.grants
            &&& s2.claim_totals == s.claim_totals
            &&& s2.created_by == s.created_by
        },
    decreases args.len(),
{
    if args.len() > 0 {
        lemma_register_then_read(s, block, sender, args.drop_last());
        if let Outcome::Done(s2) = register_all(s, block, sender, args) {
            let m1 = fold_outcome(s.rewards, args.drop_last(), register_step(block, sender))->Done_0;
            assert forall|i: int| 0 <= i < args.len() implies s2.rewards.contains_key(
                (sender, #[trigger] args[i].key),
            ) && s2.rewards[(sender, args[i].key)] == new_reward(args[i]) by {
                if i < args.len() - 1 {
                    assert(args.drop_last()[i] == args[i]);
                    assert(m1.contains_key((sender, args[i].key)));
                }
            }
        }
    }
}

/// A grant that succeeds holds, for each key, a grant to the grantee of the
/// sender's reward under that key, with the expiration given; the reward is
/// registered, and the rewards themselves are unchanged.
pub proof fn lemma_grant_then_read(
    s: StateView,
    sender: Seq<char>,
    grantee: Seq<char>,
    keys: Seq<Seq<char>>,
    expires_at: Option<Expiration>,
)
    ensures
        grant_all(s, sender, grantee, keys, expires_at) matches Outcome::Done(s2) ==> {
            &&& forall|i: int|
                0 <= i < keys.len() ==> s2.grants.contains_key((grantee, (sender, #[trigger] keys[i])))
                    && s2.grants[(grantee, (sender, keys[i]))] == Grant { expires_at }
                    && s2.rewards.contains_key((sender, keys[i]))
            &&& s2.rewards == s.rewards
        },
    decreases keys.len(),
{
    if keys.len() > 0 {
        lemma_grant_then_read(s, sender, grantee, keys.drop_last(), expires_at);
        if let Outcome::Done(s2) = grant_all(s, sender, grantee, keys, expires_at) {
            let s1 = grant_all(s, sender, grantee, keys.drop_last(), expires_at)->Done_0;
            assert forall|i: int| 0 <= i < keys.len() implies s2.grants.contains_key(
                (grantee, (sender, #[trigger] keys[i])),
            ) && s2.grants[(grantee, (sender, keys[i]))] == Grant { expires_at } && s2.rewards.contains_key(
                (sender, keys[i]),
            ) by {
                if i < keys.len() - 1 {
                    assert(keys.drop_last()[i] == keys[i]);
                }
            }
        }
    }
}

/// A claim that includes a reward whose grant was revoked is never carried
/// out.
pub proof fn lemma_revoked_claim_refused(
    s: StateView,
    sender: Seq<char>,
    grantee: Seq<char>,
    keys: Seq<Seq<char>>,
    block: BlockInfo,
    claim_keys: Seq<(Seq<char>, Seq<char>)>,
    j: int,
)
    requires
        0 <= j < claim_keys.len(),
        claim_keys[j].0 == sender,
        keys.contains(claim_keys[j].1),
    ensures
        !(claim_all(revoke_all(s, sender, grantee, keys), grantee, block, claim_keys) is Done),
{
    let s1 = revoke_all(s, sender, grantee, keys);
    let step = collect_step(s1, grantee, block);
    let init = Seq::<ClaimGroup>::empty();
    assert(!s1.grants.contains_key((grantee, claim_keys[j])));
    lemma_fold_next(init, claim_keys, step, j);
    lemma_fold_stuck(init, claim_keys, step, j + 1);
}

/// A claim that succeeds changes only the claimant's claimed totals: the
/// rewards and the grants stay, so the same claim can be made again; and it
/// never changes an amount granted.
pub proof fn lemma_claim_keeps_rewards(
    s: StateView,
    claimant: Seq<char>,
    block: BlockInfo,
    keys: Seq<(Seq<char>, Seq<char>)>,
)
    ensures
        claim_all(s, claimant, block, keys) matches Outcome::Done((s2, groups)) ==> {
            &&& s2.rewards == s.rewards
            &&& s2.grants == s.grants
            &&& s2.created_by == s.created_by
            &&& s2.claim_totals.dom() == s.claim_totals.dom()
            &&& forall|k: (Seq<char>, Seq<char>)| #[trigger]
                s.claim_totals.contains_key(k) ==> s2.claim_totals[k].amount_granted
                    == s.claim_totals[k].amount_granted && s2.claim_totals[k].token == s.claim_totals[k].token
                    && (k.0 != claimant ==> s2.claim_totals[k] == s.claim_totals[k])
        },
{
    if let Outcome::Done(groups) = claim_collect(s, claimant, block, keys) {
        lemma_settle_fold(s.claim_totals, claimant, groups);
        lemma_settle_keeps_granted(s.claim_totals, claimant, groups);
    }
}

proof fn lemma_add_claimed_keeps_granted(t: TotalsMap, claimant: Seq<char>, tokens: Seq<TokenAmountView>)
    ensures
        fold_outcome(t, tokens, add_claimed_step(claimant)) matches Outcome::Done(t2) ==> forall|k: (Seq<char>, Seq<char>)| #[trigger]
            t.contains_key(k) ==> t2.contains_key(k) && t2[k].amount_granted == t[k].amount_granted && t2[k].token == t[k].token
                && (k.0 != claimant ==> t2[k] == t[k]),
    decreases tokens.len(),
{
    if tokens.len() > 0 {
        lemma_add_claimed_keeps_granted(t, claimant, tokens.drop_last());
    }
}

proof fn lemma_settle_keeps_granted(t: TotalsMap, claimant: Seq<char>, groups: Seq<ClaimGroup>)
    ensures
        fold_outcome(t, groups, settle_step(claimant)) matches Outcome::Done(t2) ==> forall|k: (Seq<char>, Seq<char>)| #[trigger]
            t.contains_key(k) ==> t2.contains_key(k) && t2[k].amount_granted == t[k].amount_granted && t2[k].token == t[k].token
                && (k.0 != claimant ==> t2[k] == t[k]),
    decreases groups.len(),
{
    if groups.len() > 0 {
        lemma_settle_keeps_granted(t, claimant, groups.drop_last());
        if let Outcome::Done(t1) = fold_outcome(t, groups.drop_last(), settle_step(claimant)) {
            lemma_add_claimed_keeps_granted(t1, claimant, groups.last().tokens);
        }
    }
}

/// Once a grant has expired it stays expired in every later block.
pub proof fn lemma_expiry_lasts(g: Grant, b1: BlockInfo, b2: BlockInfo)
    requires
        expiration_reached(g.expires_at, b1),
        b1.height <= b2.height,
        b1.time <= b2.time,
    ensures
        expiration_reached(g.expires_at, b2),
{
}

proof fn lemma_collect_paused(s: StateView, claimant: Seq<char>, block: BlockInfo, keys: Seq<(Seq<char>, Seq<char>)>)
    requires
        forall|i: int|
            0 <= i < keys.len() && s.rewards.contains_key(#[trigger] keys[i]) ==> s.rewards[keys[i]].is_paused,
    ensures
        claim_collect(s, claimant, block, keys) matches Outcome::Done(groups) ==> forall|i: int|
            0 <= i < groups.len() ==> (#[trigger] groups[i]).tokens.len() == 0,
    decreases keys.len(),
{
    if keys.len() > 0 {
        assert forall|i: int|
            0 <= i < keys.drop_last().len() && s.rewards.contains_key(#[trigger] keys.drop_last()[i]) implies s.rewards[keys.drop_last()[i]].is_paused by {
            assert(keys.drop_last()[i] == keys[i]);
        }
        lemma_collect_paused(s, claimant, block, keys.drop_last());
        assert(s.rewards.contains_key(keys.last()) ==> s.rewards[keys.last()].is_paused);
    }
}

proof fn lemma_settle_empty(t: TotalsMap, claimant: Seq<char>, groups: Seq<ClaimGroup>)
    requires
        forall|i: int| 0 <= i < groups.len() ==> (#[trigger] groups[i]).tokens.len() == 0,
    ensures
        fold_outcome(t, groups, settle_step(claimant)) == Outcome::Done(t),
    decreases groups.len(),
{
    if groups.len() > 0 {
        assert forall|i: int| 0 <= i < groups.drop_last().len() implies (#[trigger] groups.drop_last()[i]).tokens.len() == 0 by {
            assert(groups.drop_last()[i] == groups[i]);
        }
        lemma_settle_empty(t, claimant, groups.drop_last());
        assert(groups.last().tokens.len() == 0);
        assert(fold_outcome(t, groups.last().tokens, add_claimed_step(claimant)) == Outcome::Done(t));
    }
}

/// Claiming only paused or unregistered rewards pays nothing: every claim
/// message carries no amount, and the state stays as it was.
pub proof fn lemma_paused_claim_pays_nothing(
    s: StateView,
    claimant: Seq<char>,
    block: BlockInfo,
    keys: Seq<(Seq<char>, Seq<char>)>,
)
    requires
        forall|i: int|
            0 <= i < keys.len() && s.rewards.contains_key(#[trigger] keys[i]) ==> s.rewards[keys[i]].is_paused,
    ensures
        claim_all(s, claimant, block, keys) matches Outcome::Done((s2, groups)) ==> s2 == s && forall|i: int|
            0 <= i < groups.len() ==> (#[trigger] groups[i]).tokens.len() == 0,
{
    lemma_collect_paused(s, claimant, block, keys);
    if let Outcome::Done(groups) = claim_collect(s, claimant, block, keys) {
        lemma_settle_empty(s.claim_totals, claimant, groups);
        assert(StateView { claim_totals: s.claim_totals, ..s } =~= s);
    }
}

/// After a contract pauses rewards, a claim of only those rewards pays
/// nothing.
pub proof fn lemma_pause_then_claim(
    s: StateView,
    sender: Seq<char>,
    paused_keys: Seq<Seq<char>>,
    claimant: Seq<char>,
    block: BlockInfo,
    keys: Seq<(Seq<char>, Seq<char>)>,
)
    requires
        forall|i: int| 0 <= i < keys.len() ==> (#[trigger] keys[i]).0 == sender && paused_keys.contains(keys[i].1),
    ensures
        claim_all(pause_all(s, sender, paused_keys), claimant, block, keys) matches Outcome::Done((s2, groups)) ==> s2
            == pause_all(s, sender, paused_keys) && forall|i: int|
            0 <= i < groups.len() ==> (#[trigger] groups[i]).tokens.len() == 0,
{
    let p = pause_all(s, sender, paused_keys);
    assert forall|i: int| 0 <= i < keys.len() && p.rewards.contains_key(#[trigger] keys[i]) implies p.rewards[keys[i]].is_paused by {
        assert(keys[i].0 == sender && paused_keys.contains(keys[i].1));
    }
    lemma_paused_claim_pays_nothing(p, claimant, block, keys);
}

/// In a consistent state, every reward key that a query of a wallet's grants
/// lists has a registered reward: the query is never refused for a missing
/// reward.
pub proof fn lemma_grants_page_registered(
    s: StateView,
    wallet: Seq<char>,
    cursor: (Seq<char>, Seq<char>),
    limit: nat,
    page: Seq<(Seq<char>, Seq<char>)>,
)
    requires
        consistent(s),
        is_desc_page(page, grant_member(s, wallet, cursor), grant_key_order(), limit),
    ensures
        page_registered(s, page),
{
    assert forall|i: int| 0 <= i < page.len() implies s.rewards.contains_key(#[trigger] page[i]) by {
        assert(grant_member(s, wallet, cursor)(page[i]));
        assert(s.grants.contains_key((wallet, page[i])));
    }
}

/// Every amount in `ts` is of a token that `claimant` has totals of.
pub open spec fn totals_cover(t: TotalsMap, claimant: Seq<char>, ts: Seq<TokenAmountView>) -> bool {
    forall|j: int| 0 <= j < ts.len() ==> t.contains_key((claimant, token_key(#[trigger] ts[j].token)))
}

proof fn lemma_merge_cover(
    t: TotalsMap,
    claimant: Seq<char>,
    init: Seq<TokenAmountView>,
    add: Seq<TokenAmountView>,
)
    requires
        totals_cover(t, claimant, init),
        totals_cover(t, claimant, add),
    ensures
        fold_outcome(init, add, merge_step()) matches Outcome::Done(r) ==> totals_cover(t, claimant, r),
    decreases add.len(),
{
    if add.len() > 0 {
        assert forall|j: int| 0 <= j < add.drop_last().len() implies t.contains_key(
            (claimant, token_key(#[trigger] add.drop_last()[j].token)),
        ) by {
            assert(add.drop_last()[j] == add[j]);
        }
        lemma_merge_cover(t, claimant, init, add.drop_last());
        if let Outcome::Done(r1) = fold_outcome(init, add.drop_last(), merge_step()) {
            let ta = add.last();
            assert(t.contains_key((claimant, token_key(add[add.len() - 1].token))));
            let p = position(token_keys(r1), token_key(ta.token));
            lemma_position(token_keys(r1), token_key(ta.token));
            if let Outcome::Done(r) = merge_amount(r1, ta) {
                assert forall|j: int| 0 <= j < r.len() implies t.contains_key(
                    (claimant, token_key(#[trigger] r[j].token)),
                ) by {
                    if p < 0 {
                        if j < r1.len() {
                            assert(r[j] == r1[j]);
                        }
                    } else {
                        assert(r[j].token == r1[j].token);
                    }
                }
            }
        }
    }
}

proof fn lemma_collect_cover(s: StateView, claimant: Seq<char>, block: BlockInfo, keys: Seq<(Seq<char>, Seq<char>)>)
    requires
        consistent(s),
    ensures
        claim_collect(s, claimant, block, keys) matches Outcome::Done(groups) ==> forall|i: int|
            0 <= i < groups.len() ==> totals_cover(s.claim_totals, claimant, (#[trigger] groups[i]).tokens),
    decreases keys.len(),
{
    if keys.len() > 0 {
        lemma_collect_cover(s, claimant, block, keys.drop_last());
        if let Outcome::Done(g0) = claim_collect(s, claimant, block, keys.drop_last()) {
            let rk = keys.last();
            let gk = (claimant, rk);
            if s.grants.contains_key(gk) && !expiration_reached(s.grants[gk].expires_at, block) {
                let p0 = position(contracts_of(g0), rk.0);
                let g1 = if p0 < 0 {
                    g0.push(ClaimGroup { contract: rk.0, tokens: Seq::empty() })
                } else {
                    g0
                };
                let p = if p0 < 0 {
                    g0.len() as int
                } else {
                    p0
                };
                lemma_position(contracts_of(g0), rk.0);
                assert forall|i: int| 0 <= i < g1.len() implies totals_cover(
                    s.claim_totals,
                    claimant,
                    (#[trigger] g1[i]).tokens,
                ) by {
                    if i < g0.len() {
                        assert(g1[i] == g0[i]);
                    }
                }
                if s.rewards.contains_key(rk) && !s.rewards[rk].is_paused {
                    let rt = s.rewards[rk].tokens;
                    assert forall|j: int| 0 <= j < rt.len() implies s.claim_totals.contains_key(
                        (claimant, token_key(#[trigger] rt[j].token)),
                    ) by {
                        assert(s.grants.contains_key(gk));
                    }
                    lemma_merge_cover(s.claim_totals, claimant, g1[p].tokens, rt);
                }
            }
        }
    }
}

proof fn lemma_add_claimed_no_fail(t: TotalsMap, claimant: Seq<char>, tokens: Seq<TokenAmountView>)
    requires
        totals_cover(t, claimant, tokens),
    ensures
        !(fold_outcome(t, tokens, add_claimed_step(claimant)) is Fail),
        fold_outcome(t, tokens, add_claimed_step(claimant)) matches Outcome::Done(t2) ==> t2.dom() == t.dom(),
    decreases tokens.len(),
{
    if tokens.len() > 0 {
        assert forall|j: int| 0 <= j < tokens.drop_last().len() implies t.contains_key(
            (claimant, token_key(#[trigger] tokens.drop_last()[j].token)),
        ) by {
            assert(tokens.drop_last()[j] == tokens[j]);
        }
        lemma_add_claimed_no_fail(t, claimant, tokens.drop_last());
        lemma_add_claimed_fold(t, claimant, tokens);
        assert(t.contains_key((claimant, token_key(tokens[tokens.len() - 1].token))));
    }
}

proof fn lemma_settle_no_fail(t: TotalsMap, claimant: Seq<char>, groups: Seq<ClaimGroup>)
    requires
        forall|i: int| 0 <= i < groups.len() ==> totals_cover(t, claimant, (#[trigger] groups[i]).tokens),
    ensures
        !(fold_outcome(t, groups, settle_step(claimant)) is Fail),
    decreases groups.len(),
{
    if groups.len() > 0 {
        assert forall|i: int| 0 <= i < groups.drop_last().len() implies totals_cover(
            t,
            claimant,
            (#[trigger] groups.drop_last()[i]).tokens,
        ) by {
            assert(groups.drop_last()[i] == groups[i]);
        }
        lemma_settle_no_fail(t, claimant, groups.drop_last());
        lemma_settle_fold(t, claimant, groups.drop_last());
        if let Outcome::Done(t1) = fold_outcome(t, groups.drop_last(), settle_step(claimant)) {
            let last = groups[groups.len() - 1];
            assert(totals_cover(t, claimant, last.tokens));
            assert(totals_cover(t1, claimant, last.tokens));
            lemma_add_claimed_no_fail(t1, claimant, last.tokens);
        }
    }
}

/// In a consistent state a claim is never refused as not authorized: the
/// claimant has totals of every token that its granted rewards pay.
pub proof fn lemma_claim_authorized(s: StateView, claimant: Seq<char>, block: BlockInfo, keys: Seq<(Seq<char>, Seq<char>)>)
    requires
        consistent(s),
    ensures
        claim_all(s, claimant, block, keys) != Outcome::<(StateView, Seq<ClaimGroup>)>::Fail(
            ContractError::NotAuthorized {},
        ),
{
    lemma_collect_cover(s, claimant, block, keys);
    if let Outcome::Done(groups) = claim_collect(s, claimant, block, keys) {
        lemma_settle_no_fail(s.claim_totals, claimant, groups);
    }
    if let Outcome::Fail(e) = claim_collect(s, claimant, block, keys) {
        lemma_collect_errors(s, claimant, block, keys);
    }
}

/// The refusals that collecting a claim can give.
proof fn lemma_collect_errors(s: StateView, claimant: Seq<char>, block: BlockInfo, keys: Seq<(Seq<char>, Seq<char>)>)
    ensures
        claim_collect(s, claimant, block, keys) matches Outcome::Fail(e) ==> e == (ContractError::GrantNotFound {})
            || e == (ContractError::GrantExpired {}) || e == (ContractError::EmptyRewards {}),
    decreases keys.len(),
{
    if keys.len() > 0 {
        lemma_collect_errors(s, claimant, block, keys.drop_last());
        if let Outcome::Done(g0) = claim_collect(s, claimant, block, keys.drop_last()) {
            let rk = keys.last();
            let p0 = position(contracts_of(g0), rk.0);
            let g1 = if p0 < 0 {
                g0.push(ClaimGroup { contract: rk.0, tokens: Seq::empty() })
            } else {
                g0
            };
            let p = if p0 < 0 {
                g0.len() as int
            } else {
                p0
            };
            if s.rewards.contains_key(rk) {
                lemma_merge_never_fails(g1[p].tokens, s.rewards[rk].tokens);
            }
        }
    }
}

proof fn lemma_add_granted_keeps_claimed(t: TotalsMap, grantee: Seq<char>, tokens: Seq<TokenAmountView>)
    ensures
        fold_outcome(t, tokens, add_granted_step(grantee)) matches Outcome::Done(t2) ==> forall|k: (Seq<char>, Seq<char>)| #[trigger]
            t.contains_key(k) ==> t2.contains_key(k) && t2[k].amount_claimed == t[k].amount_claimed
                && t2[k].amount_granted >= t[k].amount_granted,
    decreases tokens.len(),
{
    if tokens.len() > 0 {
        lemma_add_granted_keeps_claimed(t, grantee, tokens.drop_last());
    }
}

proof fn lemma_grant_keeps_claimed(
    s: StateView,
    sender: Seq<char>,
    grantee: Seq<char>,
    keys: Seq<Seq<char>>,
    expires_at: Option<Expiration>,
)
    ensures
        grant_all(s, sender, grantee, keys, expires_at) matches Outcome::Done(s2) ==> forall|k: (Seq<char>, Seq<char>)| #[trigger]
            s.claim_totals.contains_key(k) ==> s2.claim_totals.contains_key(k) && s2.claim_totals[k].amount_claimed
                == s.claim_totals[k].amount_claimed && s2.claim_totals[k].amount_granted
                >= s.claim_totals[k].amount_granted,
    decreases keys.len(),
{
    if keys.len() > 0 {
        lemma_grant_keeps_claimed(s, sender, grantee, keys.drop_last(), expires_at);
        if let Outcome::Done(s1) = grant_all(s, sender, grantee, keys.drop_last(), expires_at) {
            let rk = (sender, keys.last());
            if s1.rewards.contains_key(rk) {
                lemma_add_granted_keeps_claimed(s1.claim_totals, grantee, s1.rewards[rk].tokens);
            }
        }
    }
}

proof fn lemma_add_claimed_grows(t: TotalsMap, claimant: Seq<char>, tokens: Seq<TokenAmountView>)
    ensures
        fold_outcome(t, tokens, add_claimed_step(claimant)) matches Outcome::Done(t2) ==> forall|k: (Seq<char>, Seq<char>)| #[trigger]
            t.contains_key(k) ==> t2.contains_key(k) && t2[k].amount_claimed >= t[k].amount_claimed,
    decreases tokens.len(),
{
    if tokens.len() > 0 {
        lemma_add_claimed_grows(t, claimant, tokens.drop_last());
    }
}

proof fn lemma_settle_grows(t: TotalsMap, claimant: Seq<char>, groups: Seq<ClaimGroup>)
    ensures
        fold_outcome(t, groups, settle_step(claimant)) matches Outcome::Done(t2) ==> forall|k: (Seq<char>, Seq<char>)| #[trigger]
            t.contains_key(k) ==> t2.contains_key(k) && t2[k].amount_claimed >= t[k].amount_claimed,
    decreases groups.len(),
{
    if groups.len() > 0 {
        lemma_settle_grows(t, claimant, groups.drop_last());
        if let Outcome::Done(t1) = fold_outcome(t, groups.drop_last(), settle_step(claimant)) {
            lemma_add_claimed_grows(t1, claimant, groups.last().tokens);
        }
    }
}

/// Claim totals are never lost and never go down: every message keeps each
/// wallet's totals of each token, with amounts granted and claimed at least
/// what they were. Only grants raise an amount granted, and only claims raise
/// an amount claimed.
pub proof fn lemma_totals_grow(s: StateView, block: BlockInfo, sender: Seq<char>, msg: ExecuteMsg)
    ensures
        execute_outcome(s, block, sender, msg) matches Outcome::Done(s2) ==> forall|k: (Seq<char>, Seq<char>)| #[trigger]
            s.claim_totals.contains_key(k) ==> {
                &&& s2.claim_totals.contains_key(k)
                &&& s2.claim_totals[k].amount_granted >= s.claim_totals[k].amount_granted
                &&& s2.claim_totals[k].amount_claimed >= s.claim_totals[k].amount_claimed
                &&& !(msg is Grant) ==> s2.claim_totals[k].amount_granted == s.claim_totals[k].amount_granted
                &&& !(msg is Claim) ==> s2.claim_totals[k].amount_claimed == s.claim_totals[k].amount_claimed
            },
{
    match msg {
        ExecuteMsg::Register { rewards } => {
            lemma_register_then_read(s, block, sender, rewards@.map_values(|a: RewardInitArgs| a@));
        },
        ExecuteMsg::Grant { grantee, keys, expiration } => {
            lemma_grant_keeps_claimed(s, sender, grantee@, keys@.map_values(|k: String| k@), expiration);
        },
        ExecuteMsg::Revoke { .. } => {},
        ExecuteMsg::Pause { .. } => {},
        ExecuteMsg::Claim { grants } => {
            let ks = grants@.map_values(|k: RewardKey| k@);
            lemma_claim_keeps_rewards(s, sender, block, ks);
            if let Outcome::Done(groups) = claim_collect(s, sender, block, ks) {
                lemma_settle_grows(s.claim_totals, sender, groups);
            }
        },
    }
}

/// How much of token key `t` an amount is: all of it if it is of `t`.
pub open spec fn amount_of(t: Seq<char>) -> spec_fn(TokenAmountView) -> int {
    |ta: TokenAmountView| if token_key(ta.token) == t { ta.amount as int } else { 0int }
}

/// How much of token key `t` a list of amounts holds.
pub open spec fn keyed_sum(ts: Seq<TokenAmountView>, t: Seq<char>) -> int {
    seq_sum(ts, amount_of(t))
}

/// Whether a contract counts under `c`: every contract under `None`.
pub open spec fn picks(c: Option<Seq<char>>, contract: Seq<char>) -> bool {
    match c {
        Some(x) => x == contract,
        None => true,
    }
}

pub open spec fn group_amount(c: Option<Seq<char>>, t: Seq<char>) -> spec_fn(ClaimGroup) -> int {
    |g: ClaimGroup| if picks(c, g.contract) { keyed_sum(g.tokens, t) } else { 0int }
}

/// How much of token key `t` the groups of the contracts under `c` pay.
pub open spec fn groups_sum(gs: Seq<ClaimGroup>, c: Option<Seq<char>>, t: Seq<char>) -> int {
    seq_sum(gs, group_amount(c, t))
}

/// What a claimed reward pays of token key `t`: its amounts of `t`, where it
/// is registered and not paused.
pub open spec fn reward_sum(s: StateView, rk: (Seq<char>, Seq<char>), t: Seq<char>) -> int {
    if s.rewards.contains_key(rk) && !s.rewards[rk].is_paused {
        keyed_sum(s.rewards[rk].tokens, t)
    } else {
        0
    }
}

pub open spec fn key_amount(s: StateView, c: Option<Seq<char>>, t: Seq<char>) -> spec_fn((Seq<char>, Seq<char>)) -> int {
    |rk: (Seq<char>, Seq<char>)| if picks(c, rk.0) { reward_sum(s, rk, t) } else { 0int }
}

/// How much of token key `t` claiming `keys` pays from the contracts under `c`.
pub open spec fn keys_sum(s: StateView, keys: Seq<(Seq<char>, Seq<char>)>, c: Option<Seq<char>>, t: Seq<char>) -> int {
    seq_sum(keys, key_amount(s, c, t))
}

proof fn lemma_merge_sum(init: Seq<TokenAmountView>, add: Seq<TokenAmountView>, t: Seq<char>)
    ensures
        fold_outcome(init, add, merge_step()) matches Outcome::Done(r) ==> keyed_sum(r, t) == keyed_sum(init, t)
            + keyed_sum(add, t),
    decreases add.len(),
{
    if add.len() > 0 {
        lemma_merge_sum(init, add.drop_last(), t);
        if let Outcome::Done(r1) = fold_outcome(init, add.drop_last(), merge_step()) {
            let ta = add.last();
            let p = position(token_keys(r1), token_key(ta.token));
            lemma_position(token_keys(r1), token_key(ta.token));
            if p < 0 {
                lemma_sum_push(r1, amount_of(t), ta);
            } else if r1[p].amount + ta.amount <= u128::MAX {
                let y = TokenAmountView { amount: (r1[p].amount + ta.amount) as u128, ..r1[p] };
                assert(token_keys(r1)[p] == token_key(r1[p].token));
                lemma_sum_update(r1, amount_of(t), p, y);
            }
        }
    }
}

proof fn lemma_collect_sum(
    s: StateView,
    claimant: Seq<char>,
    block: BlockInfo,
    keys: Seq<(Seq<char>, Seq<char>)>,
    c: Option<Seq<char>>,
    t: Seq<char>,
)
    ensures
        claim_collect(s, claimant, block, keys) matches Outcome::Done(gs) ==> groups_sum(gs, c, t) == keys_sum(
            s,
            keys,
            c,
            t,
        ),
    decreases keys.len(),
{
    if keys.len() > 0 {
        lemma_collect_sum(s, claimant, block, keys.drop_last(), c, t);
        if let Outcome::Done(g0) = claim_collect(s, claimant, block, keys.drop_last()) {
            let rk = keys.last();
            let p0 = position(contracts_of(g0), rk.0);
            lemma_position(contracts_of(g0), rk.0);
            let empty = ClaimGroup { contract: rk.0, tokens: Seq::empty() };
            let g1 = if p0 < 0 {
                g0.push(empty)
            } else {
                g0
            };
            let p = if p0 < 0 {
                g0.len() as int
            } else {
                p0
            };
            if p0 < 0 {
                lemma_sum_push(g0, group_amount(c, t), empty);
                assert(keyed_sum(Seq::<TokenAmountView>::empty(), t) == 0);
            } else {
                assert(contracts_of(g0)[p0] == g0[p0].contract);
            }
            assert(g1[p].contract == rk.0);
            if let Outcome::Done(g2) = claim_collect(s, claimant, block, keys) {
                if s.rewards.contains_key(rk) && !s.rewards[rk].is_paused {
                    let rt = s.rewards[rk].tokens;
                    lemma_merge_sum(g1[p].tokens, rt, t);
                    let merged = fold_outcome(g1[p].tokens, rt, merge_step())->Done_0;
                    lemma_sum_update(g1, group_amount(c, t), p, ClaimGroup { contract: rk.0, tokens: merged });
                }
            }
        }
    }
}

proof fn lemma_add_claimed_sum(tot: TotalsMap, claimant: Seq<char>, tokens: Seq<TokenAmountView>)
    ensures
        fold_outcome(tot, tokens, add_claimed_step(claimant)) matches Outcome::Done(t2) ==> {
            &&& t2.dom() == tot.dom()
            &&& forall|k: (Seq<char>, Seq<char>)| #[trigger]
                tot.contains_key(k) ==> {
                    &&& t2[k].amount_claimed == tot[k].amount_claimed + (if k.0 == claimant {
                        keyed_sum(tokens, k.1)
                    } else {
                        0int
                    })
                    &&& t2[k].token == tot[k].token
                    &&& t2[k].amount_granted == tot[k].amount_granted
                }
        },
    decreases tokens.len(),
{
    if tokens.len() > 0 {
        lemma_add_claimed_sum(tot, claimant, tokens.drop_last());
        if let Outcome::Done(t1) = fold_outcome(tot, tokens.drop_last(), add_claimed_step(claimant)) {
            if let Outcome::Done(t2) = add_claimed(t1, claimant, tokens.last()) {
                assert(t2.dom() =~= t1.dom());
            }
        }
    }
}

proof fn lemma_settle_sum(tot: TotalsMap, claimant: Seq<char>, gs: Seq<ClaimGroup>)
    ensures
        fold_outcome(tot, gs, settle_step(claimant)) matches Outcome::Done(t2) ==> {
            &&& t2.dom() == tot.dom()
            &&& forall|k: (Seq<char>, Seq<char>)| #[trigger]
                tot.contains_key(k) ==> {
                    &&& t2[k].amount_claimed == tot[k].amount_claimed + (if k.0 == claimant {
                        groups_sum(gs, None, k.1)
                    } else {
                        0int
                    })
                    &&& t2[k].token == tot[k].token
                    &&& t2[k].amount_granted == tot[k].amount_granted
                }
        },
    decreases gs.len(),
{
    if gs.len() > 0 {
        lemma_settle_sum(tot, claimant, gs.drop_last());
        if let Outcome::Done(t1) = fold_outcome(tot, gs.drop_last(), settle_step(claimant)) {
            lemma_add_claimed_sum(t1, claimant, gs.last().tokens);
        }
    }
}

proof fn lemma_collect_contracts(s: StateView, claimant: Seq<char>, block: BlockInfo, keys: Seq<(Seq<char>, Seq<char>)>)
    ensures
        claim_collect(s, claimant, block, keys) matches Outcome::Done(gs) ==> forall|x: Seq<char>|
            #[trigger] contracts_of(gs).contains(x) <==> exists|i: int| 0 <= i < keys.len() && (#[trigger] keys[i]).0 == x,
    decreases keys.len(),
{
    if keys.len() > 0 {
        let pre = keys.drop_last();
        lemma_collect_contracts(s, claimant, block, pre);
        if let Outcome::Done(g0) = claim_collect(s, claimant, block, pre) {
            let rk = keys.last();
            let p0 = position(contracts_of(g0), rk.0);
            lemma_position(contracts_of(g0), rk.0);
            let empty = ClaimGroup { contract: rk.0, tokens: Seq::empty() };
            let g1 = if p0 < 0 {
                g0.push(empty)
            } else {
                g0
            };
            let p = if p0 < 0 {
                g0.len() as int
            } else {
                p0
            };
            if p0 < 0 {
                assert(contracts_of(g1) =~= contracts_of(g0).push(rk.0));
            } else {
                assert(contracts_of(g0)[p0] == g0[p0].contract);
            }
            assert(g1[p].contract == rk.0);
            assert forall|x: Seq<char>| #[trigger] contracts_of(g1).contains(x) <==> exists|i: int|
                0 <= i < keys.len() && (#[trigger] keys[i]).0 == x by {
                if contracts_of(g1).contains(x) {
                    if x == rk.0 {
                        assert(keys[keys.len() - 1].0 == x);
                    } else {
                        let j = choose|j: int| 0 <= j < contracts_of(g1).len() && contracts_of(g1)[j] == x;
                        assert(j < g0.len());
                        assert(contracts_of(g0)[j] == x);
                        assert(contracts_of(g0).contains(x));
                        let i = choose|i: int| 0 <= i < pre.len() && (#[trigger] pre[i]).0 == x;
                        assert(keys[i] == pre[i]);
                    }
                }
                if exists|i: int| 0 <= i < keys.len() && (#[trigger] keys[i]).0 == x {
                    let i = choose|i: int| 0 <= i < keys.len() && (#[trigger] keys[i]).0 == x;
                    if i == keys.len() - 1 {
                        assert(contracts_of(g1)[p] == x);
                    } else {
                        assert(pre[i] == keys[i]);
                        assert(contracts_of(g0).contains(x));
                        let j = choose|j: int| 0 <= j < contracts_of(g0).len() && contracts_of(g0)[j] == x;
                        assert(contracts_of(g1)[j] == x);
                    }
                }
            }
            if let Outcome::Done(g2) = claim_collect(s, claimant, block, keys) {
                if s.rewards.contains_key(rk) && !s.rewards[rk].is_paused {
                    let merged = fold_outcome(g1[p].tokens, s.rewards[rk].tokens, merge_step())->Done_0;
                    assert(g2 == g1.update(p, ClaimGroup { contract: rk.0, tokens: merged }));
                    assert(contracts_of(g2) =~= contracts_of(g1));
                }
            }
        }
    }
}

/// A claim does not depend on the order of its reward keys: claiming the
/// same keys in another order is carried out exactly when the first order is,
/// and then leaves the same state, sends to the same contracts, and pays each
/// contract the same amount of every token key. What it claims of a token key
/// is the sum over the claimed keys of what each registered, unpaused reward
/// pays of it.
pub proof fn lemma_claim_order_free(
    s: StateView,
    claimant: Seq<char>,
    block: BlockInfo,
    keys1: Seq<(Seq<char>, Seq<char>)>,
    keys2: Seq<(Seq<char>, Seq<char>)>,
)
    requires
        keys1.to_multiset() == keys2.to_multiset(),
    ensures
        (claim_all(s, claimant, block, keys1) is Done) <==> (claim_all(s, claimant, block, keys2) is Done),
        claim_all(s, claimant, block, keys1) matches Outcome::Done((s1, g1)) ==> (claim_all(
            s,
            claimant,
            block,
            keys2,
        ) matches Outcome::Done((s2, g2)) ==> {
            &&& s1 == s2
            &&& forall|x: Seq<char>| contracts_of(g1).contains(x) <==> contracts_of(g2).contains(x)
            &&& forall|x: Seq<char>, t: Seq<char>| groups_sum(g1, Some(x), t) == groups_sum(g2, Some(x), t)
            &&& forall|k: (Seq<char>, Seq<char>)| #[trigger]
                s.claim_totals.contains_key(k) && k.0 == claimant ==> s1.claim_totals[k].amount_claimed
                    == s.claim_totals[k].amount_claimed + keys_sum(s, keys1, None, k.1)
        }),
{
    if claim_all(s, claimant, block, keys1) is Done {
        lemma_claim_done_transfer(s, claimant, block, keys1, keys2);
    }
    if claim_all(s, claimant, block, keys2) is Done {
        lemma_claim_done_transfer(s, claimant, block, keys2, keys1);
    }
    if let Outcome::Done((s1, g1)) = claim_all(s, claimant, block, keys1) {
        if let Outcome::Done((s2, g2)) = claim_all(s, claimant, block, keys2) {
            let gs1 = claim_collect(s, claimant, block, keys1)->Done_0;
            let gs2 = claim_collect(s, claimant, block, keys2)->Done_0;
            assert forall|c: Option<Seq<char>>, t: Seq<char>| groups_sum(gs1, c, t) == groups_sum(gs2, c, t)
                && groups_sum(gs1, c, t) == keys_sum(s, keys1, c, t) by {
                lemma_collect_sum(s, claimant, block, keys1, c, t);
                lemma_collect_sum(s, claimant, block, keys2, c, t);
                lemma_sum_permutation(keys1, keys2, key_amount(s, c, t));
            }
            assert forall|x: Seq<char>, t: Seq<char>| groups_sum(g1, Some(x), t) == groups_sum(g2, Some(x), t) by {
                assert(groups_sum(gs1, Some(x), t) == groups_sum(gs2, Some(x), t));
            }
            lemma_settle_sum(s.claim_totals, claimant, gs1);
            lemma_settle_sum(s.claim_totals, claimant, gs2);
            assert forall|k: (Seq<char>, Seq<char>)| #[trigger] s.claim_totals.contains_key(k) implies s1.claim_totals[k]
                == s2.claim_totals[k] by {
                assert(groups_sum(gs1, None, k.1) == groups_sum(gs2, None, k.1));
            }
            assert(s1.claim_totals =~= s2.claim_totals);
            assert(s1 =~= s2);
            lemma_collect_contracts(s, claimant, block, keys1);
            lemma_collect_contracts(s, claimant, block, keys2);
            assert forall|x: Seq<char>| contracts_of(g1).contains(x) <==> contracts_of(g2).contains(x) by {
                if exists|i: int| 0 <= i < keys1.len() && (#[trigger] keys1[i]).0 == x {
                    let i = choose|i: int| 0 <= i < keys1.len() && (#[trigger] keys1[i]).0 == x;
                    vstd::seq_lib::to_multiset_contains(keys1, keys1[i]);
                    vstd::seq_lib::to_multiset_contains(keys2, keys1[i]);
                    assert(keys1.contains(keys1[i]));
                    let j = choose|j: int| 0 <= j < keys2.len() && keys2[j] == keys1[i];
                    assert(keys2[j].0 == x);
                }
                if exists|i: int| 0 <= i < keys2.len() && (#[trigger] keys2[i]).0 == x {
                    let i = choose|i: int| 0 <= i < keys2.len() && (#[trigger] keys2[i]).0 == x;
                    vstd::seq_lib::to_multiset_contains(keys1, keys2[i]);
                    vstd::seq_lib::to_multiset_contains(keys2, keys2[i]);
                    assert(keys2.contains(keys2[i]));
                    let j = choose|j: int| 0 <= j < keys1.len() && keys1[j] == keys2[i];
                    assert(keys1[j].0 == x);
                }
            }
        }
    }
}

/// A message runs as the function of its kind: registering, granting,
/// revoking, pausing or claiming, with the same state, sender and block.
pub proof fn lemma_execute_dispatch(s: StateView, block: BlockInfo, sender: Seq<char>, msg: ExecuteMsg)
    ensures
        match msg {
            ExecuteMsg::Register { rewards } => execute_outcome(s, block, sender, msg) == register_all(
                s,
                block,
                sender,
                args_view(rewards@),
            ),
            ExecuteMsg::Grant { grantee, keys, expiration } => execute_outcome(s, block, sender, msg) == grant_all(
                s,
                sender,
                grantee@,
                keys_view(keys@),
                expiration,
            ),
            ExecuteMsg::Revoke { grantee, keys } => execute_outcome(s, block, sender, msg) == Outcome::Done(
                revoke_all(s, sender, grantee@, keys_view(keys@)),
            ),
            ExecuteMsg::Pause { keys } => execute_outcome(s, block, sender, msg) == Outcome::Done(
                pause_all(s, sender, keys_view(keys@)),
            ),
            ExecuteMsg::Claim { grants } => match claim_all(s, sender, block, reward_keys_view(grants@)) {
                Outcome::Done((s2, _)) => execute_outcome(s, block, sender, msg) == Outcome::Done(s2),
                Outcome::Fail(e) => execute_outcome(s, block, sender, msg) == Outcome::<StateView>::Fail(e),
                Outcome::Abort => execute_outcome(s, block, sender, msg) is Abort,
            },
        },
{
}

/// A claimed reward that pays: registered and not paused.
pub open spec fn active(s: StateView, rk: (Seq<char>, Seq<char>)) -> bool {
    s.rewards.contains_key(rk) && !s.rewards[rk].is_paused
}

/// A reward key that a claim can take on its own: granted to the claimant,
/// unexpired, and, where the reward pays, with claims left and a count that
/// does not overflow.
pub open spec fn key_ok(s: StateView, claimant: Seq<char>, block: BlockInfo, rk: (Seq<char>, Seq<char>)) -> bool {
    &&& s.grants.contains_key((claimant, rk))
    &&& !expiration_reached(s.grants[(claimant, rk)].expires_at, block)
    &&& active(s, rk) ==> s.rewards[rk].claims_remaining != Some(0u32) && s.rewards[rk].claims_processed != u32::MAX
}

proof fn lemma_keyed_nonneg(ts: Seq<TokenAmountView>, t: Seq<char>)
    ensures
        keyed_sum(ts, t) >= 0,
        forall|i: int| 0 <= i < ts.len() ==> amount_of(t)(#[trigger] ts[i]) <= keyed_sum(ts, t),
{
    assert forall|i: int| 0 <= i < ts.len() implies amount_of(t)(#[trigger] ts[i]) >= 0 by {}
    lemma_sum_bounds(ts, amount_of(t));
}

proof fn lemma_groups_bounds(gs: Seq<ClaimGroup>, c: Option<Seq<char>>, t: Seq<char>)
    ensures
        groups_sum(gs, c, t) >= 0,
        forall|i: int| 0 <= i < gs.len() ==> group_amount(c, t)(#[trigger] gs[i]) <= groups_sum(gs, c, t),
{
    assert forall|i: int| 0 <= i < gs.len() implies group_amount(c, t)(#[trigger] gs[i]) >= 0 by {
        lemma_keyed_nonneg(gs[i].tokens, t);
    }
    lemma_sum_bounds(gs, group_amount(c, t));
}

proof fn lemma_keys_nonneg(s: StateView, keys: Seq<(Seq<char>, Seq<char>)>, c: Option<Seq<char>>, t: Seq<char>)
    ensures
        forall|i: int| 0 <= i < keys.len() ==> key_amount(s, c, t)(#[trigger] keys[i]) >= 0,
        keys_sum(s, keys, c, t) >= 0,
        keys.len() > 0 ==> keys_sum(s, keys.drop_last(), c, t) <= keys_sum(s, keys, c, t),
{
    assert forall|i: int| 0 <= i < keys.len() implies key_amount(s, c, t)(#[trigger] keys[i]) >= 0 by {
        let rk = keys[i];
        if active(s, rk) {
            lemma_keyed_nonneg(s.rewards[rk].tokens, t);
        }
    }
    lemma_sum_bounds(keys, key_amount(s, c, t));
    if keys.len() > 0 {
        assert(keys.take(keys.len() - 1) =~= keys.drop_last());
        assert(seq_sum(keys.take(keys.len() - 1), key_amount(s, c, t)) <= seq_sum(keys, key_amount(s, c, t)));
    }
}

proof fn lemma_collect_keys_ok(s: StateView, claimant: Seq<char>, block: BlockInfo, keys: Seq<(Seq<char>, Seq<char>)>)
    ensures
        claim_collect(s, claimant, block, keys) is Done ==> forall|i: int|
            0 <= i < keys.len() ==> key_ok(s, claimant, block, #[trigger] keys[i]),
    decreases keys.len(),
{
    if keys.len() > 0 {
        lemma_collect_keys_ok(s, claimant, block, keys.drop_last());
        if claim_collect(s, claimant, block, keys) is Done {
            assert(claim_collect(s, claimant, block, keys.drop_last()) is Done);
            assert forall|i: int| 0 <= i < keys.len() implies key_ok(s, claimant, block, #[trigger] keys[i]) by {
                if i < keys.len() - 1 {
                    assert(keys.drop_last()[i] == keys[i]);
                }
            }
        }
    }
}

/// Merging does not overflow where no token key's total does.
proof fn lemma_merge_done(init: Seq<TokenAmountView>, add: Seq<TokenAmountView>)
    requires
        forall|t: Seq<char>| keyed_sum(init, t) + #[trigger] keyed_sum(add, t) <= u128::MAX,
    ensures
        fold_outcome(init, add, merge_step()) is Done,
    decreases add.len(),
{
    if add.len() > 0 {
        let pre = add.drop_last();
        let ta = add.last();
        assert forall|t: Seq<char>| keyed_sum(init, t) + #[trigger] keyed_sum(pre, t) <= u128::MAX by {
            assert(keyed_sum(add, t) == keyed_sum(pre, t) + amount_of(t)(ta));
        }
        lemma_merge_done(init, pre);
        lemma_merge_never_fails(init, add);
        let kt = token_key(ta.token);
        lemma_merge_sum(init, pre, kt);
        let r1 = fold_outcome(init, pre, merge_step())->Done_0;
        let p = position(token_keys(r1), kt);
        lemma_position(token_keys(r1), kt);
        if p >= 0 {
            lemma_keyed_nonneg(r1, kt);
            assert(token_keys(r1)[p] == token_key(r1[p].token));
            assert(amount_of(kt)(r1[p]) == r1[p].amount);
            assert(keyed_sum(add, kt) == keyed_sum(pre, kt) + ta.amount);
            assert(keyed_sum(init, kt) + keyed_sum(add, kt) <= u128::MAX);
        }
    }
}

/// Collecting does not stop where every key can be taken on its own and no
/// contract's total of a token key overflows.
proof fn lemma_collect_done(s: StateView, claimant: Seq<char>, block: BlockInfo, keys: Seq<(Seq<char>, Seq<char>)>)
    requires
        forall|i: int| 0 <= i < keys.len() ==> key_ok(s, claimant, block, #[trigger] keys[i]),
        forall|c: Seq<char>, t: Seq<char>| #[trigger] keys_sum(s, keys, Some(c), t) <= u128::MAX,
    ensures
        claim_collect(s, claimant, block, keys) is Done,
    decreases keys.len(),
{
    if keys.len() > 0 {
        let pre = keys.drop_last();
        assert forall|i: int| 0 <= i < pre.len() implies key_ok(s, claimant, block, #[trigger] pre[i]) by {
            assert(keys[i] == pre[i]);
        }
        assert forall|c: Seq<char>, t: Seq<char>| #[trigger] keys_sum(s, pre, Some(c), t) <= u128::MAX by {
            lemma_keys_nonneg(s, keys, Some(c), t);
        }
        lemma_collect_done(s, claimant, block, pre);
        let g0 = claim_collect(s, claimant, block, pre)->Done_0;
        let rk = keys.last();
        assert(key_ok(s, claimant, block, keys[keys.len() - 1]));
        let p0 = position(contracts_of(g0), rk.0);
        lemma_position(contracts_of(g0), rk.0);
        let empty = ClaimGroup { contract: rk.0, tokens: Seq::empty() };
        let g1 = if p0 < 0 {
            g0.push(empty)
        } else {
            g0
        };
        let p = if p0 < 0 {
            g0.len() as int
        } else {
            p0
        };
        if p0 >= 0 {
            assert(contracts_of(g0)[p0] == g0[p0].contract);
        }
        assert(g1[p].contract == rk.0);
        if active(s, rk) {
            let rt = s.rewards[rk].tokens;
            assert forall|t: Seq<char>| keyed_sum(g1[p].tokens, t) + #[trigger] keyed_sum(rt, t) <= u128::MAX by {
                let c = Some(rk.0);
                lemma_collect_sum(s, claimant, block, pre, c, t);
                if p0 < 0 {
                    lemma_sum_push(g0, group_amount(c, t), empty);
                    assert(keyed_sum(Seq::<TokenAmountView>::empty(), t) == 0);
                }
                lemma_groups_bounds(g1, c, t);
                assert(group_amount(c, t)(g1[p]) == keyed_sum(g1[p].tokens, t));
                assert(keys_sum(s, keys, c, t) == keys_sum(s, pre, c, t) + key_amount(s, c, t)(rk));
                assert(keys_sum(s, keys, Some(rk.0), t) <= u128::MAX);
            }
            lemma_merge_done(g1[p].tokens, rt);
        }
    }
}

/// Whether a list of amounts holds one of token key `t`.
pub open spec fn has_key(ts: Seq<TokenAmountView>, t: Seq<char>) -> bool {
    exists|j: int| 0 <= j < ts.len() && token_key((#[trigger] ts[j]).token) == t
}

/// Whether some group holds an amount of token key `t`.
pub open spec fn present(gs: Seq<ClaimGroup>, t: Seq<char>) -> bool {
    exists|i: int| 0 <= i < gs.len() && has_key((#[trigger] gs[i]).tokens, t)
}

proof fn lemma_merge_keeps_keys(init: Seq<TokenAmountView>, add: Seq<TokenAmountView>)
    ensures
        fold_outcome(init, add, merge_step()) matches Outcome::Done(r) ==> forall|t: Seq<char>|
            (has_key(init, t) || has_key(add, t)) ==> #[trigger] has_key(r, t),
    decreases add.len(),
{
    if add.len() > 0 {
        let pre = add.drop_last();
        lemma_merge_keeps_keys(init, pre);
        if let Outcome::Done(r) = fold_outcome(init, add, merge_step()) {
            let r1 = fold_outcome(init, pre, merge_step())->Done_0;
            let ta = add.last();
            let kt = token_key(ta.token);
            let p = position(token_keys(r1), kt);
            lemma_position(token_keys(r1), kt);
            assert forall|t: Seq<char>| (has_key(init, t) || has_key(add, t)) implies #[trigger] has_key(r, t) by {
                let keep = has_key(init, t) || has_key(pre, t);
                if !keep {
                    let j = choose|j: int| 0 <= j < add.len() && token_key((#[trigger] add[j]).token) == t;
                    if j < add.len() - 1 {
                        assert(pre[j] == add[j]);
                    }
                    assert(t == kt);
                    if p < 0 {
                        assert(r[r1.len() as int] == ta);
                    } else {
                        assert(token_keys(r1)[p] == token_key(r1[p].token));
                        assert(token_key(r[p].token) == kt);
                    }
                } else {
                    if has_key(pre, t) && !has_key(init, t) {
                        assert(has_key(r1, t));
                    }
                    assert(has_key(r1, t));
                    let j = choose|j: int| 0 <= j < r1.len() && token_key((#[trigger] r1[j]).token) == t;
                    if p < 0 {
                        assert(r[j] == r1[j]);
                    } else {
                        assert(r[j].token == r1[j].token);
                    }
                }
            }
        }
    }
}

/// Every token of a paying reward that a claim takes ends up in a group.
proof fn lemma_collect_present(s: StateView, claimant: Seq<char>, block: BlockInfo, keys: Seq<(Seq<char>, Seq<char>)>)
    ensures
        claim_collect(s, claimant, block, keys) matches Outcome::Done(gs) ==> forall|i: int, j: int|
            0 <= i < keys.len() && active(s, keys[i]) && 0 <= j < s.rewards[keys[i]].tokens.len() ==> present(
                gs,
                token_key((#[trigger] s.rewards[keys[i]].tokens[j]).token),
            ),
    decreases keys.len(),
{
    if keys.len() > 0 {
        let pre = keys.drop_last();
        lemma_collect_present(s, claimant, block, pre);
        if let Outcome::Done(g2) = claim_collect(s, claimant, block, keys) {
            let g0 = claim_collect(s, claimant, block, pre)->Done_0;
            let rk = keys.last();
            let p0 = position(contracts_of(g0), rk.0);
            lemma_position(contracts_of(g0), rk.0);
            let empty = ClaimGroup { contract: rk.0, tokens: Seq::empty() };
            let g1 = if p0 < 0 {
                g0.push(empty)
            } else {
                g0
            };
            let p = if p0 < 0 {
                g0.len() as int
            } else {
                p0
            };
            // what g0 holds, g1 holds
            assert forall|t: Seq<char>| present(g0, t) implies present(g1, t) by {
                let q = choose|q: int| 0 <= q < g0.len() && has_key((#[trigger] g0[q]).tokens, t);
                assert(g1[q] == g0[q]);
            }
            if active(s, rk) {
                let rt = s.rewards[rk].tokens;
                lemma_merge_keeps_keys(g1[p].tokens, rt);
                let merged = fold_outcome(g1[p].tokens, rt, merge_step())->Done_0;
                assert(g2 == g1.update(p, ClaimGroup { contract: rk.0, tokens: merged }));
                assert forall|t: Seq<char>| present(g1, t) implies present(g2, t) by {
                    let q = choose|q: int| 0 <= q < g1.len() && has_key((#[trigger] g1[q]).tokens, t);
                    if q == p {
                        assert(has_key(merged, t));
                        assert(g2[p].tokens == merged);
                    } else {
                        assert(g2[q] == g1[q]);
                    }
                }
                assert forall|j: int| 0 <= j < rt.len() implies present(g2, token_key((#[trigger] rt[j]).token)) by {
                    let t = token_key(rt[j].token);
                    assert(has_key(rt, t));
                    assert(has_key(merged, t));
                    assert(g2[p].tokens == merged);
                }
            } else {
                assert(g2 == g1);
            }
            assert forall|i: int, j: int|
                0 <= i < keys.len() && active(s, keys[i]) && 0 <= j < s.rewards[keys[i]].tokens.len() implies present(
                g2,
                token_key((#[trigger] s.rewards[keys[i]].tokens[j]).token),
            ) by {
                if i < keys.len() - 1 {
                    assert(pre[i] == keys[i]);
                    assert(present(g0, token_key(s.rewards[pre[i]].tokens[j].token)));
                }
            }
        }
    }
}

proof fn lemma_add_claimed_covers(tot: TotalsMap, claimant: Seq<char>, tokens: Seq<TokenAmountView>)
    ensures
        fold_outcome(tot, tokens, add_claimed_step(claimant)) is Done ==> totals_cover(tot, claimant, tokens),
    decreases tokens.len(),
{
    if tokens.len() > 0 {
        lemma_add_claimed_covers(tot, claimant, tokens.drop_last());
        lemma_add_claimed_fold(tot, claimant, tokens.drop_last());
        if fold_outcome(tot, tokens, add_claimed_step(claimant)) is Done {
            assert forall|j: int| 0 <= j < tokens.len() implies tot.contains_key(
                (claimant, token_key(#[trigger] tokens[j].token)),
            ) by {
                if j < tokens.len() - 1 {
                    assert(tokens.drop_last()[j] == tokens[j]);
                }
            }
        }
    }
}

/// Every token key that a settled claim holds has the claimant's totals.
proof fn lemma_settle_covers(tot: TotalsMap, claimant: Seq<char>, gs: Seq<ClaimGroup>)
    ensures
        fold_outcome(tot, gs, settle_step(claimant)) is Done ==> forall|t: Seq<char>|
            #[trigger] present(gs, t) ==> tot.contains_key((claimant, t)),
    decreases gs.len(),
{
    if gs.len() > 0 {
        let pre = gs.drop_last();
        lemma_settle_covers(tot, claimant, pre);
        lemma_settle_fold(tot, claimant, pre);
        if fold_outcome(tot, gs, settle_step(claimant)) is Done {
            let t1 = fold_outcome(tot, pre, settle_step(claimant))->Done_0;
            let last = gs.last();
            lemma_add_claimed_covers(t1, claimant, last.tokens);
            assert forall|t: Seq<char>| #[trigger] present(gs, t) implies tot.contains_key((claimant, t)) by {
                let q = choose|q: int| 0 <= q < gs.len() && has_key((#[trigger] gs[q]).tokens, t);
                if q < gs.len() - 1 {
                    assert(pre[q] == gs[q]);
                    assert(present(pre, t));
                } else {
                    let j = choose|j: int| 0 <= j < last.tokens.len() && token_key((#[trigger] last.tokens[j]).token) == t;
                    assert(t1.contains_key((claimant, token_key(last.tokens[j].token))));
                }
            }
        }
    }
}

/// Collecting keys whose paying rewards' tokens all have the claimant's
/// totals gives groups whose tokens all have them.
proof fn lemma_collect_cover_keys(
    s: StateView,
    claimant: Seq<char>,
    block: BlockInfo,
    keys: Seq<(Seq<char>, Seq<char>)>,
)
    requires
        forall|i: int, j: int|
            0 <= i < keys.len() && active(s, keys[i]) && 0 <= j < s.rewards[keys[i]].tokens.len()
                ==> s.claim_totals.contains_key((claimant, token_key((#[trigger] s.rewards[keys[i]].tokens[j]).token))),
    ensures
        claim_collect(s, claimant, block, keys) matches Outcome::Done(groups) ==> forall|i: int|
            0 <= i < groups.len() ==> totals_cover(s.claim_totals, claimant, (#[trigger] groups[i]).tokens),
    decreases keys.len(),
{
    if keys.len() > 0 {
        let pre = keys.drop_last();
        assert forall|i: int, j: int|
            0 <= i < pre.len() && active(s, pre[i]) && 0 <= j < s.rewards[pre[i]].tokens.len()
                implies s.claim_totals.contains_key((claimant, token_key((#[trigger] s.rewards[pre[i]].tokens[j]).token))) by {
            assert(pre[i] == keys[i]);
        }
        lemma_collect_cover_keys(s, claimant, block, pre);
        if let Outcome::Done(g0) = claim_collect(s, claimant, block, pre) {
            let rk = keys.last();
            let gk = (claimant, rk);
            if s.grants.contains_key(gk) && !expiration_reached(s.grants[gk].expires_at, block) {
                let p0 = position(contracts_of(g0), rk.0);
                let g1 = if p0 < 0 {
                    g0.push(ClaimGroup { contract: rk.0, tokens: Seq::empty() })
                } else {
                    g0
                };
                let p = if p0 < 0 {
                    g0.len() as int
                } else {
                    p0
                };
                lemma_position(contracts_of(g0), rk.0);
                assert forall|i: int| 0 <= i < g1.len() implies totals_cover(
                    s.claim_totals,
                    claimant,
                    (#[trigger] g1[i]).tokens,
                ) by {
                    if i < g0.len() {
                        assert(g1[i] == g0[i]);
                    }
                }
                if active(s, rk) {
                    let rt = s.rewards[rk].tokens;
                    assert forall|j: int| 0 <= j < rt.len() implies s.claim_totals.contains_key(
                        (claimant, token_key(#[trigger] rt[j].token)),
                    ) by {
                        assert(keys[keys.len() - 1] == rk);
                        assert(s.rewards[keys[keys.len() - 1]].tokens[j] == rt[j]);
                    }
                    lemma_merge_cover(s.claim_totals, claimant, g1[p].tokens, rt);
                }
            }
        }
    }
}

proof fn lemma_add_claimed_done(tot: TotalsMap, claimant: Seq<char>, tokens: Seq<TokenAmountView>)
    requires
        totals_cover(tot, claimant, tokens),
        forall|t: Seq<char>|
            tot.contains_key((claimant, t)) ==> tot[(claimant, t)].amount_claimed + #[trigger] keyed_sum(tokens, t)
                <= u128::MAX,
    ensures
        fold_outcome(tot, tokens, add_claimed_step(claimant)) is Done,
    decreases tokens.len(),
{
    if tokens.len() > 0 {
        let pre = tokens.drop_last();
        let ta = tokens.last();
        assert forall|j: int| 0 <= j < pre.len() implies tot.contains_key((claimant, token_key(#[trigger] pre[j].token))) by {
            assert(pre[j] == tokens[j]);
        }
        assert forall|t: Seq<char>|
            tot.contains_key((claimant, t)) implies tot[(claimant, t)].amount_claimed + #[trigger] keyed_sum(pre, t)
                <= u128::MAX by {
            assert(keyed_sum(tokens, t) == keyed_sum(pre, t) + amount_of(t)(ta));
        }
        lemma_add_claimed_done(tot, claimant, pre);
        lemma_add_claimed_sum(tot, claimant, pre);
        let kt = token_key(ta.token);
        assert(tot.contains_key((claimant, token_key(tokens[tokens.len() - 1].token))));
        assert(keyed_sum(tokens, kt) == keyed_sum(pre, kt) + ta.amount);
        assert(tot[(claimant, kt)].amount_claimed + keyed_sum(tokens, kt) <= u128::MAX);
    }
}

proof fn lemma_settle_done(tot: TotalsMap, claimant: Seq<char>, gs: Seq<ClaimGroup>)
    requires
        forall|i: int| 0 <= i < gs.len() ==> totals_cover(tot, claimant, (#[trigger] gs[i]).tokens),
        forall|t: Seq<char>|
            tot.contains_key((claimant, t)) ==> tot[(claimant, t)].amount_claimed + #[trigger] groups_sum(gs, None, t)
                <= u128::MAX,
    ensures
        fold_outcome(tot, gs, settle_step(claimant)) is Done,
    decreases gs.len(),
{
    if gs.len() > 0 {
        let pre = gs.drop_last();
        let last = gs.last();
        assert forall|i: int| 0 <= i < pre.len() implies totals_cover(tot, claimant, (#[trigger] pre[i]).tokens) by {
            assert(pre[i] == gs[i]);
        }
        assert forall|t: Seq<char>|
            tot.contains_key((claimant, t)) implies tot[(claimant, t)].amount_claimed + #[trigger] groups_sum(pre, None, t)
                <= u128::MAX by {
            lemma_keyed_nonneg(last.tokens, t);
            assert(groups_sum(gs, None, t) == groups_sum(pre, None, t) + group_amount(None, t)(last));
        }
        lemma_settle_done(tot, claimant, pre);
        lemma_settle_sum(tot, claimant, pre);
        let t1 = fold_outcome(tot, pre, settle_step(claimant))->Done_0;
        assert(totals_cover(tot, claimant, gs[gs.len() - 1].tokens));
        assert forall|j: int| 0 <= j < last.tokens.len() implies t1.contains_key(
            (claimant, token_key(#[trigger] last.tokens[j].token)),
        ) by {
            assert(tot.contains_key((claimant, token_key(last.tokens[j].token))));
        }
        assert forall|t: Seq<char>|
            t1.contains_key((claimant, t)) implies t1[(claimant, t)].amount_claimed + #[trigger] keyed_sum(last.tokens, t)
                <= u128::MAX by {
            assert(tot.contains_key((claimant, t)));
            assert(groups_sum(gs, None, t) == groups_sum(pre, None, t) + group_amount(None, t)(last));
        }
        lemma_add_claimed_done(t1, claimant, last.tokens);
    }
}

/// Where no group holds token key `t`, the groups pay none of it.
proof fn lemma_absent_sum(gs: Seq<ClaimGroup>, c: Option<Seq<char>>, t: Seq<char>)
    requires
        !present(gs, t),
    ensures
        groups_sum(gs, c, t) == 0,
{
    assert forall|i: int| 0 <= i < gs.len() implies group_amount(c, t)(#[trigger] gs[i]) == 0 by {
        assert(!has_key(gs[i].tokens, t));
        assert forall|j: int| 0 <= j < gs[i].tokens.len() implies amount_of(t)(#[trigger] gs[i].tokens[j]) == 0 by {}
        lemma_sum_zero(gs[i].tokens, amount_of(t));
    }
    lemma_sum_zero(gs, group_amount(c, t));
}

/// Whether a claim is carried out does not depend on the order of its keys.
proof fn lemma_claim_done_transfer(
    s: StateView,
    claimant: Seq<char>,
    block: BlockInfo,
    keys1: Seq<(Seq<char>, Seq<char>)>,
    keys2: Seq<(Seq<char>, Seq<char>)>,
)
    requires
        keys1.to_multiset() == keys2.to_multiset(),
        claim_all(s, claimant, block, keys1) is Done,
    ensures
        claim_all(s, claimant, block, keys2) is Done,
{
    let tot = s.claim_totals;
    let gs1 = claim_collect(s, claimant, block, keys1)->Done_0;
    let t1 = fold_outcome(tot, gs1, settle_step(claimant))->Done_0;
    lemma_settle_sum(tot, claimant, gs1);
    lemma_settle_covers(tot, claimant, gs1);
    lemma_collect_keys_ok(s, claimant, block, keys1);
    lemma_collect_present(s, claimant, block, keys1);
    // every key of the second order is one of the first
    assert forall|i: int| #![trigger keys2[i]] 0 <= i < keys2.len() implies exists|i1: int|
        0 <= i1 < keys1.len() && #[trigger] keys1[i1] == keys2[i] by {
        vstd::seq_lib::to_multiset_contains(keys1, keys2[i]);
        vstd::seq_lib::to_multiset_contains(keys2, keys2[i]);
        assert(keys2.contains(keys2[i]));
    }
    assert forall|i: int| 0 <= i < keys2.len() implies key_ok(s, claimant, block, #[trigger] keys2[i]) by {
        let i1 = choose|i1: int| 0 <= i1 < keys1.len() && #[trigger] keys1[i1] == keys2[i];
        assert(key_ok(s, claimant, block, keys1[i1]));
    }
    // what the first order claims of a token key fits in the claimant's total
    assert forall|t: Seq<char>| #[trigger] groups_sum(gs1, None, t) <= u128::MAX by {
        if tot.contains_key((claimant, t)) {
            assert(t1[(claimant, t)].amount_claimed == tot[(claimant, t)].amount_claimed + groups_sum(gs1, None, t));
        } else {
            lemma_absent_sum(gs1, None, t);
        }
    }
    assert forall|c: Seq<char>, t: Seq<char>| #[trigger] keys_sum(s, keys2, Some(c), t) <= u128::MAX by {
        lemma_sum_permutation(keys1, keys2, key_amount(s, Some(c), t));
        lemma_keys_nonneg(s, keys1, None, t);
        assert forall|i: int| 0 <= i < keys1.len() implies key_amount(s, Some(c), t)(#[trigger] keys1[i]) <= key_amount(
            s,
            None,
            t,
        )(keys1[i]) by {}
        lemma_sum_le(keys1, key_amount(s, Some(c), t), key_amount(s, None, t));
        lemma_collect_sum(s, claimant, block, keys1, None, t);
        assert(groups_sum(gs1, None, t) <= u128::MAX);
    }
    lemma_collect_done(s, claimant, block, keys2);
    let gs2 = claim_collect(s, claimant, block, keys2)->Done_0;
    // the claimant has totals of every token the second order pays
    assert forall|i: int, j: int|
        0 <= i < keys2.len() && active(s, keys2[i]) && 0 <= j < s.rewards[keys2[i]].tokens.len()
            implies tot.contains_key((claimant, token_key((#[trigger] s.rewards[keys2[i]].tokens[j]).token))) by {
        let i1 = choose|i1: int| 0 <= i1 < keys1.len() && #[trigger] keys1[i1] == keys2[i];
        assert(present(gs1, token_key(s.rewards[keys1[i1]].tokens[j].token)));
    }
    lemma_collect_cover_keys(s, claimant, block, keys2);
    assert forall|t: Seq<char>|
        tot.contains_key((claimant, t)) implies tot[(claimant, t)].amount_claimed + #[trigger] groups_sum(gs2, None, t)
            <= u128::MAX by {
        lemma_collect_sum(s, claimant, block, keys1, None, t);
        lemma_collect_sum(s, claimant, block, keys2, None, t);
        lemma_sum_permutation(keys1, keys2, key_amount(s, None, t));
        assert(t1[(claimant, t)].amount_claimed == tot[(claimant, t)].amount_claimed + groups_sum(gs1, None, t));
    }
    lemma_settle_done(tot, claimant, gs2);
}

/// Whether a list of amounts holds one of token `tok`.
pub open spec fn has_token(ts: Seq<TokenAmountView>, tok: TokenView) -> bool {
    exists|j: int| 0 <= j < ts.len() && (#[trigger] ts[j]).token == tok
}

/// Whether a claimed, paying reward of contract `x` pays in token `tok`.
pub open spec fn paid_by(s: StateView, keys: Seq<(Seq<char>, Seq<char>)>, x: Seq<char>, tok: TokenView) -> bool {
    exists|a: int|
        0 <= a < keys.len() && (#[trigger] keys[a]).0 == x && active(s, keys[a]) && has_token(
            s.rewards[keys[a]].tokens,
            tok,
        )
}

/// The claimed rewards of each contract name each token by its own key: two
/// tokens that they pay under the same token key are the same token.
pub open spec fn keyed_apart(s: StateView, keys: Seq<(Seq<char>, Seq<char>)>) -> bool {
    forall|x: Seq<char>, t1: TokenView, t2: TokenView|
        #[trigger] paid_by(s, keys, x, t1) && #[trigger] paid_by(s, keys, x, t2) && token_key(t1) == token_key(t2)
            ==> t1 == t2
}

/// Whether a group of contract `x` holds an amount of token key `t`.
pub open spec fn group_has(gs: Seq<ClaimGroup>, x: Seq<char>, t: Seq<char>) -> bool {
    exists|i: int| 0 <= i < gs.len() && (#[trigger] gs[i]).contract == x && has_key(gs[i].tokens, t)
}

/// Merging keeps token keys apart, and every token it ends with is one that
/// it started with or added.
proof fn lemma_merge_shape(init: Seq<TokenAmountView>, add: Seq<TokenAmountView>)
    ensures
        fold_outcome(init, add, merge_step()) matches Outcome::Done(r) ==> {
            &&& token_keys(init).no_duplicates() ==> token_keys(r).no_duplicates()
            &&& forall|j: int|
                0 <= j < r.len() ==> has_token(init, (#[trigger] r[j]).token) || has_token(add, r[j].token)
        },
    decreases add.len(),
{
    if add.len() > 0 {
        let pre = add.drop_last();
        lemma_merge_shape(init, pre);
        if let Outcome::Done(r) = fold_outcome(init, add, merge_step()) {
            let r1 = fold_outcome(init, pre, merge_step())->Done_0;
            let ta = add.last();
            let kt = token_key(ta.token);
            let p = position(token_keys(r1), kt);
            lemma_position(token_keys(r1), kt);
            if p < 0 {
                assert(r == r1.push(ta));
                assert(token_keys(r) =~= token_keys(r1).push(kt));
                if token_keys(init).no_duplicates() {
                    assert forall|a: int, b: int|
                        0 <= a < token_keys(r).len() && 0 <= b < token_keys(r).len() && a != b implies token_keys(
                        r,
                    )[a] != token_keys(r)[b] by {
                        if a < r1.len() && b < r1.len() {
                            assert(token_keys(r)[a] == token_keys(r1)[a]);
                            assert(token_keys(r)[b] == token_keys(r1)[b]);
                        }
                    }
                }
            } else {
                let y = TokenAmountView { amount: (r1[p].amount + ta.amount) as u128, ..r1[p] };
                assert(r == r1.update(p, y));
                assert(token_keys(r) =~= token_keys(r1));
            }
            assert forall|j: int| 0 <= j < r.len() implies has_token(init, (#[trigger] r[j]).token) || has_token(
                add,
                r[j].token,
            ) by {
                if p < 0 && j == r1.len() {
                    assert(add[add.len() - 1] == ta);
                } else {
                    assert(r[j].token == r1[j].token);
                    if has_token(pre, r1[j].token) {
                        let q = choose|q: int| 0 <= q < pre.len() && (#[trigger] pre[q]).token == r1[j].token;
                        assert(add[q] == pre[q]);
                    }
                }
            }
        }
    }
}

/// A claim's groups are of distinct contracts, and each group's amounts are
/// of distinct token keys.
proof fn lemma_collect_shape(s: StateView, claimant: Seq<char>, block: BlockInfo, keys: Seq<(Seq<char>, Seq<char>)>)
    ensures
        claim_collect(s, claimant, block, keys) matches Outcome::Done(gs) ==> {
            &&& contracts_of(gs).no_duplicates()
            &&& forall|i: int| 0 <= i < gs.len() ==> token_keys((#[trigger] gs[i]).tokens).no_duplicates()
        },
    decreases keys.len(),
{
    if keys.len() == 0 {
        assert(contracts_of(Seq::<ClaimGroup>::empty()).len() == 0);
    } else {
        let pre = keys.drop_last();
        lemma_collect_shape(s, claimant, block, pre);
        if let Outcome::Done(g2) = claim_collect(s, claimant, block, keys) {
            let g0 = claim_collect(s, claimant, block, pre)->Done_0;
            let rk = keys.last();
            let p0 = position(contracts_of(g0), rk.0);
            lemma_position(contracts_of(g0), rk.0);
            let empty = ClaimGroup { contract: rk.0, tokens: Seq::empty() };
            let g1 = if p0 < 0 {
                g0.push(empty)
            } else {
                g0
            };
            let p = if p0 < 0 {
                g0.len() as int
            } else {
                p0
            };
            if p0 < 0 {
                assert(contracts_of(g1) =~= contracts_of(g0).push(rk.0));
                assert forall|a: int, b: int|
                    0 <= a < contracts_of(g1).len() && 0 <= b < contracts_of(g1).len() && a != b implies contracts_of(
                    g1,
                )[a] != contracts_of(g1)[b] by {
                    if a < g0.len() && b < g0.len() {
                        assert(contracts_of(g1)[a] == contracts_of(g0)[a]);
                        assert(contracts_of(g1)[b] == contracts_of(g0)[b]);
                    }
                }
                assert(token_keys(empty.tokens) =~= Seq::<Seq<char>>::empty());
            } else {
                assert(contracts_of(g0)[p0] == g0[p0].contract);
            }
            assert forall|i: int| 0 <= i < g1.len() implies token_keys((#[trigger] g1[i]).tokens).no_duplicates() by {
                if i < g0.len() {
                    assert(g1[i] == g0[i]);
                }
            }
            if active(s, rk) {
                let rt = s.rewards[rk].tokens;
                lemma_merge_shape(g1[p].tokens, rt);
                let merged = fold_outcome(g1[p].tokens, rt, merge_step())->Done_0;
                assert(g2 == g1.update(p, ClaimGroup { contract: rk.0, tokens: merged }));
                assert(contracts_of(g2) =~= contracts_of(g1));
                assert forall|i: int| 0 <= i < g2.len() implies token_keys((#[trigger] g2[i]).tokens).no_duplicates() by {
                    if i != p {
                        assert(g2[i] == g1[i]);
                    }
                }
            } else {
                assert(g2 == g1);
            }
        }
    }
}

/// Every token in a claim's group of a contract is one that a claimed,
/// paying reward of that contract pays in.
proof fn lemma_collect_paid(s: StateView, claimant: Seq<char>, block: BlockInfo, keys: Seq<(Seq<char>, Seq<char>)>)
    ensures
        claim_collect(s, claimant, block, keys) matches Outcome::Done(gs) ==> forall|i: int, j: int|
            0 <= i < gs.len() && 0 <= j < gs[i].tokens.len() ==> paid_by(
                s,
                keys,
                gs[i].contract,
                (#[trigger] gs[i].tokens[j]).token,
            ),
    decreases keys.len(),
{
    if keys.len() > 0 {
        let pre = keys.drop_last();
        lemma_collect_paid(s, claimant, block, pre);
        if let Outcome::Done(g2) = claim_collect(s, claimant, block, keys) {
            let g0 = claim_collect(s, claimant, block, pre)->Done_0;
            let rk = keys.last();
            let p0 = position(contracts_of(g0), rk.0);
            lemma_position(contracts_of(g0), rk.0);
            let empty = ClaimGroup { contract: rk.0, tokens: Seq::empty() };
            let g1 = if p0 < 0 {
                g0.push(empty)
            } else {
                g0
            };
            let p = if p0 < 0 {
                g0.len() as int
            } else {
                p0
            };
            if p0 >= 0 {
                assert(contracts_of(g0)[p0] == g0[p0].contract);
            }
            assert(g1[p].contract == rk.0);
            // what was paid by the first keys is paid by all of them
            assert forall|x: Seq<char>, tok: TokenView| #[trigger] paid_by(s, pre, x, tok) implies paid_by(
                s,
                keys,
                x,
                tok,
            ) by {
                let a = choose|a: int|
                    0 <= a < pre.len() && (#[trigger] pre[a]).0 == x && active(s, pre[a]) && has_token(
                        s.rewards[pre[a]].tokens,
                        tok,
                    );
                assert(keys[a] == pre[a]);
            }
            assert forall|i: int, j: int| 0 <= i < g1.len() && 0 <= j < g1[i].tokens.len() implies paid_by(
                s,
                keys,
                g1[i].contract,
                (#[trigger] g1[i].tokens[j]).token,
            ) by {
                assert(i < g0.len());
                assert(g1[i] == g0[i]);
                assert(paid_by(s, pre, g0[i].contract, g0[i].tokens[j].token));
            }
            if active(s, rk) {
                let rt = s.rewards[rk].tokens;
                lemma_merge_shape(g1[p].tokens, rt);
                let merged = fold_outcome(g1[p].tokens, rt, merge_step())->Done_0;
                assert(g2 == g1.update(p, ClaimGroup { contract: rk.0, tokens: merged }));
                assert forall|i: int, j: int| 0 <= i < g2.len() && 0 <= j < g2[i].tokens.len() implies paid_by(
                    s,
                    keys,
                    g2[i].contract,
                    (#[trigger] g2[i].tokens[j]).token,
                ) by {
                    if i == p {
                        let tok = merged[j].token;
                        assert(g2[i].tokens[j] == merged[j]);
                        if has_token(g1[p].tokens, tok) {
                            let q = choose|q: int| 0 <= q < g1[p].tokens.len() && (#[trigger] g1[p].tokens[q]).token == tok;
                            assert(paid_by(s, keys, g1[p].contract, g1[p].tokens[q].token));
                        } else {
                            assert(has_token(rt, tok));
                            assert(keys[keys.len() - 1] == rk);
                            assert(paid_by(s, keys, rk.0, tok));
                        }
                    } else {
                        assert(g2[i] == g1[i]);
                    }
                }
            } else {
                assert(g2 == g1);
            }
        }
    }
}

/// Every token key that a claimed, paying reward pays in ends up in the
/// group of its contract.
proof fn lemma_collect_group_has(
    s: StateView,
    claimant: Seq<char>,
    block: BlockInfo,
    keys: Seq<(Seq<char>, Seq<char>)>,
)
    ensures
        claim_collect(s, claimant, block, keys) matches Outcome::Done(gs) ==> forall|a: int, t: Seq<char>|
            0 <= a < keys.len() && active(s, keys[a]) && #[trigger] has_key(s.rewards[keys[a]].tokens, t)
                ==> group_has(gs, keys[a].0, t),
    decreases keys.len(),
{
    if keys.len() > 0 {
        let pre = keys.drop_last();
        lemma_collect_group_has(s, claimant, block, pre);
        if let Outcome::Done(g2) = claim_collect(s, claimant, block, keys) {
            let g0 = claim_collect(s, claimant, block, pre)->Done_0;
            let rk = keys.last();
            let p0 = position(contracts_of(g0), rk.0);
            lemma_position(contracts_of(g0), rk.0);
            let empty = ClaimGroup { contract: rk.0, tokens: Seq::empty() };
            let g1 = if p0 < 0 {
                g0.push(empty)
            } else {
                g0
            };
            let p = if p0 < 0 {
                g0.len() as int
            } else {
                p0
            };
            if p0 >= 0 {
                assert(contracts_of(g0)[p0] == g0[p0].contract);
            }
            assert(g1[p].contract == rk.0);
            assert forall|x: Seq<char>, t: Seq<char>| #[trigger] group_has(g0, x, t) implies group_has(g1, x, t) by {
                let q = choose|q: int| 0 <= q < g0.len() && (#[trigger] g0[q]).contract == x && has_key(g0[q].tokens, t);
                assert(g1[q] == g0[q]);
            }
            if active(s, rk) {
                let rt = s.rewards[rk].tokens;
                lemma_merge_keeps_keys(g1[p].tokens, rt);
                let merged = fold_outcome(g1[p].tokens, rt, merge_step())->Done_0;
                assert(g2 == g1.update(p, ClaimGroup { contract: rk.0, tokens: merged }));
                assert forall|x: Seq<char>, t: Seq<char>| #[trigger] group_has(g1, x, t) implies group_has(g2, x, t) by {
                    let q = choose|q: int| 0 <= q < g1.len() && (#[trigger] g1[q]).contract == x && has_key(g1[q].tokens, t);
                    if q == p {
                        assert(has_key(merged, t));
                        assert(g2[p].tokens == merged);
                    } else {
                        assert(g2[q] == g1[q]);
                    }
                }
                assert forall|t: Seq<char>| #[trigger] has_key(rt, t) implies group_has(g2, rk.0, t) by {
                    assert(has_key(merged, t));
                    assert(g2[p].tokens == merged);
                    assert(g2[p].contract == rk.0);
                }
            } else {
                assert(g2 == g1);
            }
            assert forall|a: int, t: Seq<char>|
                0 <= a < keys.len() && active(s, keys[a]) && #[trigger] has_key(s.rewards[keys[a]].tokens, t)
                    implies group_has(g2, keys[a].0, t) by {
                if a < keys.len() - 1 {
                    assert(pre[a] == keys[a]);
                    assert(group_has(g0, pre[a].0, t));
                    assert(group_has(g1, pre[a].0, t));
                } else {
                    assert(keys[a] == rk);
                }
            }
        }
    }
}

/// Among groups of distinct contracts, what the contract of a group is paid
/// is what that group holds.
proof fn lemma_group_of(gs: Seq<ClaimGroup>, i: int, t: Seq<char>)
    requires
        contracts_of(gs).no_duplicates(),
        0 <= i < gs.len(),
    ensures
        groups_sum(gs, Some(gs[i].contract), t) == keyed_sum(gs[i].tokens, t),
{
    let x = gs[i].contract;
    let f = group_amount(Some(x), t);
    lemma_sum_remove(gs, f, i);
    let rest = gs.remove(i);
    assert forall|k: int| 0 <= k < rest.len() implies f(#[trigger] rest[k]) == 0 by {
        let k0 = if k < i {
            k
        } else {
            k + 1
        };
        assert(rest[k] == gs[k0]);
        assert(contracts_of(gs)[k0] != contracts_of(gs)[i]);
    }
    lemma_sum_zero(rest, f);
}

/// Among amounts of distinct token keys, what a list holds of an amount's
/// token key is that amount.
proof fn lemma_key_amount(ts: Seq<TokenAmountView>, j: int)
    requires
        token_keys(ts).no_duplicates(),
        0 <= j < ts.len(),
    ensures
        keyed_sum(ts, token_key(ts[j].token)) == ts[j].amount,
{
    let t = token_key(ts[j].token);
    let f = amount_of(t);
    lemma_sum_remove(ts, f, j);
    let rest = ts.remove(j);
    assert forall|k: int| 0 <= k < rest.len() implies f(#[trigger] rest[k]) == 0 by {
        let k0 = if k < j {
            k
        } else {
            k + 1
        };
        assert(rest[k] == ts[k0]);
        assert(token_keys(ts)[k0] != token_keys(ts)[j]);
    }
    lemma_sum_zero(rest, f);
}

/// Two lists without repeats that hold the same values are the same up to
/// order.
proof fn lemma_same_values<A>(l1: Seq<A>, l2: Seq<A>)
    requires
        l1.no_duplicates(),
        l2.no_duplicates(),
        forall|v: A| l1.contains(v) <==> l2.contains(v),
    ensures
        l1.to_multiset() == l2.to_multiset(),
{
    l1.lemma_multiset_has_no_duplicates();
    l2.lemma_multiset_has_no_duplicates();
    assert forall|v: A| l1.to_multiset().count(v) == l2.to_multiset().count(v) by {
        vstd::seq_lib::to_multiset_contains(l1, v);
        vstd::seq_lib::to_multiset_contains(l2, v);
    }
    assert(l1.to_multiset() =~= l2.to_multiset());
}

/// Keys that hold the same keys the same number of times pay in the same
/// tokens, contract by contract.
proof fn lemma_paid_by_same(
    s: StateView,
    keys1: Seq<(Seq<char>, Seq<char>)>,
    keys2: Seq<(Seq<char>, Seq<char>)>,
)
    requires
        keys1.to_multiset() == keys2.to_multiset(),
    ensures
        forall|x: Seq<char>, tok: TokenView| #[trigger] paid_by(s, keys1, x, tok) ==> paid_by(s, keys2, x, tok),
{
    assert forall|x: Seq<char>, tok: TokenView| #[trigger] paid_by(s, keys1, x, tok) implies paid_by(s, keys2, x, tok) by {
        let a = choose|a: int|
            0 <= a < keys1.len() && (#[trigger] keys1[a]).0 == x && active(s, keys1[a]) && has_token(
                s.rewards[keys1[a]].tokens,
                tok,
            );
        vstd::seq_lib::to_multiset_contains(keys1, keys1[a]);
        vstd::seq_lib::to_multiset_contains(keys2, keys1[a]);
        assert(keys1.contains(keys1[a]));
        let b = choose|b: int| 0 <= b < keys2.len() && keys2[b] == keys1[a];
        assert(keys2[b].0 == x);
    }
}

/// Every amount in the first order's group of a contract is in the second
/// order's group of that contract.
proof fn lemma_group_amounts_in(
    s: StateView,
    claimant: Seq<char>,
    block: BlockInfo,
    keys1: Seq<(Seq<char>, Seq<char>)>,
    keys2: Seq<(Seq<char>, Seq<char>)>,
    i: int,
    j: int,
)
    requires
        keys1.to_multiset() == keys2.to_multiset(),
        keyed_apart(s, keys1),
        claim_collect(s, claimant, block, keys1) is Done,
        claim_collect(s, claimant, block, keys2) is Done,
        0 <= i < claim_collect(s, claimant, block, keys1)->Done_0.len(),
        0 <= j < claim_collect(s, claimant, block, keys2)->Done_0.len(),
        claim_collect(s, claimant, block, keys1)->Done_0[i].contract == claim_collect(
            s,
            claimant,
            block,
            keys2,
        )->Done_0[j].contract,
    ensures
        forall|p: int|
            0 <= p < claim_collect(s, claimant, block, keys1)->Done_0[i].tokens.len() ==> claim_collect(
                s,
                claimant,
                block,
                keys2,
            )->Done_0[j].tokens.contains(
                #[trigger] claim_collect(s, claimant, block, keys1)->Done_0[i].tokens[p],
            ),
{
    let gs1 = claim_collect(s, claimant, block, keys1)->Done_0;
    let gs2 = claim_collect(s, claimant, block, keys2)->Done_0;
    let x = gs1[i].contract;
    let l1 = gs1[i].tokens;
    let l2 = gs2[j].tokens;
    lemma_collect_shape(s, claimant, block, keys1);
    lemma_collect_shape(s, claimant, block, keys2);
    lemma_collect_paid(s, claimant, block, keys1);
    lemma_collect_paid(s, claimant, block, keys2);
    lemma_collect_group_has(s, claimant, block, keys2);
    lemma_paid_by_same(s, keys1, keys2);
    lemma_paid_by_same(s, keys2, keys1);
    assert forall|p: int| 0 <= p < l1.len() implies l2.contains(#[trigger] l1[p]) by {
        let tok = l1[p].token;
        let t = token_key(tok);
        assert(gs1[i].tokens[p] == l1[p]);
        assert(paid_by(s, keys1, x, tok));
        // a claimed reward of the contract pays in this token
        let a1 = choose|a: int|
            0 <= a < keys1.len() && (#[trigger] keys1[a]).0 == x && active(s, keys1[a]) && has_token(
                s.rewards[keys1[a]].tokens,
                tok,
            );
        vstd::seq_lib::to_multiset_contains(keys1, keys1[a1]);
        vstd::seq_lib::to_multiset_contains(keys2, keys1[a1]);
        assert(keys1.contains(keys1[a1]));
        let a2 = choose|b: int| 0 <= b < keys2.len() && keys2[b] == keys1[a1];
        let rt = s.rewards[keys2[a2]].tokens;
        let b = choose|b: int| 0 <= b < rt.len() && (#[trigger] rt[b]).token == tok;
        assert(has_key(rt, t));
        // so the second order's group of the contract holds its token key
        assert(group_has(gs2, keys2[a2].0, t));
        let q = choose|q: int| 0 <= q < gs2.len() && (#[trigger] gs2[q]).contract == x && has_key(gs2[q].tokens, t);
        assert(contracts_of(gs2)[q] == contracts_of(gs2)[j]);
        assert(q == j);
        let r = choose|r: int| 0 <= r < l2.len() && token_key((#[trigger] l2[r]).token) == t;
        // with the same token
        assert(gs2[j].tokens[r] == l2[r]);
        assert(paid_by(s, keys2, x, l2[r].token));
        assert(paid_by(s, keys1, x, l2[r].token));
        assert(l2[r].token == tok);
        // and the same amount
        lemma_key_amount(l1, p);
        lemma_key_amount(l2, r);
        lemma_group_of(gs1, i, t);
        lemma_group_of(gs2, j, t);
        lemma_collect_sum(s, claimant, block, keys1, Some(x), t);
        lemma_collect_sum(s, claimant, block, keys2, Some(x), t);
        lemma_sum_permutation(keys1, keys2, key_amount(s, Some(x), t));
        assert(l2[r] == l1[p]);
    }
}

/// A list of amounts of distinct token keys holds no amount twice.
proof fn lemma_keys_apart_values(ts: Seq<TokenAmountView>)
    requires
        token_keys(ts).no_duplicates(),
    ensures
        ts.no_duplicates(),
{
    assert forall|a: int, b: int| 0 <= a < ts.len() && 0 <= b < ts.len() && a != b implies ts[a] != ts[b] by {
        assert(token_keys(ts)[a] == token_key(ts[a].token));
        assert(token_keys(ts)[b] == token_key(ts[b].token));
    }
}

/// Where each contract's claimed rewards name each token by its own key,
/// claiming the same keys in another order sends the same claim messages up
/// to their order: to the same contracts, each once, and to each contract the
/// same amounts up to their order.
pub proof fn lemma_claim_messages_order_free(
    s: StateView,
    claimant: Seq<char>,
    block: BlockInfo,
    keys1: Seq<(Seq<char>, Seq<char>)>,
    keys2: Seq<(Seq<char>, Seq<char>)>,
)
    requires
        keys1.to_multiset() == keys2.to_multiset(),
        keyed_apart(s, keys1),
    ensures
        claim_all(s, claimant, block, keys1) matches Outcome::Done((_s1, g1)) ==> (claim_all(
            s,
            claimant,
            block,
            keys2,
        ) matches Outcome::Done((_s2, g2)) ==> {
            &&& contracts_of(g1).no_duplicates()
            &&& contracts_of(g1).to_multiset() == contracts_of(g2).to_multiset()
            &&& forall|i: int, j: int|
                0 <= i < g1.len() && 0 <= j < g2.len() && g1[i].contract == g2[j].contract
                    ==> (#[trigger] g1[i]).tokens.to_multiset() == (#[trigger] g2[j]).tokens.to_multiset()
        }),
{
    if let Outcome::Done((s1, g1)) = claim_all(s, claimant, block, keys1) {
        if let Outcome::Done((s2, g2)) = claim_all(s, claimant, block, keys2) {
            lemma_claim_order_free(s, claimant, block, keys1, keys2);
            lemma_collect_shape(s, claimant, block, keys1);
            lemma_collect_shape(s, claimant, block, keys2);
            lemma_same_values(contracts_of(g1), contracts_of(g2));
            lemma_paid_by_same(s, keys1, keys2);
            lemma_paid_by_same(s, keys2, keys1);
            assert(keyed_apart(s, keys2));
            assert(keys2.to_multiset() == keys1.to_multiset());
            assert forall|i: int, j: int|
                0 <= i < g1.len() && 0 <= j < g2.len() && g1[i].contract == g2[j].contract implies (
                #[trigger] g1[i]).tokens.to_multiset() == (#[trigger] g2[j]).tokens.to_multiset() by {
                lemma_group_amounts_in(s, claimant, block, keys1, keys2, i, j);
                lemma_group_amounts_in(s, claimant, block, keys2, keys1, j, i);
                let l1 = g1[i].tokens;
                let l2 = g2[j].tokens;
                lemma_keys_apart_values(l1);
                lemma_keys_apart_values(l2);
                assert forall|v: TokenAmountView| l1.contains(v) <==> l2.contains(v) by {
                    if l1.contains(v) {
                        let p = choose|p: int| 0 <= p < l1.len() && l1[p] == v;
                        assert(l2.contains(l1[p]));
                    }
                    if l2.contains(v) {
                        let p = choose|p: int| 0 <= p < l2.len() && l2[p] == v;
                        assert(l1.contains(l2[p]));
                    }
                }
                lemma_same_values(l1, l2);
            }
        }
    }
}

/// A registration that succeeds stores each reward it was given under the
/// sender and the reward's key with exactly the count of claims it was given
/// as the claims remaining (none stays none, for unlimited claims), no claims
/// processed, unpaused, and with the message and tokens it was given.
pub proof fn lemma_register_stores_fields(
    s: StateView,
    block: BlockInfo,
    sender: Seq<char>,
    args: Seq<RewardInitArgsView>,
)
    ensures
        register_all(s, block, sender, args) matches Outcome::Done(s2) ==> forall|i: int|
            0 <= i < args.len() ==> {
                let m = s2.rewards[(sender, #[trigger] args[i].key)];
                &&& s2.rewards.contains_key((sender, args[i].key))
                &&& m.claims_remaining == args[i].count
                &&& m.claims_processed == 0
                &&& !m.is_paused
                &&& m.message == args[i].message
                &&& m.tokens == args[i].tokens
            },
{
    lemma_register_then_read(s, block, sender, args);
}

/// Every reward key on a page of a wallet's grants is granted to the wallet
/// and lies at or above the cursor: the cursor is an inclusive lower bound.
pub proof fn lemma_grants_page_from_cursor(
    s: StateView,
    wallet: Seq<char>,
    cursor: (Seq<char>, Seq<char>),
    limit: nat,
)
    requires
        is_desc_page(grants_page(s, wallet, cursor, limit), grant_member(s, wallet, cursor), grant_key_order(), limit),
    ensures
        forall|i: int|
            0 <= i < grants_page(s, wallet, cursor, limit).len() ==> s.grants.contains_key(
                (wallet, #[trigger] grants_page(s, wallet, cursor, limit)[i]),
            ) && !grant_key_lt(grants_page(s, wallet, cursor, limit)[i], cursor),
{
    let page = grants_page(s, wallet, cursor, limit);
    assert forall|i: int| 0 <= i < page.len() implies s.grants.contains_key((wallet, #[trigger] page[i]))
        && !grant_key_lt(page[i], cursor) by {
        assert(grant_member(s, wallet, cursor)(page[i]));
    }
}

/// What a wallet has been granted of token key `t`: nothing where it has no
/// totals of it.
pub open spec fn granted_of(m: TotalsMap, wallet: Seq<char>, t: Seq<char>) -> int {
    if m.contains_key((wallet, t)) {
        m[(wallet, t)].amount_granted as int
    } else {
        0
    }
}

/// What a wallet has claimed of token key `t`: nothing where it has no
/// totals of it.
pub open spec fn claimed_of(m: TotalsMap, wallet: Seq<char>, t: Seq<char>) -> int {
    if m.contains_key((wallet, t)) {
        m[(wallet, t)].amount_claimed as int
    } else {
        0
    }
}

pub open spec fn reward_amount(s: StateView, sender: Seq<char>, t: Seq<char>) -> spec_fn(Seq<char>) -> int {
    |k: Seq<char>| keyed_sum(s.rewards[(sender, k)].tokens, t)
}

/// How much of token key `t` the sender's rewards under `keys` hold together,
/// whatever the kind of their tokens.
pub open spec fn grant_sum(s: StateView, sender: Seq<char>, keys: Seq<Seq<char>>, t: Seq<char>) -> int {
    seq_sum(keys, reward_amount(s, sender, t))
}

proof fn lemma_add_granted_sum(tot: TotalsMap, g: Seq<char>, tokens: Seq<TokenAmountView>)
    ensures
        fold_outcome(tot, tokens, add_granted_step(g)) matches Outcome::Done(t2) ==> {
            &&& forall|t: Seq<char>| #[trigger] granted_of(t2, g, t) == granted_of(tot, g, t) + keyed_sum(tokens, t)
            &&& forall|t: Seq<char>| #[trigger] claimed_of(t2, g, t) == claimed_of(tot, g, t)
            &&& forall|k: (Seq<char>, Seq<char>)|
                k.0 != g ==> (#[trigger] t2.contains_key(k) <==> tot.contains_key(k)) && (tot.contains_key(k)
                    ==> t2[k] == tot[k])
        },
    decreases tokens.len(),
{
    if tokens.len() > 0 {
        let pre = tokens.drop_last();
        lemma_add_granted_sum(tot, g, pre);
        if let Outcome::Done(t2) = fold_outcome(tot, tokens, add_granted_step(g)) {
            let t1 = fold_outcome(tot, pre, add_granted_step(g))->Done_0;
            let ta = tokens.last();
            assert(add_granted(t1, g, ta) == Outcome::Done(t2));
            assert forall|t: Seq<char>| #[trigger] granted_of(t2, g, t) == granted_of(tot, g, t) + keyed_sum(tokens, t) by {
                assert(keyed_sum(tokens, t) == keyed_sum(pre, t) + amount_of(t)(ta));
                assert(granted_of(t1, g, t) == granted_of(tot, g, t) + keyed_sum(pre, t));
            }
            assert forall|t: Seq<char>| #[trigger] claimed_of(t2, g, t) == claimed_of(tot, g, t) by {
                assert(claimed_of(t1, g, t) == claimed_of(tot, g, t));
            }
        }
    }
}

/// A grant that succeeds adds to the grantee's granted total of each token
/// key the sum of the amounts of that key in the granted rewards, whatever
/// their kind (starting from nothing where the grantee had no totals of it);
/// it leaves what the grantee has claimed as it was, and every other wallet's
/// totals untouched.
pub proof fn lemma_grant_totals(
    s: StateView,
    sender: Seq<char>,
    grantee: Seq<char>,
    keys: Seq<Seq<char>>,
    expires_at: Option<Expiration>,
)
    ensures
        grant_all(s, sender, grantee, keys, expires_at) matches Outcome::Done(s2) ==> {
            &&& forall|t: Seq<char>| #[trigger] granted_of(s2.claim_totals, grantee, t) == granted_of(
                s.claim_totals,
                grantee,
                t,
            ) + grant_sum(s, sender, keys, t)
            &&& forall|t: Seq<char>| #[trigger] claimed_of(s2.claim_totals, grantee, t) == claimed_of(
                s.claim_totals,
                grantee,
                t,
            )
            &&& forall|k: (Seq<char>, Seq<char>)|
                k.0 != grantee ==> (#[trigger] s2.claim_totals.contains_key(k) <==> s.claim_totals.contains_key(k)) && (
                s.claim_totals.contains_key(k) ==> s2.claim_totals[k] == s.claim_totals[k])
        },
    decreases keys.len(),
{
    if keys.len() > 0 {
        let pre = keys.drop_last();
        lemma_grant_totals(s, sender, grantee, pre, expires_at);
        lemma_grant_then_read(s, sender, grantee, pre, expires_at);
        if let Outcome::Done(s2) = grant_all(s, sender, grantee, keys, expires_at) {
            let s1 = grant_all(s, sender, grantee, pre, expires_at)->Done_0;
            let rk = (sender, keys.last());
            assert(grant_one(s1, sender, grantee, expires_at, keys.last()) == Outcome::Done(s2));
            lemma_add_granted_sum(s1.claim_totals, grantee, s1.rewards[rk].tokens);
            assert forall|t: Seq<char>| #[trigger] granted_of(s2.claim_totals, grantee, t) == granted_of(
                s.claim_totals,
                grantee,
                t,
            ) + grant_sum(s, sender, keys, t) by {
                assert(grant_sum(s, sender, keys, t) == grant_sum(s, sender, pre, t) + reward_amount(s, sender, t)(
                    keys.last(),
                ));
                assert(granted_of(s1.claim_totals, grantee, t) == granted_of(s.claim_totals, grantee, t) + grant_sum(
                    s,
                    sender,
                    pre,
                    t,
                ));
            }
            assert forall|t: Seq<char>| #[trigger] claimed_of(s2.claim_totals, grantee, t) == claimed_of(
                s.claim_totals,
                grantee,
                t,
            ) by {
                assert(claimed_of(s1.claim_totals, grantee, t) == claimed_of(s.claim_totals, grantee, t));
            }
            assert forall|k: (Seq<char>, Seq<char>)| k.0 != grantee implies (#[trigger] s2.claim_totals.contains_key(k)
                <==> s.claim_totals.contains_key(k)) && (s.claim_totals.contains_key(k) ==> s2.claim_totals[k]
                == s.claim_totals[k]) by {
                assert(s1.claim_totals.contains_key(k) <==> s.claim_totals.contains_key(k));
            }
        }
    }
}

/// Revoking removes exactly the grants to the grantee of the sender's
/// rewards under the keys given: every other grant, of the grantee or of any
/// other wallet, stays as it was, and nothing but the grants changes.
pub proof fn lemma_revoke_effect(s: StateView, sender: Seq<char>, grantee: Seq<char>, keys: Seq<Seq<char>>)
    ensures
        forall|gk: (Seq<char>, (Seq<char>, Seq<char>))| #[trigger]
            revoke_all(s, sender, grantee, keys).grants.contains_key(gk) <==> s.grants.contains_key(gk) && !(gk.0
                == grantee && gk.1.0 == sender && keys.contains(gk.1.1)),
        forall|gk: (Seq<char>, (Seq<char>, Seq<char>))|
            revoke_all(s, sender, grantee, keys).grants.contains_key(gk) ==> #[trigger] revoke_all(
                s,
                sender,
                grantee,
                keys,
            ).grants[gk] == s.grants[gk],
        revoke_all(s, sender, grantee, keys).rewards == s.rewards,
        revoke_all(s, sender, grantee, keys).claim_totals == s.claim_totals,
        revoke_all(s, sender, grantee, keys).created_by == s.created_by,
{
}

/// Pausing marks as paused exactly the sender's rewards under the keys
/// given; every reward keeps its other fields, the rewards of other
/// contracts and other keys keep their pause, and nothing is registered or
/// removed. Grants and totals do not change.
pub proof fn lemma_pause_effect(s: StateView, sender: Seq<char>, keys: Seq<Seq<char>>)
    ensures
        forall|rk: (Seq<char>, Seq<char>)| #[trigger]
            pause_all(s, sender, keys).rewards.contains_key(rk) <==> s.rewards.contains_key(rk),
        forall|rk: (Seq<char>, Seq<char>)|
            s.rewards.contains_key(rk) ==> {
                &&& (#[trigger] pause_all(s, sender, keys).rewards[rk]).is_paused == (s.rewards[rk].is_paused || (rk.0
                    == sender && keys.contains(rk.1)))
                &&& pause_all(s, sender, keys).rewards[rk].claims_processed == s.rewards[rk].claims_processed
                &&& pause_all(s, sender, keys).rewards[rk].claims_remaining == s.rewards[rk].claims_remaining
                &&& pause_all(s, sender, keys).rewards[rk].message == s.rewards[rk].message
                &&& pause_all(s, sender, keys).rewards[rk].tokens == s.rewards[rk].tokens
            },
        pause_all(s, sender, keys).grants == s.grants,
        pause_all(s, sender, keys).claim_totals == s.claim_totals,
        pause_all(s, sender, keys).created_by == s.created_by,
{
}

/// Every key on a page of a contract's rewards is registered by the contract
/// and lies at or above the cursor: the cursor is an inclusive lower bound.
pub proof fn lemma_rewards_page_from_cursor(s: StateView, contract: Seq<char>, cursor: Seq<char>, limit: nat)
    requires
        is_desc_page(rewards_page(s, contract, cursor, limit), reward_member(s, contract, cursor), lex_order(), limit),
    ensures
        forall|i: int|
            0 <= i < rewards_page(s, contract, cursor, limit).len() ==> s.rewards.contains_key(
                (contract, #[trigger] rewards_page(s, contract, cursor, limit)[i]),
            ) && !lex_lt(rewards_page(s, contract, cursor, limit)[i], cursor),
{
    let page = rewards_page(s, contract, cursor, limit);
    assert forall|i: int| 0 <= i < page.len() implies s.rewards.contains_key((contract, #[trigger] page[i]))
        && !lex_lt(page[i], cursor) by {
        assert(reward_member(s, contract, cursor)(page[i]));
    }
}

/// The rewards a registration ends with: those it started with and the
/// sender's rewards under the keys given.
proof fn lemma_register_dom(m: RewardsMap, block: BlockInfo, sender: Seq<char>, args: Seq<RewardInitArgsView>)
    ensures
        fold_outcome(m, args, register_step(block, sender)) matches Outcome::Done(m2) ==> forall|
            rk: (Seq<char>, Seq<char>),
        |
            #[trigger] m2.contains_key(rk) <==> m.contains_key(rk) || (rk.0 == sender && exists|j: int|
                0 <= j < args.len() && (#[trigger] args[j]).key == rk.1),
    decreases args.len(),
{
    if args.len() > 0 {
        let pre = args.drop_last();
        lemma_register_dom(m, block, sender, pre);
        if let Outcome::Done(m2) = fold_outcome(m, args, register_step(block, sender)) {
            let m1 = fold_outcome(m, pre, register_step(block, sender))->Done_0;
            assert forall|rk: (Seq<char>, Seq<char>)| #[trigger] m2.contains_key(rk) <==> m.contains_key(rk) || (rk.0
                == sender && exists|j: int| 0 <= j < args.len() && (#[trigger] args[j]).key == rk.1) by {
                if rk.0 == sender && exists|j: int| 0 <= j < args.len() && (#[trigger] args[j]).key == rk.1 {
                    let j = choose|j: int| 0 <= j < args.len() && (#[trigger] args[j]).key == rk.1;
                    if j < pre.len() {
                        assert(pre[j] == args[j]);
                    }
                }
                if m1.contains_key(rk) && !m.contains_key(rk) {
                    let j = choose|j: int| 0 <= j < pre.len() && (#[trigger] pre[j]).key == rk.1;
                    assert(args[j] == pre[j]);
                }
            }
        }
    }
}

/// Whether a reward may be registered by itself: its expiration lies after
/// the block, it has an amount, and none of its amounts is zero.
pub open spec fn registrable(a: RewardInitArgsView, block: BlockInfo) -> bool {
    &&& match a.expires_at {
        None => true,
        Some(Expiration::Time(t)) => t > block.time,
        Some(Expiration::Height(h)) => h > block.height,
    }
    &&& a.tokens.len() > 0
    &&& forall|j: int| 0 <= j < a.tokens.len() ==> (#[trigger] a.tokens[j]).amount != 0
}

/// A registration is carried out exactly when each reward given can be
/// registered by itself and takes a key that the sender has not registered
/// before, nor given earlier in the same message.
pub proof fn lemma_register_succeeds(s: StateView, block: BlockInfo, sender: Seq<char>, args: Seq<RewardInitArgsView>)
    ensures
        (register_all(s, block, sender, args) is Done) <==> forall|i: int|
            0 <= i < args.len() ==> {
                &&& registrable(#[trigger] args[i], block)
                &&& !s.rewards.contains_key((sender, args[i].key))
                &&& forall|j: int| 0 <= j < i ==> (#[trigger] args[j]).key != args[i].key
            },
    decreases args.len(),
{
    if args.len() > 0 {
        let pre = args.drop_last();
        let a = args.last();
        lemma_register_succeeds(s, block, sender, pre);
        lemma_register_dom(s.rewards, block, sender, pre);
        let ok_pre = forall|i: int|
            0 <= i < pre.len() ==> {
                &&& registrable(#[trigger] pre[i], block)
                &&& !s.rewards.contains_key((sender, pre[i].key))
                &&& forall|j: int| 0 <= j < i ==> (#[trigger] pre[j]).key != pre[i].key
            };
        let ok_all = forall|i: int|
            0 <= i < args.len() ==> {
                &&& registrable(#[trigger] args[i], block)
                &&& !s.rewards.contains_key((sender, args[i].key))
                &&& forall|j: int| 0 <= j < i ==> (#[trigger] args[j]).key != args[i].key
            };
        let last_ok = registrable(a, block) && !s.rewards.contains_key((sender, a.key)) && forall|j: int|
            0 <= j < pre.len() ==> (#[trigger] pre[j]).key != a.key;
        assert(ok_all <==> ok_pre && last_ok) by {
            if ok_all {
                assert forall|i: int| 0 <= i < pre.len() implies {
                    &&& registrable(#[trigger] pre[i], block)
                    &&& !s.rewards.contains_key((sender, pre[i].key))
                    &&& forall|j: int| 0 <= j < i ==> (#[trigger] pre[j]).key != pre[i].key
                } by {
                    assert(args[i] == pre[i]);
                    assert forall|j: int| 0 <= j < i implies (#[trigger] pre[j]).key != pre[i].key by {
                        assert(args[j] == pre[j]);
                    }
                }
                assert(args[args.len() - 1] == a);
                assert forall|j: int| 0 <= j < pre.len() implies (#[trigger] pre[j]).key != a.key by {
                    assert(args[j] == pre[j]);
                }
            }
            if ok_pre && last_ok {
                assert forall|i: int| 0 <= i < args.len() implies {
                    &&& registrable(#[trigger] args[i], block)
                    &&& !s.rewards.contains_key((sender, args[i].key))
                    &&& forall|j: int| 0 <= j < i ==> (#[trigger] args[j]).key != args[i].key
                } by {
                    if i < pre.len() {
                        assert(args[i] == pre[i]);
                        assert forall|j: int| 0 <= j < i implies (#[trigger] args[j]).key != args[i].key by {
                            assert(args[j] == pre[j]);
                        }
                    } else {
                        assert forall|j: int| 0 <= j < i implies (#[trigger] args[j]).key != args[i].key by {
                            assert(args[j] == pre[j]);
                        }
                    }
                }
            }
        }
        match fold_outcome(s.rewards, pre, register_step(block, sender)) {
            Outcome::Done(m1) => {
                assert(m1.contains_key((sender, a.key)) <==> s.rewards.contains_key((sender, a.key)) || exists|j: int|
                    0 <= j < pre.len() && (#[trigger] pre[j]).key == a.key);
                assert(amounts_valid(a.tokens) <==> (a.tokens.len() > 0 && forall|j: int|
                    0 <= j < a.tokens.len() ==> (#[trigger] a.tokens[j]).amount != 0));
            },
            _ => {},
        }
    }
}

/// Whether the block has reached an expiration: its time or height at or
/// past the one given.
pub open spec fn reached_by(e: Option<Expiration>, block: BlockInfo) -> bool {
    match e {
        None => false,
        Some(Expiration::Time(t)) => t <= block.time,
        Some(Expiration::Height(h)) => h <= block.height,
    }
}

/// A claim whose first reward key is not granted to the claimant is refused
/// as not granted; one whose first key's grant the block has reached is
/// refused as expired. A claim of one key whose grant the block has not
/// reached, of a reward that is not registered, is carried out and changes
/// nothing.
pub proof fn lemma_claim_first_key(s: StateView, claimant: Seq<char>, block: BlockInfo, keys: Seq<(Seq<char>, Seq<char>)>)
    requires
        keys.len() > 0,
    ensures
        !s.grants.contains_key((claimant, keys[0])) ==> claim_all(s, claimant, block, keys) == Outcome::<
            (StateView, Seq<ClaimGroup>),
        >::Fail(ContractError::GrantNotFound {}),
        s.grants.contains_key((claimant, keys[0])) && reached_by(s.grants[(claimant, keys[0])].expires_at, block)
            ==> claim_all(s, claimant, block, keys) == Outcome::<(StateView, Seq<ClaimGroup>)>::Fail(
            ContractError::GrantExpired {},
        ),
        keys.len() == 1 && s.grants.contains_key((claimant, keys[0])) && !reached_by(
            s.grants[(claimant, keys[0])].expires_at,
            block,
        ) && !s.rewards.contains_key(keys[0]) ==> (claim_all(s, claimant, block, keys) matches Outcome::Done((s2, _))
            && s2 == s),
{
    let step = collect_step(s, claimant, block);
    let init = Seq::<ClaimGroup>::empty();
    lemma_fold_next(init, keys, step, 0);
    assert(keys.take(0).len() == 0);
    let first = fold_outcome(init, keys.take(1), step);
    if !(first is Done) {
        lemma_fold_stuck(init, keys, step, 1);
    }
    if keys.len() == 1 {
        assert(keys.take(1) =~= keys);
        if let Outcome::Done(gs) = claim_collect(s, claimant, block, keys) {
            if !s.rewards.contains_key(keys[0]) {
                let g = ClaimGroup { contract: keys[0].0, tokens: Seq::empty() };
                assert(gs =~= seq![g]);
                let st = settle_step(claimant);
                lemma_fold_next(s.claim_totals, gs, st, 0);
                assert(gs.take(1) =~= gs);
                assert(gs.take(0).len() == 0);
                assert(fold_outcome(s.claim_totals, g.tokens, add_claimed_step(claimant)) == Outcome::Done(
                    s.claim_totals,
                ));
                if let Outcome::Done((s2, _)) = claim_all(s, claimant, block, keys) {
                    assert(s2 =~= s);
                }
            }
        }
    }
}

} // verus!
