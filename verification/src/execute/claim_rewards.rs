//! Claiming the rewards granted to the sender.

use vstd::prelude::*;
use crate::error::ContractError;
use crate::models::{
    amounts_view, copy_amounts, expiration_reached, token_key, BlockInfo, ClaimTotals,
    ClaimTotalsView, GrantKey, RewardKey, TokenAmount, TokenAmountView,
};
use crate::msg::{Action, ClaimMessage, ClaimableExecuteMsgInterface, Response};
use crate::outcome::{
    fold_outcome, lemma_fold_empty, lemma_fold_next, lemma_fold_stuck, lemma_fold_whole, stopped_as, Outcome,
    Stop,
};
use crate::seqs::{lemma_position, lemma_position_at, position};
use crate::state::{ContractState, StateView, TotalsMap};
use crate::table::{DeepCopy, Table, TableKey};

verus! {

/// The amounts to be claimed from one contract.
pub struct ClaimGroup {
    pub contract: Seq<char>,
    pub tokens: Seq<TokenAmountView>,
}

/// The token keys of a list of amounts.
pub open spec fn token_keys(ts: Seq<TokenAmountView>) -> Seq<Seq<char>> {
    ts.map_values(|t: TokenAmountView| token_key(t.token))
}

/// Adds an amount to a list of amounts: to the first amount with the same
/// token key, whose token stays, or as a new amount at the end. The addition
/// panics on overflow.
pub open spec fn merge_amount(tokens: Seq<TokenAmountView>, ta: TokenAmountView) -> Outcome<Seq<TokenAmountView>> {
    let p = position(token_keys(tokens), token_key(ta.token));
    if p < 0 {
        Outcome::Done(tokens.push(ta))
    } else if tokens[p].amount + ta.amount > u128::MAX {
        Outcome::Abort
    } else {
        Outcome::Done(tokens.update(p, TokenAmountView { amount: (tokens[p].amount + ta.amount) as u128, ..tokens[p] }))
    }
}

pub open spec fn merge_step() -> spec_fn(Seq<TokenAmountView>, TokenAmountView) -> Outcome<Seq<TokenAmountView>> {
    |ts: Seq<TokenAmountView>, ta: TokenAmountView| merge_amount(ts, ta)
}

/// The index of `key` in `toks` by token key, as `position` gives it.
fn find_token(toks: &Vec<TokenAmount>, key: &String) -> (r: Option<usize>)
    ensures
        match r {
            Some(q) => q == position(token_keys(amounts_view(toks@)), key@),
            None => position(token_keys(amounts_view(toks@)), key@) < 0,
        },
{
    let ghost ks = token_keys(amounts_view(toks@));
    let n = toks.len();
    let mut q: usize = 0;
    while q < n
        invariant
            n == toks@.len(),
            ks == token_keys(amounts_view(toks@)),
            ks.len() == n,
            q <= n,
            forall|j: int| 0 <= j < q ==> ks[j] != key@,
        decreases n - q,
    {
        if toks[q].token.key().same(key) {
            proof {
                lemma_position_at(ks, key@, q as int);
            }
            return Some(q);
        }
        q = q + 1;
    }
    proof {
        lemma_position(ks, key@);
    }
    None
}

/// Merging never refuses; it can only overflow.
pub proof fn lemma_merge_never_fails(init: Seq<TokenAmountView>, add: Seq<TokenAmountView>)
    ensures
        !(fold_outcome(init, add, merge_step()) is Fail),
    decreases add.len(),
{
    if add.len() > 0 {
        lemma_merge_never_fails(init, add.drop_last());
    }
}

/// Adds each of `add`, in order, to `toks`; false where an addition
/// overflows.
fn merge_into(toks: &mut Vec<TokenAmount>, add: &Vec<TokenAmount>) -> (ok: bool)
    ensures
        if ok {
            fold_outcome(amounts_view(old(toks)@), amounts_view(add@), merge_step()) == Outcome::Done(
                amounts_view(final(toks)@),
            )
        } else {
            fold_outcome(amounts_view(old(toks)@), amounts_view(add@), merge_step()) is Abort
        },
{
    let ghost start = amounts_view(toks@);
    let ghost adds = amounts_view(add@);
    let n = add.len();
    let mut j: usize = 0;
    proof {
        lemma_fold_empty(start, adds, merge_step());
    }
    while j < n
        invariant
            n == add@.len(),
            adds == amounts_view(add@),
            j <= n,
            fold_outcome(start, adds.take(j as int), merge_step()) == Outcome::Done(amounts_view(toks@)),
            start == amounts_view(old(toks)@),
        decreases n - j,
    {
        proof {
            lemma_fold_next(start, adds, merge_step(), j as int);
            if !(fold_outcome(start, adds.take(j + 1), merge_step()) is Done) {
                lemma_fold_stuck(start, adds, merge_step(), j + 1);
            }
        }
        let ta = &add[j];
        assert(ta@ == adds[j as int]);
        let ghost cur = amounts_view(toks@);
        match find_token(toks, ta.token.key()) {
            Some(q) => {
                proof {
                    lemma_position(token_keys(cur), token_key(ta@.token));
                }
                let sum = match toks[q].amount.checked_add(ta.amount) {
                    Some(v) => v,
                    None => {
                        assert(merge_amount(cur, ta@) is Abort);
                        return false;
                    },
                };
                let merged = TokenAmount { token: toks[q].token.deep_copy(), amount: sum };
                toks.set(q, merged);
                assert(amounts_view(toks@) =~= cur.update(
                    q as int,
                    TokenAmountView { amount: (cur[q as int].amount + ta@.amount) as u128, ..cur[q as int] },
                ));
            },
            None => {
                toks.push(ta.deep_copy());
                assert(amounts_view(toks@) =~= cur.push(ta@));
            },
        }
        j = j + 1;
    }
    proof {
        lemma_fold_whole(start, adds, merge_step());
    }
    true
}

/// The contracts of a list of groups.
pub open spec fn contracts_of(groups: Seq<ClaimGroup>) -> Seq<Seq<char>> {
    groups.map_values(|g: ClaimGroup| g.contract)
}

/// Collecting one reward key into the groups: the claimant must hold an
/// unexpired grant of it. Its contract gets a group, if it has none yet. A
/// reward that exists and is not paused adds its amounts to that group,
/// unless it has no claims left. The claim is counted on a copy of the reward
/// that is never stored, and that count panics on overflow.
pub open spec fn collect_one(
    s: StateView,
    claimant: Seq<char>,
    block: BlockInfo,
    groups: Seq<ClaimGroup>,
    rk: (Seq<char>, Seq<char>),
) -> Outcome<Seq<ClaimGroup>> {
    let gk = (claimant, rk);
    if !s.grants.contains_key(gk) {
        Outcome::Fail(ContractError::GrantNotFound {})
    } else if expiration_reached(s.grants[gk].expires_at, block) {
        Outcome::Fail(ContractError::GrantExpired {})
    } else {
        let p0 = position(contracts_of(groups), rk.0);
        let g1 = if p0 < 0 {
            groups.push(ClaimGroup { contract: rk.0, tokens: Seq::empty() })
        } else {
            groups
        };
        let p = if p0 < 0 {
            groups.len() as int
        } else {
            p0
        };
        if !s.rewards.contains_key(rk) || s.rewards[rk].is_paused {
            Outcome::Done(g1)
        } else if s.rewards[rk].claims_remaining == Some(0u32) {
            Outcome::Fail(ContractError::EmptyRewards {})
        } else if s.rewards[rk].claims_processed == u32::MAX {
            Outcome::Abort
        } else {
            match fold_outcome(g1[p].tokens, s.rewards[rk].tokens, merge_step()) {
                Outcome::Done(t) => Outcome::Done(g1.update(p, ClaimGroup { contract: rk.0, tokens: t })),
                Outcome::Fail(e) => Outcome::Fail(e),
                Outcome::Abort => Outcome::Abort,
            }
        }
    }
}

pub open spec fn collect_step(s: StateView, claimant: Seq<char>, block: BlockInfo) -> spec_fn(
    Seq<ClaimGroup>,
    (Seq<char>, Seq<char>),
) -> Outcome<Seq<ClaimGroup>> {
    |g: Seq<ClaimGroup>, rk: (Seq<char>, Seq<char>)| collect_one(s, claimant, block, g, rk)
}

/// Collecting all the reward keys of a claim, in order, from no groups.
pub open spec fn claim_collect(
    s: StateView,
    claimant: Seq<char>,
    block: BlockInfo,
    keys: Seq<(Seq<char>, Seq<char>)>,
) -> Outcome<Seq<ClaimGroup>> {
    fold_outcome(Seq::<ClaimGroup>::empty(), keys, collect_step(s, claimant, block))
}

pub open spec fn reward_keys_view(v: Seq<RewardKey>) -> Seq<(Seq<char>, Seq<char>)> {
    v.map_values(|k: RewardKey| k@)
}

/// The groups held as a list of contracts and a list of amounts.
pub open spec fn groups_view(contracts: Seq<String>, amounts: Seq<Vec<TokenAmount>>) -> Seq<ClaimGroup> {
    Seq::new(
        contracts.len(),
        |i: int| ClaimGroup { contract: contracts[i]@, tokens: amounts_view(amounts[i]@) },
    )
}

fn find_contract(contracts: &Vec<String>, amounts: &Vec<Vec<TokenAmount>>, c: &String) -> (r: Option<usize>)
    requires
        contracts@.len() == amounts@.len(),
    ensures
        match r {
            Some(p) => p == position(contracts_of(groups_view(contracts@, amounts@)), c@),
            None => position(contracts_of(groups_view(contracts@, amounts@)), c@) < 0,
        },
{
    let ghost cs = contracts_of(groups_view(contracts@, amounts@));
    let n = contracts.len();
    let mut q: usize = 0;
    while q < n
        invariant
            n == contracts@.len(),
            cs == contracts_of(groups_view(contracts@, amounts@)),
            cs.len() == n,
            q <= n,
            forall|j: int| 0 <= j < q ==> cs[j] != c@,
        decreases n - q,
    {
        if contracts[q].same(c) {
            proof {
                lemma_position_at(cs, c@, q as int);
            }
            return Some(q);
        }
        q = q + 1;
    }
    proof {
        lemma_position(cs, c@);
    }
    None
}

/// Collects the amounts that a claim of `reward_keys` pays, by contract.
fn collect_claims(
    state: &ContractState,
    block: &BlockInfo,
    sender: &String,
    reward_keys: &Vec<RewardKey>,
) -> (r: Result<(Vec<String>, Vec<Vec<TokenAmount>>), Stop>)
    ensures
        match claim_collect(state@, sender@, *block, reward_keys_view(reward_keys@)) {
            Outcome::Done(g) => r matches Ok((c, a)) && c@.len() == a@.len() && groups_view(c@, a@) == g,
            o => r matches Err(stop) && stopped_as(stop, o),
        },
{
    let ghost ks = reward_keys_view(reward_keys@);
    let ghost step = collect_step(state@, sender@, *block);
    let ghost start = Seq::<ClaimGroup>::empty();
    let mut contracts: Vec<String> = Vec::new();
    let mut amounts: Vec<Vec<TokenAmount>> = Vec::new();
    let n = reward_keys.len();
    let mut i: usize = 0;
    proof {
        lemma_fold_empty(start, ks, step);
        assert(groups_view(contracts@, amounts@) =~= start);
    }
    while i < n
        invariant
            n == reward_keys@.len(),
            ks == reward_keys_view(reward_keys@),
            step == collect_step(state@, sender@, *block),
            start == Seq::<ClaimGroup>::empty(),
            i <= n,
            contracts@.len() == amounts@.len(),
            fold_outcome(start, ks.take(i as int), step) == Outcome::Done(groups_view(contracts@, amounts@)),
        decreases n - i,
    {
        proof {
            lemma_fold_next(start, ks, step, i as int);
            if !(fold_outcome(start, ks.take(i + 1), step) is Done) {
                lemma_fold_stuck(start, ks, step, i + 1);
            }
        }
        let rk = &reward_keys[i];
        assert(rk@ == ks[i as int]);
        let grant_key: GrantKey = (sender.clone(), (rk.0.clone(), rk.1.clone()));
        // the claimant needs a grant that has not expired
        match state.grants.get(&grant_key) {
            Some(grant) => {
                if grant.is_expired(block) {
                    return Err(Stop::Refused(ContractError::GrantExpired {}));
                }
            },
            None => {
                return Err(Stop::Refused(ContractError::GrantNotFound {}));
            },
        }
        let ghost g0 = groups_view(contracts@, amounts@);
        let ghost p0 = position(contracts_of(g0), rk@.0);
        // ensure a group exists for the reward's contract
        let p = match find_contract(&contracts, &amounts, &rk.0) {
            Some(p) => {
                proof {
                    lemma_position(contracts_of(g0), rk@.0);
                }
                p
            },
            None => {
                contracts.push(rk.0.clone());
                amounts.push(Vec::new());
                assert(amounts_view(amounts@[amounts@.len() - 1]@) =~= Seq::<TokenAmountView>::empty());
                assert(groups_view(contracts@, amounts@) =~= g0.push(
                    ClaimGroup { contract: rk@.0, tokens: Seq::empty() },
                ));
                contracts.len() - 1
            },
        };
        let ghost g1 = groups_view(contracts@, amounts@);
        assert(p == (if p0 < 0 { g0.len() as int } else { p0 }));
        assert(g1 == (if p0 < 0 { g0.push(ClaimGroup { contract: rk@.0, tokens: Seq::empty() }) } else { g0 }));
        match state.rewards.get(rk) {
            None => {},
            Some(reward) => {
                // a paused reward adds nothing
                if !reward.is_paused {
                    if let Some(claims_remaining) = reward.claims_remaining {
                        if claims_remaining == 0 {
                            return Err(Stop::Refused(ContractError::EmptyRewards {}));
                        }
                    }
                    // the claim counted on the reward overflows here
                    if reward.claims_processed == u32::MAX {
                        return Err(Stop::Overflow);
                    }
                    let mut toks: Vec<TokenAmount> = Vec::new();
                    amounts.set_and_swap(p, &mut toks);
                    assert(amounts_view(toks@) == g1[p as int].tokens);
                    if !merge_into(&mut toks, &reward.tokens) {
                        return Err(Stop::Overflow);
                    }
                    let ghost merged = amounts_view(toks@);
                    amounts.set(p, toks);
                    assert(groups_view(contracts@, amounts@) =~= g1.update(
                        p as int,
                        ClaimGroup { contract: rk@.0, tokens: merged },
                    ));
                }
            },
        }
        i = i + 1;
    }
    proof {
        lemma_fold_whole(start, ks, step);
    }
    Ok((contracts, amounts))
}

/// Adds a claimed amount to the claimant's claimed total of its token. A
/// claimant without totals of the token is refused; the addition panics on
/// overflow.
pub open spec fn add_claimed(totals: TotalsMap, claimant: Seq<char>, ta: TokenAmountView) -> Outcome<TotalsMap> {
    let k = (claimant, token_key(ta.token));
    if !totals.contains_key(k) {
        Outcome::Fail(ContractError::NotAuthorized {})
    } else if totals[k].amount_claimed + ta.amount > u128::MAX {
        Outcome::Abort
    } else {
        Outcome::Done(
            totals.insert(
                k,
                ClaimTotalsView { amount_claimed: (totals[k].amount_claimed + ta.amount) as u128, ..totals[k] },
            ),
        )
    }
}

pub open spec fn add_claimed_step(claimant: Seq<char>) -> spec_fn(TotalsMap, TokenAmountView) -> Outcome<TotalsMap> {
    |t: TotalsMap, ta: TokenAmountView| add_claimed(t, claimant, ta)
}

/// Adding each amount of a group to the claimant's totals.
pub open spec fn settle_tokens(totals: TotalsMap, claimant: Seq<char>, tokens: Seq<TokenAmountView>) -> Outcome<TotalsMap> {
    fold_outcome(totals, tokens, add_claimed_step(claimant))
}

pub open spec fn settle_step(claimant: Seq<char>) -> spec_fn(TotalsMap, ClaimGroup) -> Outcome<TotalsMap> {
    |t: TotalsMap, g: ClaimGroup| settle_tokens(t, claimant, g.tokens)
}

/// A claim: the collected groups, then every group's amounts added to the
/// claimant's claimed totals. Nothing else changes: rewards and grants stay
/// as they were.
pub open spec fn claim_all(
    s: StateView,
    claimant: Seq<char>,
    block: BlockInfo,
    keys: Seq<(Seq<char>, Seq<char>)>,
) -> Outcome<(StateView, Seq<ClaimGroup>)> {
    match claim_collect(s, claimant, block, keys) {
        Outcome::Done(groups) => match fold_outcome(s.claim_totals, groups, settle_step(claimant)) {
            Outcome::Done(t) => Outcome::Done((StateView { claim_totals: t, ..s }, groups)),
            Outcome::Fail(e) => Outcome::Fail(e),
            Outcome::Abort => Outcome::Abort,
        },
        Outcome::Fail(e) => Outcome::Fail(e),
        Outcome::Abort => Outcome::Abort,
    }
}

/// The amounts that a claim message carries.
pub open spec fn claim_msg_tokens(m: ClaimMessage) -> Option<Seq<TokenAmountView>> {
    match m.msg {
        ClaimableExecuteMsgInterface::Claim { tokens: Some(t) } => Some(amounts_view(t@)),
        _ => None,
    }
}

/// One claim message per group, in the groups' order, sent to the group's
/// contract with the group's amounts.
pub open spec fn messages_match(msgs: Seq<ClaimMessage>, groups: Seq<ClaimGroup>) -> bool {
    &&& msgs.len() == groups.len()
    &&& forall|i: int|
        0 <= i < msgs.len() ==> (#[trigger] msgs[i]).contract_addr@ == groups[i].contract
            && claim_msg_tokens(msgs[i]) == Some(groups[i].tokens)
}

fn settle_group(totals: &mut Table<(String, String), ClaimTotals>, sender: &String, toks: &Vec<TokenAmount>) -> (r: Result<(), Stop>)
    ensures
        match settle_tokens(old(totals)@, sender@, amounts_view(toks@)) {
            Outcome::Done(t) => final(totals)@ == t && r is Ok,
            o => r matches Err(stop) && stopped_as(stop, o),
        },
{
    let ghost start = totals@;
    let ghost ts = amounts_view(toks@);
    let ghost step = add_claimed_step(sender@);
    let n = toks.len();
    let mut j: usize = 0;
    proof {
        lemma_fold_empty(start, ts, step);
    }
    while j < n
        invariant
            n == toks@.len(),
            ts == amounts_view(toks@),
            step == add_claimed_step(sender@),
            start == old(totals)@,
            j <= n,
            fold_outcome(start, ts.take(j as int), step) == Outcome::Done(totals@),
        decreases n - j,
    {
        proof {
            lemma_fold_next(start, ts, step, j as int);
            if !(fold_outcome(start, ts.take(j + 1), step) is Done) {
                lemma_fold_stuck(start, ts, step, j + 1);
            }
        }
        let ta = &toks[j];
        assert(ta@ == ts[j as int]);
        let token_key: (String, String) = (sender.clone(), ta.token.key().clone());
        let updated = match totals.get(&token_key) {
            Some(t) => {
                let claimed = match t.amount_claimed.checked_add(ta.amount) {
                    Some(v) => v,
                    None => {
                        return Err(Stop::Overflow);
                    },
                };
                ClaimTotals { token: t.token.deep_copy(), amount_claimed: claimed, amount_granted: t.amount_granted }
            },
            None => {
                return Err(Stop::Refused(ContractError::NotAuthorized {}));
            },
        };
        totals.insert(token_key, updated);
        j = j + 1;
    }
    proof {
        lemma_fold_whole(start, ts, step);
    }
    Ok(())
}

fn settle_claims(
    totals: &mut Table<(String, String), ClaimTotals>,
    sender: &String,
    contracts: &Vec<String>,
    amounts: &Vec<Vec<TokenAmount>>,
) -> (r: Result<(), Stop>)
    requires
        contracts@.len() == amounts@.len(),
    ensures
        match fold_outcome(old(totals)@, groups_view(contracts@, amounts@), settle_step(sender@)) {
            Outcome::Done(t) => final(totals)@ == t && r is Ok,
            o => r matches Err(stop) && stopped_as(stop, o),
        },
{
    let ghost start = totals@;
    let ghost gs = groups_view(contracts@, amounts@);
    let ghost step = settle_step(sender@);
    let n = amounts.len();
    let mut i: usize = 0;
    proof {
        lemma_fold_empty(start, gs, step);
    }
    while i < n
        invariant
            n == amounts@.len(),
            n == contracts@.len(),
            gs == groups_view(contracts@, amounts@),
            step == settle_step(sender@),
            start == old(totals)@,
            i <= n,
            fold_outcome(start, gs.take(i as int), step) == Outcome::Done(totals@),
        decreases n - i,
    {
        proof {
            lemma_fold_next(start, gs, step, i as int);
            if !(fold_outcome(start, gs.take(i + 1), step) is Done) {
                lemma_fold_stuck(start, gs, step, i + 1);
            }
        }
        assert(gs[i as int].tokens == amounts_view(amounts@[i as int]@));
        match settle_group(totals, sender, &amounts[i]) {
            Ok(()) => {},
            Err(e) => {
                return Err(e);
            },
        }
        i = i + 1;
    }
    proof {
        lemma_fold_whole(start, gs, step);
    }
    Ok(())
}

/// Claims the rewards under `reward_keys` for the sender, on every input:
/// where the contract would panic on an overflowing amount it stops with
/// `Stop::Overflow`.
pub fn try_claim_rewards(
    state: &mut ContractState,
    block: &BlockInfo,
    sender: &String,
    reward_keys: Vec<RewardKey>,
) -> (r: Result<Response, Stop>)
    ensures
        match claim_all(old(state)@, sender@, *block, reward_keys_view(reward_keys@)) {
            Outcome::Done((s, groups)) => {
                &&& final(state)@ == s
                &&& r matches Ok(resp)
                &&& resp.action == Action::Claim
                &&& messages_match(resp.messages@, groups)
            },
            o => {
                &&& final(state)@ == old(state)@
                &&& r matches Err(stop)
                &&& stopped_as(stop, o)
            },
        },
{
    let (contracts, amounts) = match collect_claims(state, block, sender, &reward_keys) {
        Ok(x) => x,
        Err(stop) => {
            return Err(stop);
        },
    };
    let ghost groups = groups_view(contracts@, amounts@);
    let mut totals = state.claim_totals.deep_copy();
    match settle_claims(&mut totals, sender, &contracts, &amounts) {
        Ok(()) => {},
        Err(stop) => {
            return Err(stop);
        },
    }
    // one claim message per contract, in the order the contracts came up
    let mut messages: Vec<ClaimMessage> = Vec::new();
    let n = contracts.len();
    let mut i: usize = 0;
    while i < n
        invariant
            n == contracts@.len(),
            n == amounts@.len(),
            groups == groups_view(contracts@, amounts@),
            i <= n,
            messages@.len() == i,
            forall|j: int|
                0 <= j < i ==> (#[trigger] messages@[j]).contract_addr@ == groups[j].contract
                    && claim_msg_tokens(messages@[j]) == Some(groups[j].tokens),
        decreases n - i,
    {
        let m = ClaimMessage {
            contract_addr: contracts[i].clone(),
            msg: ClaimableExecuteMsgInterface::Claim { tokens: Some(copy_amounts(&amounts[i])) },
        };
        messages.push(m);
        i = i + 1;
    }
    state.claim_totals = totals;
    Ok(Response { action: Action::Claim, messages })
}

/// Claims the rewards under `reward_keys` for the sender: one message to each
/// contract with the amounts to pay, and the amounts added to the sender's
/// claimed totals.
pub fn claim_rewards(
    state: &mut ContractState,
    block: &BlockInfo,
    sender: &String,
    reward_keys: Vec<RewardKey>,
) -> (r: Result<Response, ContractError>)
    requires
        !(claim_all(old(state)@, sender@, *block, reward_keys_view(reward_keys@)) is Abort),
    ensures
        match claim_all(old(state)@, sender@, *block, reward_keys_view(reward_keys@)) {
            Outcome::Done((s, groups)) => {
                &&& final(state)@ == s
                &&& r matches Ok(resp)
                &&& resp.action == Action::Claim
                &&& messages_match(resp.messages@, groups)
            },
            Outcome::Fail(e) => final(state)@ == old(state)@ && r == Result::<Response, ContractError>::Err(e),
            Outcome::Abort => false,
        },
{
    match try_claim_rewards(state, block, sender, reward_keys) {
        Ok(resp) => Ok(resp),
        Err(Stop::Refused(e)) => Err(e),
        Err(Stop::Overflow) => {
            proof {
                assert(false);
            }
            Err(ContractError::ValidationError {})
        },
    }
}

} // verus!
