use cw_rewards::contract::{execute, instantiate, query, try_execute};
use cw_rewards::error::ContractError;
use cw_rewards::execute::claim_rewards::{claim_rewards, try_claim_rewards};
use cw_rewards::execute::grant_rewards::{grant_rewards, try_grant_rewards};
use cw_rewards::execute::pause_rewards::pause_rewards;
use cw_rewards::execute::register_rewards::register_rewards;
use cw_rewards::execute::revoke_rewards::revoke_rewards;
use cw_rewards::models::{
    BlockInfo, ClaimTotals, Expiration, Grant, RewardInitArgs, RewardMetadata, Token, TokenAmount,
};
use cw_rewards::msg::{Action, ClaimMessage, ClaimableExecuteMsgInterface, ExecuteMsg, InstantiateMsg, QueryAnswer, QueryMsg};
use cw_rewards::outcome::Stop;
use cw_rewards::query::get_grants::get_grants;
use cw_rewards::query::get_rewards::get_rewards;
use cw_rewards::query::limit_of;
use cw_rewards::state::{initialize, is_owner, ContractState};

fn s(x: &str) -> String {
    x.to_string()
}

fn block() -> BlockInfo {
    BlockInfo { height: 10, time: 1000 }
}

fn native(denom: &str, amount: u128) -> TokenAmount {
    TokenAmount { token: Token::Native { denom: s(denom) }, amount }
}

fn cw20(address: &str, amount: u128) -> TokenAmount {
    TokenAmount { token: Token::Cw20 { address: s(address) }, amount }
}

fn args(key: &str, count: Option<u32>, tokens: Vec<TokenAmount>) -> RewardInitArgs {
    RewardInitArgs { key: s(key), count, message: None, expires_at: None, tokens }
}

fn fresh() -> ContractState {
    initialize(&s("creator"), &InstantiateMsg {})
}

fn register(state: &mut ContractState, contract: &str, a: Vec<RewardInitArgs>) {
    register_rewards(state, &block(), &s(contract), a).unwrap();
}

fn grant(state: &mut ContractState, contract: &str, grantee: &str, keys: &[&str], exp: Option<Expiration>) {
    grant_rewards(state, &s(contract), &s(grantee), keys.iter().map(|k| s(k)).collect(), exp).unwrap();
}

fn claim_keys(keys: &[(&str, &str)]) -> Vec<(String, String)> {
    keys.iter().map(|(c, k)| (s(c), s(k))).collect()
}

fn totals(state: &ContractState, wallet: &str, token: &str) -> Option<ClaimTotals> {
    state.claim_totals.get(&(s(wallet), s(token))).cloned()
}

fn reward(state: &ContractState, contract: &str, key: &str) -> Option<RewardMetadata> {
    state.rewards.get(&(s(contract), s(key))).cloned()
}

fn claim_tokens(m: &ClaimMessage) -> Vec<TokenAmount> {
    match &m.msg {
        ClaimableExecuteMsgInterface::Claim { tokens } => tokens.clone().unwrap(),
    }
}

#[test]
fn instantiate_sets_creator() {
    let (state, resp) = instantiate(&s("creator"), InstantiateMsg {});
    assert!(is_owner(&state, &s("creator")));
    assert!(!is_owner(&state, &s("someone")));
    assert_eq!(resp.action, Action::Instantiate);
    assert!(resp.messages.is_empty());
    assert_eq!(state.rewards.len(), 0);
}

#[test]
fn register_then_read_back() {
    let mut state = fresh();
    let a = RewardInitArgs {
        key: s("r1"),
        count: Some(5),
        message: Some(s("welcome")),
        expires_at: Some(Expiration::Height(11)),
        tokens: vec![native("uatom", 100)],
    };
    let resp = register_rewards(&mut state, &block(), &s("contract1"), vec![a]).unwrap();
    assert_eq!(resp.action, Action::Register);
    let m = reward(&state, "contract1", "r1").unwrap();
    assert_eq!(
        m,
        RewardMetadata {
            claims_processed: 0,
            claims_remaining: Some(5),
            message: Some(s("welcome")),
            tokens: vec![native("uatom", 100)],
            is_paused: false,
        }
    );
    let page = get_rewards(&state, &s("contract1"), None, Some(s(""))).unwrap();
    assert_eq!(page.rewards.len(), 1);
    let q = &page.rewards[0];
    assert_eq!(q.key, s("r1"));
    assert_eq!(q.sender, s("contract1"));
    assert_eq!(q.claims_remaining, Some(5));
    assert_eq!(q.message, Some(s("welcome")));
    assert_eq!(q.tokens, vec![native("uatom", 100)]);
    assert!(!q.is_paused);
    assert_eq!(page.cursor, Some(s("r1")));
}

#[test]
fn register_refuses_reached_expiration() {
    let mut state = fresh();
    let mut a = args("r1", None, vec![native("uatom", 1)]);
    a.expires_at = Some(Expiration::Height(10));
    assert_eq!(
        register_rewards(&mut state, &block(), &s("c"), vec![a.clone()]),
        Err(ContractError::InvalidExpiration {})
    );
    a.expires_at = Some(Expiration::Time(1000));
    assert_eq!(
        register_rewards(&mut state, &block(), &s("c"), vec![a.clone()]),
        Err(ContractError::InvalidExpiration {})
    );
    a.expires_at = Some(Expiration::Time(1001));
    assert!(register_rewards(&mut state, &block(), &s("c"), vec![a]).is_ok());
}

#[test]
fn register_refuses_empty_or_zero_amounts() {
    let mut state = fresh();
    assert_eq!(
        register_rewards(&mut state, &block(), &s("c"), vec![args("r1", None, vec![])]),
        Err(ContractError::InvalidRewardAmount {})
    );
    assert_eq!(
        register_rewards(&mut state, &block(), &s("c"), vec![args("r1", None, vec![native("a", 3), native("b", 0)])]),
        Err(ContractError::InvalidRewardAmount {})
    );
    assert_eq!(state.rewards.len(), 0);
}

#[test]
fn register_refuses_existing_key_and_changes_nothing() {
    let mut state = fresh();
    register(&mut state, "c", vec![args("r1", None, vec![native("uatom", 1)])]);
    assert_eq!(
        register_rewards(&mut state, &block(), &s("c"), vec![args("r2", None, vec![native("uatom", 2)]), args("r1", None, vec![native("uatom", 9)])]),
        Err(ContractError::AlreadyExists {})
    );
    assert!(reward(&state, "c", "r2").is_none());
    assert_eq!(reward(&state, "c", "r1").unwrap().tokens, vec![native("uatom", 1)]);
    // a key repeated in one message is refused too
    assert_eq!(
        register_rewards(&mut state, &block(), &s("c"), vec![args("r3", None, vec![native("x", 1)]), args("r3", None, vec![native("x", 1)])]),
        Err(ContractError::AlreadyExists {})
    );
    assert!(reward(&state, "c", "r3").is_none());
    // the same key under another contract is a different reward
    register(&mut state, "d", vec![args("r1", None, vec![native("uatom", 5)])]);
    assert_eq!(state.rewards.len(), 2);
}

#[test]
fn grant_of_unknown_reward_is_refused() {
    let mut state = fresh();
    register(&mut state, "c", vec![args("r1", None, vec![native("uatom", 1)])]);
    assert_eq!(
        grant_rewards(&mut state, &s("c"), &s("alice"), vec![s("r1"), s("nope")], None),
        Err(ContractError::RewardNotFound {})
    );
    // the first key of the refused message was not granted
    assert_eq!(state.grants.len(), 0);
    assert!(totals(&state, "alice", "uatom").is_none());
    // another contract cannot grant c's reward
    assert_eq!(
        grant_rewards(&mut state, &s("d"), &s("alice"), vec![s("r1")], None),
        Err(ContractError::RewardNotFound {})
    );
}

#[test]
fn grant_accumulates_granted_totals() {
    let mut state = fresh();
    register(&mut state, "c", vec![args("r1", None, vec![native("uatom", 100), cw20("tok", 7)])]);
    let resp = grant_rewards(&mut state, &s("c"), &s("alice"), vec![s("r1")], Some(Expiration::Height(20))).unwrap();
    assert_eq!(resp.action, Action::Grant);
    assert_eq!(
        totals(&state, "alice", "uatom"),
        Some(ClaimTotals { token: Token::Native { denom: s("uatom") }, amount_claimed: 0, amount_granted: 100 })
    );
    assert_eq!(totals(&state, "alice", "tok").unwrap().amount_granted, 7);
    grant(&mut state, "c", "alice", &["r1"], None);
    assert_eq!(totals(&state, "alice", "uatom").unwrap().amount_granted, 200);
    // the later grant replaced the expiration
    assert_eq!(
        state.grants.get(&(s("alice"), (s("c"), s("r1")))),
        Some(&Grant { expires_at: None })
    );
}

#[test]
fn claim_pays_merged_amounts_and_counts_them() {
    let mut state = fresh();
    register(
        &mut state,
        "c",
        vec![args("r1", Some(3), vec![native("uatom", 100)]), args("r2", None, vec![native("uatom", 50), cw20("tok", 7)])],
    );
    grant(&mut state, "c", "alice", &["r1", "r2"], None);
    let resp = claim_rewards(&mut state, &block(), &s("alice"), claim_keys(&[("c", "r1"), ("c", "r2")])).unwrap();
    assert_eq!(resp.action, Action::Claim);
    assert_eq!(resp.messages.len(), 1);
    assert_eq!(resp.messages[0].contract_addr, s("c"));
    assert_eq!(claim_tokens(&resp.messages[0]), vec![native("uatom", 150), cw20("tok", 7)]);
    assert_eq!(totals(&state, "alice", "uatom").unwrap().amount_claimed, 150);
    assert_eq!(totals(&state, "alice", "uatom").unwrap().amount_granted, 150);
    assert_eq!(totals(&state, "alice", "tok").unwrap().amount_claimed, 7);
    // the rewards and the grants stay: the claim can be made again
    assert_eq!(reward(&state, "c", "r1").unwrap().claims_remaining, Some(3));
    assert_eq!(reward(&state, "c", "r1").unwrap().claims_processed, 0);
    assert_eq!(state.grants.len(), 2);
    claim_rewards(&mut state, &block(), &s("alice"), claim_keys(&[("c", "r1")])).unwrap();
    assert_eq!(totals(&state, "alice", "uatom").unwrap().amount_claimed, 250);
}

#[test]
fn claim_merges_native_and_cw20_with_the_same_key() {
    let mut state = fresh();
    register(&mut state, "c", vec![args("r1", None, vec![native("x", 2), cw20("x", 3)])]);
    grant(&mut state, "c", "alice", &["r1"], None);
    let resp = claim_rewards(&mut state, &block(), &s("alice"), claim_keys(&[("c", "r1")])).unwrap();
    assert_eq!(claim_tokens(&resp.messages[0]), vec![native("x", 5)]);
    assert_eq!(totals(&state, "alice", "x").unwrap().amount_claimed, 5);
}

#[test]
fn claim_messages_follow_first_seen_contracts() {
    let mut state = fresh();
    register(&mut state, "c1", vec![args("a", None, vec![native("u", 1)])]);
    register(&mut state, "c2", vec![args("b", None, vec![native("u", 2)])]);
    grant(&mut state, "c1", "alice", &["a"], None);
    grant(&mut state, "c2", "alice", &["b"], None);
    let resp = claim_rewards(&mut state, &block(), &s("alice"), claim_keys(&[("c2", "b"), ("c1", "a"), ("c2", "b")])).unwrap();
    assert_eq!(resp.messages.len(), 2);
    assert_eq!(resp.messages[0].contract_addr, s("c2"));
    assert_eq!(claim_tokens(&resp.messages[0]), vec![native("u", 4)]);
    assert_eq!(resp.messages[1].contract_addr, s("c1"));
    assert_eq!(claim_tokens(&resp.messages[1]), vec![native("u", 1)]);
    assert_eq!(totals(&state, "alice", "u").unwrap().amount_claimed, 5);
}

#[test]
fn claim_refusals() {
    let mut state = fresh();
    register(&mut state, "c", vec![args("r1", None, vec![native("u", 1)]), args("r0", Some(0), vec![native("u", 1)])]);
    assert_eq!(
        claim_rewards(&mut state, &block(), &s("alice"), claim_keys(&[("c", "r1")])),
        Err(ContractError::GrantNotFound {})
    );
    grant(&mut state, "c", "alice", &["r1"], Some(Expiration::Height(10)));
    assert_eq!(
        claim_rewards(&mut state, &block(), &s("alice"), claim_keys(&[("c", "r1")])),
        Err(ContractError::GrantExpired {})
    );
    grant(&mut state, "c", "alice", &["r0"], None);
    assert_eq!(
        claim_rewards(&mut state, &block(), &s("alice"), claim_keys(&[("c", "r0")])),
        Err(ContractError::EmptyRewards {})
    );
    assert_eq!(totals(&state, "alice", "u").unwrap().amount_claimed, 0);
}

#[test]
fn claim_without_totals_is_not_authorized() {
    let mut state = fresh();
    state.rewards.insert(
        (s("c"), s("r1")),
        RewardMetadata { claims_processed: 0, claims_remaining: None, message: None, tokens: vec![native("u", 4)], is_paused: false },
    );
    state.grants.insert((s("alice"), (s("c"), s("r1"))), Grant { expires_at: None });
    assert_eq!(
        claim_rewards(&mut state, &block(), &s("alice"), claim_keys(&[("c", "r1")])),
        Err(ContractError::NotAuthorized {})
    );
}

#[test]
fn revoke_then_claim_is_refused() {
    let mut state = fresh();
    register(&mut state, "c", vec![args("r1", None, vec![native("u", 1)]), args("r2", None, vec![native("u", 1)])]);
    grant(&mut state, "c", "alice", &["r1", "r2"], None);
    let resp = revoke_rewards(&mut state, &s("c"), &s("alice"), vec![s("r1"), s("absent")]).unwrap();
    assert_eq!(resp.action, Action::Revoke);
    assert_eq!(state.grants.len(), 1);
    assert_eq!(
        claim_rewards(&mut state, &block(), &s("alice"), claim_keys(&[("c", "r2"), ("c", "r1")])),
        Err(ContractError::GrantNotFound {})
    );
    assert!(claim_rewards(&mut state, &block(), &s("alice"), claim_keys(&[("c", "r2")])).is_ok());
}

#[test]
fn paused_rewards_pay_nothing() {
    let mut state = fresh();
    register(&mut state, "c", vec![args("r1", None, vec![native("u", 9)])]);
    grant(&mut state, "c", "alice", &["r1"], None);
    let resp = pause_rewards(&mut state, &s("c"), vec![s("r1"), s("absent")]).unwrap();
    assert_eq!(resp.action, Action::Pause);
    assert!(reward(&state, "c", "r1").unwrap().is_paused);
    let resp = claim_rewards(&mut state, &block(), &s("alice"), claim_keys(&[("c", "r1")])).unwrap();
    assert_eq!(resp.messages.len(), 1);
    assert_eq!(claim_tokens(&resp.messages[0]), vec![]);
    assert_eq!(totals(&state, "alice", "u").unwrap().amount_claimed, 0);
    let page = get_rewards(&state, &s("c"), None, Some(s(""))).unwrap();
    assert!(page.rewards[0].is_paused);
}

#[test]
fn rewards_are_listed_greatest_first_from_the_cursor() {
    let mut state = fresh();
    register(
        &mut state,
        "c",
        vec![args("b", None, vec![native("u", 1)]), args("d", None, vec![native("u", 1)]), args("a", None, vec![native("u", 1)]), args("c", None, vec![native("u", 1)])],
    );
    register(&mut state, "other", vec![args("z", None, vec![native("u", 1)])]);
    let keys = |p: &cw_rewards::msg::RewardsResponse| p.rewards.iter().map(|q| q.key.clone()).collect::<Vec<_>>();
    let page = get_rewards(&state, &s("c"), Some(2), Some(s(""))).unwrap();
    assert_eq!(keys(&page), vec![s("d"), s("c")]);
    assert_eq!(page.cursor, Some(s("c")));
    let page = get_rewards(&state, &s("c"), None, Some(s("b"))).unwrap();
    assert_eq!(keys(&page), vec![s("d"), s("c"), s("b")]);
    let page = get_rewards(&state, &s("c"), None, Some(s("e"))).unwrap();
    assert!(page.rewards.is_empty());
    assert_eq!(page.cursor, None);
    let page = get_rewards(&state, &s("c"), Some(0), Some(s(""))).unwrap();
    assert_eq!(keys(&page), vec![s("d")]);
    let page = get_rewards(&state, &s("c"), Some(255), Some(s("a"))).unwrap();
    assert_eq!(keys(&page), vec![s("d"), s("c"), s("b"), s("a")]);
    assert_eq!(get_rewards(&state, &s("c"), None, None), Err(ContractError::NotAuthorized {}));
}

#[test]
fn limits_are_clamped() {
    assert_eq!(limit_of(None), 20);
    assert_eq!(limit_of(Some(0)), 1);
    assert_eq!(limit_of(Some(7)), 7);
    assert_eq!(limit_of(Some(21)), 20);
}

#[test]
fn grants_are_listed_by_address_length_then_address_then_key() {
    let mut state = fresh();
    for (c, k) in [("bb", "x"), ("a", "y"), ("ab", "k1"), ("ab", "k2"), ("é", "q")] {
        register(&mut state, c, vec![args(k, Some(4), vec![native("u", 1)])]);
        grant(&mut state, c, "alice", &[k], None);
    }
    grant(&mut state, "a", "bob", &["y"], None);
    let page = get_grants(&state, &s("alice"), None, Some((s(""), s("")))).unwrap();
    let listed: Vec<(String, String)> = page.rewards.iter().map(|g| (g.sender.clone(), g.key.clone())).collect();
    assert_eq!(listed, claim_keys(&[("é", "q"), ("bb", "x"), ("ab", "k2"), ("ab", "k1"), ("a", "y")]));
    assert_eq!(page.rewards[0].claims_remaining, Some(4));
    assert_eq!(page.cursor, Some((s("a"), s("y"))));
    let page = get_grants(&state, &s("alice"), Some(2), Some((s("ab"), s("k2")))).unwrap();
    let listed: Vec<(String, String)> = page.rewards.iter().map(|g| (g.sender.clone(), g.key.clone())).collect();
    assert_eq!(listed, claim_keys(&[("é", "q"), ("bb", "x")]));
    let page = get_grants(&state, &s("bob"), None, Some((s(""), s("")))).unwrap();
    assert_eq!(page.rewards.len(), 1);
    assert_eq!(get_grants(&state, &s("alice"), None, None), Err(ContractError::NotAuthorized {}));
}

#[test]
fn grants_query_of_unregistered_reward_is_refused() {
    let mut state = fresh();
    state.grants.insert((s("alice"), (s("c"), s("gone"))), Grant { expires_at: None });
    assert_eq!(
        get_grants(&state, &s("alice"), None, Some((s(""), s("")))),
        Err(ContractError::RewardNotFound {})
    );
}

#[test]
fn expiry_boundaries_and_lasting() {
    let g = Grant { expires_at: Some(Expiration::Height(10)) };
    assert!(g.is_expired(&BlockInfo { height: 10, time: 0 }));
    assert!(!g.is_expired(&BlockInfo { height: 9, time: 0 }));
    assert!(g.is_expired(&BlockInfo { height: 11, time: 5 }));
    let t = Grant { expires_at: Some(Expiration::Time(500)) };
    assert!(t.is_expired(&BlockInfo { height: 0, time: 500 }));
    assert!(!t.is_expired(&BlockInfo { height: 100, time: 499 }));
    assert!(!Grant { expires_at: None }.is_expired(&BlockInfo { height: u64::MAX, time: u64::MAX }));
}

#[test]
fn execute_dispatches_each_message() {
    let (mut state, _) = instantiate(&s("creator"), InstantiateMsg {});
    let b = block();
    execute(&mut state, &b, &s("c"), ExecuteMsg::Register { rewards: vec![args("r1", None, vec![native("u", 3)])] }).unwrap();
    execute(&mut state, &b, &s("c"), ExecuteMsg::Grant { grantee: s("alice"), keys: vec![s("r1")], expiration: None }).unwrap();
    let resp = execute(&mut state, &b, &s("alice"), ExecuteMsg::Claim { grants: claim_keys(&[("c", "r1")]) }).unwrap();
    assert_eq!(claim_tokens(&resp.messages[0]), vec![native("u", 3)]);
    execute(&mut state, &b, &s("c"), ExecuteMsg::Pause { keys: vec![s("r1")] }).unwrap();
    assert!(reward(&state, "c", "r1").unwrap().is_paused);
    execute(&mut state, &b, &s("c"), ExecuteMsg::Revoke { grantee: s("alice"), keys: vec![s("r1")] }).unwrap();
    assert_eq!(
        execute(&mut state, &b, &s("alice"), ExecuteMsg::Claim { grants: claim_keys(&[("c", "r1")]) }),
        Err(ContractError::GrantNotFound {})
    );
}

#[test]
fn overflowing_totals_stop_and_change_nothing() {
    let mut state = fresh();
    register(&mut state, "c", vec![args("big", None, vec![native("u", u128::MAX)])]);
    assert!(try_grant_rewards(&mut state, &s("c"), &s("alice"), vec![s("big")], None).is_ok());
    assert_eq!(
        try_grant_rewards(&mut state, &s("c"), &s("alice"), vec![s("big")], None),
        Err(Stop::Overflow)
    );
    assert_eq!(totals(&state, "alice", "u").unwrap().amount_granted, u128::MAX);
    assert!(try_claim_rewards(&mut state, &block(), &s("alice"), claim_keys(&[("c", "big")])).is_ok());
    assert_eq!(
        try_claim_rewards(&mut state, &block(), &s("alice"), claim_keys(&[("c", "big")])),
        Err(Stop::Overflow)
    );
    assert_eq!(totals(&state, "alice", "u").unwrap().amount_claimed, u128::MAX);
    assert_eq!(
        try_execute(&mut state, &block(), &s("alice"), ExecuteMsg::Claim { grants: claim_keys(&[("c", "big"), ("c", "big")]) }),
        Err(Stop::Overflow)
    );
}

#[test]
fn revoked_grants_leave_the_listing() {
    let mut state = fresh();
    register(&mut state, "c", vec![args("r1", None, vec![native("u", 1)]), args("r2", None, vec![native("u", 1)])]);
    grant(&mut state, "c", "alice", &["r1", "r2"], None);
    revoke_rewards(&mut state, &s("c"), &s("alice"), vec![s("r2")]).unwrap();
    let page = get_grants(&state, &s("alice"), None, Some((s(""), s("")))).unwrap();
    let listed: Vec<(String, String)> = page.rewards.iter().map(|g| (g.sender.clone(), g.key.clone())).collect();
    assert_eq!(listed, claim_keys(&[("c", "r1")]));
    // the totals granted stay after a revocation
    assert_eq!(totals(&state, "alice", "u").unwrap().amount_granted, 2);
}

fn claim_setup() -> ContractState {
    let mut state = fresh();
    register(&mut state, "c1", vec![args("a", None, vec![native("u", 3), cw20("t", 1)]), args("a2", None, vec![native("u", 4)])]);
    register(&mut state, "c2", vec![args("b", None, vec![native("u", 5)])]);
    grant(&mut state, "c1", "alice", &["a", "a2"], None);
    grant(&mut state, "c2", "alice", &["b"], None);
    state
}

#[test]
fn claim_does_not_depend_on_key_order() {
    let mut s1 = claim_setup();
    let mut s2 = claim_setup();
    let r1 = claim_rewards(&mut s1, &block(), &s("alice"), claim_keys(&[("c1", "a"), ("c2", "b"), ("c1", "a2")])).unwrap();
    let r2 = claim_rewards(&mut s2, &block(), &s("alice"), claim_keys(&[("c1", "a2"), ("c2", "b"), ("c1", "a")])).unwrap();
    for st in [&s1, &s2] {
        assert_eq!(totals(st, "alice", "u").unwrap().amount_claimed, 12);
        assert_eq!(totals(st, "alice", "t").unwrap().amount_claimed, 1);
    }
    assert_eq!(r1.messages[0].contract_addr, s("c1"));
    assert_eq!(claim_tokens(&r1.messages[0]), vec![native("u", 7), cw20("t", 1)]);
    assert_eq!(claim_tokens(&r2.messages[0]), vec![native("u", 7), cw20("t", 1)]);
    assert_eq!(r1.messages[1], r2.messages[1]);
}

#[test]
fn claim_refused_in_one_order_is_refused_in_every_order() {
    let keys = [("c1", "a"), ("c2", "b"), ("c2", "missing")];
    let mut s1 = claim_setup();
    let r1 = claim_rewards(&mut s1, &block(), &s("alice"), claim_keys(&keys));
    let mut rev = keys.to_vec();
    rev.reverse();
    let mut s2 = claim_setup();
    let r2 = claim_rewards(&mut s2, &block(), &s("alice"), claim_keys(&rev));
    assert_eq!(r1, Err(ContractError::GrantNotFound {}));
    assert_eq!(r2, Err(ContractError::GrantNotFound {}));
    for st in [&s1, &s2] {
        assert_eq!(totals(st, "alice", "u").unwrap().amount_claimed, 0);
    }
}

#[test]
fn query_answers_by_kind() {
    let mut state = claim_setup();
    register(&mut state, "c1", vec![args("b", None, vec![native("u", 1)])]);
    match query(&state, QueryMsg::Rewards { contract: s("c1"), limit: Some(1), cursor: Some(s("")) }) {
        Ok(QueryAnswer::Rewards(page)) => {
            assert_eq!(page.rewards.len(), 1);
            assert_eq!(page.rewards[0].key, s("b"));
            assert_eq!(page.cursor, Some(s("b")));
        },
        other => panic!("unexpected answer {:?}", other),
    }
    match query(&state, QueryMsg::Grants { wallet: s("alice"), limit: None, cursor: Some((s(""), s(""))) }) {
        Ok(QueryAnswer::Grants(page)) => assert_eq!(page.rewards.len(), 3),
        other => panic!("unexpected answer {:?}", other),
    }
    assert_eq!(
        query(&state, QueryMsg::Rewards { contract: s("c1"), limit: None, cursor: None }),
        Err(ContractError::NotAuthorized {})
    );
    assert_eq!(
        query(&state, QueryMsg::Grants { wallet: s("alice"), limit: None, cursor: None }),
        Err(ContractError::NotAuthorized {})
    );
    assert_eq!(
        query(&state, QueryMsg::Select { fields: Some(vec![s("created_by")]) }),
        Ok(QueryAnswer::Select { fields: Some(vec![s("created_by")]) })
    );
}

#[test]
fn claim_token_kind_under_a_shared_key_follows_key_order() {
    let setup = || {
        let mut state = fresh();
        register(&mut state, "c", vec![args("n", None, vec![native("x", 2)]), args("w", None, vec![cw20("x", 3)])]);
        grant(&mut state, "c", "alice", &["n", "w"], None);
        state
    };
    let mut s1 = setup();
    let mut s2 = setup();
    let r1 = claim_rewards(&mut s1, &block(), &s("alice"), claim_keys(&[("c", "n"), ("c", "w")])).unwrap();
    let r2 = claim_rewards(&mut s2, &block(), &s("alice"), claim_keys(&[("c", "w"), ("c", "n")])).unwrap();
    assert_eq!(claim_tokens(&r1.messages[0]), vec![native("x", 5)]);
    assert_eq!(claim_tokens(&r2.messages[0]), vec![cw20("x", 5)]);
    assert_eq!(totals(&s1, "alice", "x"), totals(&s2, "alice", "x"));
}
