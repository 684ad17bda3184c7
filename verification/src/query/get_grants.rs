//! The rewards granted to a wallet, a page at a time.

use vstd::prelude::*;
use crate::error::ContractError;
use crate::models::{copy_opt_str, opt_str, GrantQueryResult, RewardKey, RewardMetadataView};
use crate::msg::GrantsResponse;
use crate::order::{grant_key_lt, grant_key_order, lemma_grant_key_order, reward_key_lt};
use crate::query::{clamp_limit, desc_page, is_desc_page, lemma_desc_page, limit_of};
use crate::state::{ContractState, StateView};
use crate::table::{DeepCopy, TableKey};

verus! {

/// The reward keys that a query of `wallet`'s grants from `cursor` may list:
/// those granted to the wallet, at or after the cursor.
pub open spec fn grant_member(s: StateView, wallet: Seq<char>, cursor: (Seq<char>, Seq<char>)) -> spec_fn(
    (Seq<char>, Seq<char>),
) -> bool {
    |k: (Seq<char>, Seq<char>)| s.grants.contains_key((wallet, k)) && !grant_key_lt(k, cursor)
}

/// The reward keys that the query lists: the greatest `limit` of them,
/// greatest first.
pub open spec fn grants_page(s: StateView, wallet: Seq<char>, cursor: (Seq<char>, Seq<char>), limit: nat) -> Seq<
    (Seq<char>, Seq<char>),
> {
    desc_page(grant_member(s, wallet, cursor), grant_key_order(), limit)
}

/// `q` describes the reward `m` registered under `key`.
pub open spec fn grant_result_is(q: GrantQueryResult, key: (Seq<char>, Seq<char>), m: RewardMetadataView) -> bool {
    &&& q.sender@ == key.0
    &&& q.key@ == key.1
    &&& q.claims_processed == m.claims_processed
    &&& q.claims_remaining == m.claims_remaining
    &&& opt_str(q.message) == m.message
}

pub open spec fn opt_key(o: Option<RewardKey>) -> Option<(Seq<char>, Seq<char>)> {
    match o {
        Some(k) => Some(k@),
        None => None,
    }
}

/// The answer lists the rewards of the page in its order, and its cursor is
/// the last key listed, if any.
pub open spec fn grants_answer(s: StateView, page: Seq<(Seq<char>, Seq<char>)>, resp: GrantsResponse) -> bool {
    &&& resp.rewards@.len() == page.len()
    &&& forall|i: int|
        0 <= i < page.len() ==> grant_result_is(#[trigger] resp.rewards@[i], page[i], s.rewards[page[i]])
    &&& opt_key(resp.cursor) == if page.len() == 0 {
        None
    } else {
        Some(page.last())
    }
}

/// Every listed key has a registered reward.
pub open spec fn page_registered(s: StateView, page: Seq<(Seq<char>, Seq<char>)>) -> bool {
    forall|i: int| 0 <= i < page.len() ==> s.rewards.contains_key(#[trigger] page[i])
}

spec fn is_candidate(k: (Seq<char>, (Seq<char>, Seq<char>)), w: Seq<char>, cursor: (Seq<char>, Seq<char>), page: Seq<(Seq<char>, Seq<char>)>) -> bool {
    &&& k.0 == w
    &&& !grant_key_lt(k.1, cursor)
    &&& page.len() == 0 || grant_key_lt(k.1, page.last())
}

/// The reward keys of the page of `wallet`'s grants.
fn select_grant_keys(state: &ContractState, wallet: &String, lim: usize, cursor: &RewardKey) -> (page: Vec<RewardKey>)
    requires
        1 <= lim <= 20,
    ensures
        page@.map_values(|k: RewardKey| k@) == grants_page(state@, wallet@, cursor@, lim as nat),
        is_desc_page(
            grants_page(state@, wallet@, cursor@, lim as nat),
            grant_member(state@, wallet@, cursor@),
            grant_key_order(),
            lim as nat,
        ),
{
    let ghost member = grant_member(state@, wallet@, cursor@);
    let ghost w = wallet@;
    proof {
        lemma_grant_key_order();
    }
    let n = state.grants.len();
    let mut keys: Vec<RewardKey> = Vec::new();
    let ghost mut page: Seq<(Seq<char>, Seq<char>)> = Seq::empty();
    let mut last: usize = 0;
    let mut done = false;
    while keys.len() < lim && !done
        invariant
            n == state.grants.key_seq().len(),
            forall|i: int| 0 <= i < n ==> state@.grants.contains_key(#[trigger] state.grants.key_seq()[i]),
            forall|k: (Seq<char>, (Seq<char>, Seq<char>))| #[trigger]
                state@.grants.contains_key(k) ==> exists|i: int|
                    0 <= i < n && #[trigger] state.grants.key_seq()[i] == k,
            member == grant_member(state@, wallet@, cursor@),
            w == wallet@,
            1 <= lim <= 20,
            keys@.len() == page.len(),
            page.len() <= lim,
            forall|i: int| 0 <= i < page.len() ==> (#[trigger] keys@[i])@ == page[i],
            forall|i: int| 0 <= i < page.len() ==> member(#[trigger] page[i]),
            forall|i: int, j: int| 0 <= i < j < page.len() ==> grant_key_lt(#[trigger] page[j], #[trigger] page[i]),
            page.len() > 0 ==> last < n && state.grants.key_seq()[last as int] == (w, page.last()),
            forall|x: (Seq<char>, Seq<char>)| #[trigger]
                member(x) ==> page.contains(x) || (page.len() > 0 && grant_key_lt(x, page.last())) || page.len() == 0,
            done ==> forall|x: (Seq<char>, Seq<char>)| #[trigger] member(x) ==> page.contains(x),
        decreases lim - keys@.len() + (if done { 0int } else { 1int }),
    {
        proof {
            lemma_grant_key_order();
        }
        let mut best: Option<usize> = None;
        let mut j: usize = 0;
        while j < n
            invariant
                n == state.grants.key_seq().len(),
                member == grant_member(state@, wallet@, cursor@),
                w == wallet@,
                keys@.len() == page.len(),
                page.len() > 0 ==> last < n && state.grants.key_seq()[last as int] == (w, page.last()),
                j <= n,
                best is Some ==> best.unwrap() < n && is_candidate(
                    state.grants.key_seq()[best.unwrap() as int],
                    w,
                    cursor@,
                    page,
                ),
                forall|jj: int|
                    0 <= jj < j && is_candidate(#[trigger] state.grants.key_seq()[jj], w, cursor@, page) ==> best is Some
                        && (state.grants.key_seq()[jj].1 == state.grants.key_seq()[best.unwrap() as int].1
                        || grant_key_lt(state.grants.key_seq()[jj].1, state.grants.key_seq()[best.unwrap() as int].1)),
            decreases n - j,
        {
            proof {
                lemma_grant_key_order();
            }
            let k = state.grants.key_at(j);
            let candidate = k.0.same(wallet) && !reward_key_lt(&k.1, cursor) && (keys.len() == 0 || reward_key_lt(
                &k.1,
                &state.grants.key_at(last).1,
            ));
            if candidate {
                match best {
                    None => {
                        best = Some(j);
                    },
                    Some(b) => {
                        if reward_key_lt(&state.grants.key_at(b).1, &k.1) {
                            best = Some(j);
                        }
                    },
                }
            }
            j = j + 1;
        }
        match best {
            None => {
                proof {
                    assert forall|x: (Seq<char>, Seq<char>)| #[trigger] member(x) implies page.contains(x) by {
                        if !page.contains(x) {
                            let i = choose|i: int| 0 <= i < n && #[trigger] state.grants.key_seq()[i] == (w, x);
                            assert(state.grants.key_seq()[i].0 == w);
                        }
                    }
                }
                done = true;
            },
            Some(b) => {
                let k = state.grants.key_at(b);
                let ghost kb = k@.1;
                proof {
                    assert(state.grants.key_seq()[b as int] == (w, kb));
                    assert(member(kb));
                    assert forall|x: (Seq<char>, Seq<char>)| #[trigger] member(x) implies page.push(kb).contains(x)
                        || grant_key_lt(x, kb) by {
                        if !page.contains(x) {
                            let i = choose|i: int| 0 <= i < n && #[trigger] state.grants.key_seq()[i] == (w, x);
                            assert(state.grants.key_seq()[i].0 == w);
                            if x == kb {
                                assert(page.push(kb)[page.len() as int] == x);
                            }
                        } else {
                            let i = choose|i: int| 0 <= i < page.len() && page[i] == x;
                            assert(page.push(kb)[i] == x);
                        }
                    }
                    assert forall|i: int| 0 <= i < page.len() implies grant_key_lt(kb, #[trigger] page[i]) by {
                        if i < page.len() - 1 {
                            assert(grant_key_lt(page[page.len() - 1], page[i]));
                        }
                    }
                    page = page.push(kb);
                }
                keys.push(k.1.deep_copy());
                last = b;
            },
        }
    }
    proof {
        assert(is_desc_page(page, member, grant_key_order(), lim as nat));
        lemma_desc_page(page, member, grant_key_order(), lim as nat);
        assert(keys@.map_values(|k: RewardKey| k@) =~= page);
    }
    keys
}

/// What a query of the rewards granted to `wallet` answers: refused without
/// a cursor or where its page holds a grant of an unregistered reward, else
/// the page of its grants from the cursor down.
pub open spec fn grants_result(
    s: StateView,
    wallet: Seq<char>,
    some_limit: Option<u8>,
    some_cursor: Option<RewardKey>,
    r: Result<GrantsResponse, ContractError>,
) -> bool {
    match some_cursor {
        None => r == Result::<GrantsResponse, ContractError>::Err(ContractError::NotAuthorized {}),
        Some(c) => {
            let page = grants_page(s, wallet, c@, clamp_limit(some_limit));
            if page_registered(s, page) {
                r matches Ok(resp) && grants_answer(s, page, resp)
            } else {
                r == Result::<GrantsResponse, ContractError>::Err(ContractError::RewardNotFound {})
            }
        },
    }
}

/// Lists the rewards granted to `wallet` with keys at or after the cursor,
/// from the greatest key down. A query without a cursor is refused, and so is
/// one whose page holds a grant of a reward that is not registered.
pub fn get_grants(
    state: &ContractState,
    wallet: &String,
    some_limit: Option<u8>,
    some_cursor: Option<RewardKey>,
) -> (r: Result<GrantsResponse, ContractError>)
    ensures
        match some_cursor {
            None => r == Result::<GrantsResponse, ContractError>::Err(ContractError::NotAuthorized {}),
            Some(c) => {
                let page = grants_page(state@, wallet@, c@, clamp_limit(some_limit));
                if page_registered(state@, page) {
                    r matches Ok(resp) && grants_answer(state@, page, resp)
                } else {
                    r == Result::<GrantsResponse, ContractError>::Err(ContractError::RewardNotFound {})
                }
            },
        },
        some_cursor matches Some(c) ==> is_desc_page(
            grants_page(state@, wallet@, c@, clamp_limit(some_limit)),
            grant_member(state@, wallet@, c@),
            grant_key_order(),
            clamp_limit(some_limit),
        ),
        r matches Ok(resp) ==> some_cursor matches Some(c) && forall|i: int|
            0 <= i < resp.rewards@.len() ==> state@.grants.contains_key(
                (wallet@, ((#[trigger] resp.rewards@[i]).sender@, resp.rewards@[i].key@)),
            ) && !grant_key_lt((resp.rewards@[i].sender@, resp.rewards@[i].key@), c@),
{
    let lim = limit_of(some_limit);
    let cursor = match some_cursor {
        Some(c) => c,
        None => {
            return Err(ContractError::NotAuthorized {});
        },
    };
    let keys = select_grant_keys(state, wallet, lim, &cursor);
    let ghost page = grants_page(state@, wallet@, cursor@, lim as nat);
    let mut results: Vec<GrantQueryResult> = Vec::new();
    let n = keys.len();
    let mut i: usize = 0;
    while i < n
        invariant
            n == keys@.len(),
            page == keys@.map_values(|k: RewardKey| k@),
            some_cursor == Some(cursor),
            lim == clamp_limit(some_limit),
            page == grants_page(state@, wallet@, cursor@, lim as nat),
            is_desc_page(page, grant_member(state@, wallet@, cursor@), grant_key_order(), lim as nat),
            i <= n,
            results@.len() == i,
            forall|j: int| 0 <= j < i ==> state@.rewards.contains_key(#[trigger] page[j]),
            forall|j: int|
                0 <= j < i ==> grant_result_is(#[trigger] results@[j], page[j], state@.rewards[page[j]]),
        decreases n - i,
    {
        let reward_key = &keys[i];
        assert(reward_key@ == page[i as int]);
        match state.rewards.get(reward_key) {
            Some(meta) => {
                results.push(
                    GrantQueryResult {
                        claims_processed: meta.claims_processed,
                        claims_remaining: meta.claims_remaining,
                        message: copy_opt_str(&meta.message),
                        sender: reward_key.0.clone(),
                        key: reward_key.1.clone(),
                    },
                );
            },
            None => {
                return Err(ContractError::RewardNotFound {});
            },
        }
        i = i + 1;
    }
    proof {
        assert forall|i: int| 0 <= i < results@.len() implies state@.grants.contains_key(
            (wallet@, ((#[trigger] results@[i]).sender@, results@[i].key@)),
        ) && !grant_key_lt((results@[i].sender@, results@[i].key@), cursor@) by {
            assert(grant_member(state@, wallet@, cursor@)(page[i]));
            assert(grant_result_is(results@[i], page[i], state@.rewards[page[i]]));
        }
    }
    let cursor = if results.len() > 0 {
        let last = &results[results.len() - 1];
        Some((last.sender.clone(), last.key.clone()))
    } else {
        None
    };
    Ok(GrantsResponse { rewards: results, cursor })
}

} // verus!
