//! A contract's registered rewards, a page at a time.

use vstd::prelude::*;
use crate::error::ContractError;
use crate::models::{amounts_view, copy_amounts, copy_opt_str, opt_str, RewardMetadataView, RewardQueryResult};
use crate::msg::RewardsResponse;
use crate::order::{lemma_lex_order, lex_lt, lex_order, str_lt};
use crate::query::{clamp_limit, desc_page, is_desc_page, lemma_desc_page, limit_of};
use crate::state::{ContractState, StateView};
use crate::table::TableKey;

verus! {

/// The keys that a query of `contract`'s rewards from `cursor` may list: those
/// of its rewards at or after the cursor.
pub open spec fn reward_member(s: StateView, contract: Seq<char>, cursor: Seq<char>) -> spec_fn(Seq<char>) -> bool {
    |k: Seq<char>| s.rewards.contains_key((contract, k)) && !lex_lt(k, cursor)
}

/// The keys that the query lists: the greatest `limit` of them, greatest
/// first.
pub open spec fn rewards_page(s: StateView, contract: Seq<char>, cursor: Seq<char>, limit: nat) -> Seq<Seq<char>> {
    desc_page(reward_member(s, contract, cursor), lex_order(), limit)
}

/// `q` describes the reward `m` that `contract` registered under `key`.
pub open spec fn reward_result_is(q: RewardQueryResult, contract: Seq<char>, key: Seq<char>, m: RewardMetadataView) -> bool {
    &&& q.key@ == key
    &&& q.sender@ == contract
    &&& q.claims_processed == m.claims_processed
    &&& q.claims_remaining == m.claims_remaining
    &&& opt_str(q.message) == m.message
    &&& amounts_view(q.tokens@) == m.tokens
    &&& q.is_paused == m.is_paused
}

/// The answer lists the rewards of the page in its order, and its cursor is
/// the last key listed, if any.
pub open spec fn rewards_answer(s: StateView, contract: Seq<char>, page: Seq<Seq<char>>, resp: RewardsResponse) -> bool {
    &&& resp.rewards@.len() == page.len()
    &&& forall|i: int|
        0 <= i < page.len() ==> reward_result_is(
            #[trigger] resp.rewards@[i],
            contract,
            page[i],
            s.rewards[(contract, page[i])],
        )
    &&& opt_str(resp.cursor) == if page.len() == 0 {
        None
    } else {
        Some(page.last())
    }
}

/// A key that may be listed next: the contract's, at or after the cursor, and
/// below the keys listed so far.
spec fn is_candidate(k: (Seq<char>, Seq<char>), c: Seq<char>, cursor: Seq<char>, page: Seq<Seq<char>>) -> bool {
    &&& k.0 == c
    &&& !lex_lt(k.1, cursor)
    &&& page.len() == 0 || lex_lt(k.1, page.last())
}

/// What a query of `contract`'s rewards answers: refused without a cursor,
/// else the page of its rewards from the cursor down.
pub open spec fn rewards_result(
    s: StateView,
    contract: Seq<char>,
    some_limit: Option<u8>,
    some_cursor: Option<String>,
    r: Result<RewardsResponse, ContractError>,
) -> bool {
    match some_cursor {
        None => r == Result::<RewardsResponse, ContractError>::Err(ContractError::NotAuthorized {}),
        Some(c) => r matches Ok(resp) && rewards_answer(
            s,
            contract,
            rewards_page(s, contract, c@, clamp_limit(some_limit)),
            resp,
        ),
    }
}

/// Lists `contract_addr`'s rewards with keys at or after the cursor, from the
/// greatest key down; a query without a cursor is refused.
pub fn get_rewards(
    state: &ContractState,
    contract_addr: &String,
    some_limit: Option<u8>,
    some_cursor: Option<String>,
) -> (r: Result<RewardsResponse, ContractError>)
    ensures
        match some_cursor {
            None => r == Result::<RewardsResponse, ContractError>::Err(ContractError::NotAuthorized {}),
            Some(c) => r matches Ok(resp) && rewards_answer(
                state@,
                contract_addr@,
                rewards_page(state@, contract_addr@, c@, clamp_limit(some_limit)),
                resp,
            ),
        },
        some_cursor matches Some(c) ==> is_desc_page(
            rewards_page(state@, contract_addr@, c@, clamp_limit(some_limit)),
            reward_member(state@, contract_addr@, c@),
            lex_order(),
            clamp_limit(some_limit),
        ),
        r matches Ok(resp) ==> some_cursor matches Some(c) && forall|i: int|
            0 <= i < resp.rewards@.len() ==> state@.rewards.contains_key(
                (contract_addr@, (#[trigger] resp.rewards@[i]).key@),
            ) && resp.rewards@[i].sender@ == contract_addr@ && !lex_lt(resp.rewards@[i].key@, c@),
{
    let lim = limit_of(some_limit);
    let cursor = match some_cursor {
        Some(c) => c,
        None => {
            return Err(ContractError::NotAuthorized {});
        },
    };
    let ghost member = reward_member(state@, contract_addr@, cursor@);
    let ghost c = contract_addr@;
    proof {
        lemma_lex_order();
    }
    let n = state.rewards.len();
    let mut results: Vec<RewardQueryResult> = Vec::new();
    let ghost mut page: Seq<Seq<char>> = Seq::empty();
    let mut last: usize = 0;
    let mut done = false;
    while results.len() < lim && !done
        invariant
            n == state.rewards.key_seq().len(),
            n == state.rewards.value_seq().len(),
            forall|i: int|
                0 <= i < n ==> state@.rewards.contains_key(#[trigger] state.rewards.key_seq()[i])
                    && state@.rewards[state.rewards.key_seq()[i]] == state.rewards.value_seq()[i],
            forall|k: (Seq<char>, Seq<char>)| #[trigger]
                state@.rewards.contains_key(k) ==> exists|i: int|
                    0 <= i < n && #[trigger] state.rewards.key_seq()[i] == k,
            member == reward_member(state@, contract_addr@, cursor@),
            c == contract_addr@,
            lim == clamp_limit(some_limit),
            results@.len() == page.len(),
            page.len() <= lim,
            forall|i: int| 0 <= i < page.len() ==> member(#[trigger] page[i]),
            forall|i: int, j: int| 0 <= i < j < page.len() ==> lex_lt(#[trigger] page[j], #[trigger] page[i]),
            forall|i: int|
                0 <= i < page.len() ==> reward_result_is(
                    #[trigger] results@[i],
                    c,
                    page[i],
                    state@.rewards[(c, page[i])],
                ),
            page.len() > 0 ==> last < n && state.rewards.key_seq()[last as int] == (c, page.last()),
            forall|x: Seq<char>| #[trigger]
                member(x) ==> page.contains(x) || (page.len() > 0 && lex_lt(x, page.last())) || page.len() == 0,
            done ==> forall|x: Seq<char>| #[trigger] member(x) ==> page.contains(x),
        decreases lim - results@.len() + (if done { 0int } else { 1int }),
    {
        proof {
            lemma_lex_order();
        }
        // the greatest key below the last one listed
        let mut best: Option<usize> = None;
        let mut j: usize = 0;
        while j < n
            invariant
                n == state.rewards.key_seq().len(),
                member == reward_member(state@, contract_addr@, cursor@),
                c == contract_addr@,
                results@.len() == page.len(),
                page.len() > 0 ==> last < n && state.rewards.key_seq()[last as int] == (c, page.last()),
                j <= n,
                best is Some ==> best.unwrap() < n && is_candidate(
                    state.rewards.key_seq()[best.unwrap() as int],
                    c,
                    cursor@,
                    page,
                ),
                forall|jj: int|
                    0 <= jj < j && is_candidate(#[trigger] state.rewards.key_seq()[jj], c, cursor@, page) ==> best is Some
                        && (state.rewards.key_seq()[jj].1 == state.rewards.key_seq()[best.unwrap() as int].1
                        || lex_lt(state.rewards.key_seq()[jj].1, state.rewards.key_seq()[best.unwrap() as int].1)),
            decreases n - j,
        {
            proof {
                lemma_lex_order();
            }
            let k = state.rewards.key_at(j);
            let candidate = k.0.same(contract_addr) && !str_lt(&k.1, &cursor) && (results.len() == 0 || str_lt(
                &k.1,
                &state.rewards.key_at(last).1,
            ));
            if candidate {
                match best {
                    None => {
                        best = Some(j);
                    },
                    Some(b) => {
                        if str_lt(&state.rewards.key_at(b).1, &k.1) {
                            best = Some(j);
                        }
                    },
                }
            }
            j = j + 1;
        }
        match best {
            None => {
                proof {
                    assert forall|x: Seq<char>| #[trigger] member(x) implies page.contains(x) by {
                        if !page.contains(x) {
                            let i = choose|i: int| 0 <= i < n && #[trigger] state.rewards.key_seq()[i] == (c, x);
                            assert(state.rewards.key_seq()[i].0 == c);
                        }
                    }
                }
                done = true;
            },
            Some(b) => {
                let k = state.rewards.key_at(b);
                let meta = state.rewards.value_at(b);
                let q = RewardQueryResult {
                    claims_processed: meta.claims_processed,
                    claims_remaining: meta.claims_remaining,
                    message: copy_opt_str(&meta.message),
                    tokens: copy_amounts(&meta.tokens),
                    sender: contract_addr.clone(),
                    is_paused: meta.is_paused,
                    key: k.1.clone(),
                };
                let ghost kb = k@.1;
                proof {
                    assert(state.rewards.key_seq()[b as int] == (c, kb));
                    assert(member(kb));
                    assert forall|x: Seq<char>| #[trigger] member(x) implies page.push(kb).contains(x) || lex_lt(x, kb) by {
                        if !page.contains(x) {
                            let i = choose|i: int| 0 <= i < n && #[trigger] state.rewards.key_seq()[i] == (c, x);
                            assert(state.rewards.key_seq()[i].0 == c);
                            if x == kb {
                                assert(page.push(kb)[page.len() as int] == x);
                            }
                        } else {
                            let i = choose|i: int| 0 <= i < page.len() && page[i] == x;
                            assert(page.push(kb)[i] == x);
                        }
                    }
                    assert forall|i: int| 0 <= i < page.len() implies lex_lt(kb, #[trigger] page[i]) by {
                        if i < page.len() - 1 {
                            assert(lex_lt(page[page.len() - 1], page[i]));
                        }
                    }
                    page = page.push(kb);
                }
                results.push(q);
                last = b;
            },
        }
    }
    proof {
        assert(is_desc_page(page, member, lex_order(), lim as nat));
        lemma_desc_page(page, member, lex_order(), lim as nat);
        assert forall|i: int| 0 <= i < results@.len() implies state@.rewards.contains_key(
            (contract_addr@, (#[trigger] results@[i]).key@),
        ) && results@[i].sender@ == contract_addr@ && !lex_lt(results@[i].key@, cursor@) by {
            assert(member(page[i]));
        }
    }
    let cursor = if results.len() > 0 {
        Some(results[results.len() - 1].key.clone())
    } else {
        None
    };
    Ok(RewardsResponse { rewards: results, cursor })
}

} // verus!
