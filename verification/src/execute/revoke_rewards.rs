//! Withdrawing grants of rewards that the sender registered.

use vstd::prelude::*;
use crate::error::ContractError;
use crate::execute::grant_rewards::keys_view;
use crate::msg::{Action, Response};
use crate::seqs::lemma_take_next_contains;
use crate::state::{ContractState, StateView};

verus! {

/// The grants to `grantee` of the rewards that `sender` registered under `keys`.
pub open spec fn revoked_keys(sender: Seq<char>, grantee: Seq<char>, keys: Seq<Seq<char>>) -> Set<
    (Seq<char>, (Seq<char>, Seq<char>)),
> {
    Set::new(
        |gk: (Seq<char>, (Seq<char>, Seq<char>))|
            gk.0 == grantee && gk.1.0 == sender && keys.contains(gk.1.1),
    )
}

/// Revoking removes those grants, whether they exist or not, and nothing else.
pub open spec fn revoke_all(s: StateView, sender: Seq<char>, grantee: Seq<char>, keys: Seq<Seq<char>>) -> StateView {
    StateView { grants: s.grants.remove_keys(revoked_keys(sender, grantee, keys)), ..s }
}

/// Revokes the grants to `grantee` of the sender's rewards under `keys`.
pub fn revoke_rewards(
    state: &mut ContractState,
    sender: &String,
    grantee: &String,
    keys: Vec<String>,
) -> (r: Result<Response, ContractError>)
    ensures
        final(state)@ == revoke_all(old(state)@, sender@, grantee@, keys_view(keys@)),
        r matches Ok(resp) && resp.action == Action::Revoke && resp.messages@.len() == 0,
{
    let ghost ks = keys_view(keys@);
    let ghost start = state@;
    let n = keys.len();
    let mut i: usize = 0;
    assert(start.grants.remove_keys(revoked_keys(sender@, grantee@, ks.take(0))) =~= start.grants);
    while i < n
        invariant
            n == keys@.len(),
            ks == keys_view(keys@),
            i <= n,
            state@ == revoke_all(start, sender@, grantee@, ks.take(i as int)),
        decreases n - i,
    {
        let grant_key = (grantee.clone(), (sender.clone(), keys[i].clone()));
        let ghost before = state.grants@;
        state.grants.remove(&grant_key);
        proof {
            let s1 = revoked_keys(sender@, grantee@, ks.take(i as int));
            let s2 = revoked_keys(sender@, grantee@, ks.take(i + 1));
            lemma_take_next_contains(ks, i as int);
            assert(state.grants@ =~= start.grants.remove_keys(s2));
        }
        i = i + 1;
    }
    assert(ks.take(n as int) =~= ks);
    Ok(Response::new(Action::Revoke))
}

} // verus!
