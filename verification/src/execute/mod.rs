//! The messages that change the state.

pub mod claim_rewards;
pub mod grant_rewards;
pub mod pause_rewards;
pub mod register_rewards;
pub mod revoke_rewards;

use vstd::prelude::*;
use crate::error::ContractError;
use crate::msg::Response;
use crate::outcome::{Outcome, Stop};
use crate::state::StateView;

verus! {

/// How a message ran against the model's outcome `o`: to its new state with
/// a response, or refused with its error and the state left as it was (a
/// refused message changes nothing). An aborting outcome is never run.
pub open spec fn executed(
    pre: StateView,
    post: StateView,
    r: Result<Response, ContractError>,
    o: Outcome<StateView>,
) -> bool {
    match o {
        Outcome::Done(s) => post == s && r is Ok,
        Outcome::Fail(e) => post == pre && r == Result::<Response, ContractError>::Err(e),
        Outcome::Abort => false,
    }
}

/// How a message ran against the model's outcome `o`, on every input: to its
/// new state with a response, or stopped with the state left as it was, by a
/// refusal with the model's error or by an overflow where the model aborts.
pub open spec fn attempted(
    pre: StateView,
    post: StateView,
    r: Result<Response, Stop>,
    o: Outcome<StateView>,
) -> bool {
    match o {
        Outcome::Done(s) => post == s && r is Ok,
        Outcome::Fail(e) => post == pre && r == Result::<Response, Stop>::Err(Stop::Refused(e)),
        Outcome::Abort => post == pre && r == Result::<Response, Stop>::Err(Stop::Overflow),
    }
}

} // verus!
