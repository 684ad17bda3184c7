//! How a batch of steps ends: with a new value, refused with an error, or
//! aborted by a panic (an arithmetic overflow); and the fold that runs a batch.

use vstd::prelude::*;
use crate::error::ContractError;

verus! {

pub enum Outcome<T> {
    Done(T),
    Fail(ContractError),
    Abort,
}

/// Why a message was not carried out: refused with an error, or stopped
/// where the arithmetic overflows, at which the contract panics.
#[derive(Debug, Clone, Copy, PartialEq, Eq, Structural)]
pub enum Stop {
    Refused(ContractError),
    Overflow,
}

/// An exec result that stopped, against the outcome of the model: a refusal
/// is a failure with the same error, and an overflow is an abort.
pub open spec fn stopped_as<T>(stop: Stop, o: Outcome<T>) -> bool {
    match stop {
        Stop::Refused(e) => o == Outcome::<T>::Fail(e),
        Stop::Overflow => o is Abort,
    }
}

/// Runs `step` over `xs` from `init`, stopping at the first step that does
/// not end in `Done`.
pub open spec fn fold_outcome<S, A>(init: S, xs: Seq<A>, step: spec_fn(S, A) -> Outcome<S>) -> Outcome<S>
    decreases xs.len(),
{
    if xs.len() == 0 {
        Outcome::Done(init)
    } else {
        match fold_outcome(init, xs.drop_last(), step) {
            Outcome::Done(s) => step(s, xs.last()),
            o => o,
        }
    }
}

pub proof fn lemma_fold_next<S, A>(init: S, xs: Seq<A>, step: spec_fn(S, A) -> Outcome<S>, i: int)
    requires
        0 <= i < xs.len(),
    ensures
        fold_outcome(init, xs.take(i + 1), step) == match fold_outcome(init, xs.take(i), step) {
            Outcome::Done(s) => step(s, xs[i]),
            o => o,
        },
{
    assert(xs.take(i + 1).drop_last() =~= xs.take(i));
}

pub proof fn lemma_fold_stuck<S, A>(init: S, xs: Seq<A>, step: spec_fn(S, A) -> Outcome<S>, i: int)
    requires
        0 <= i <= xs.len(),
        !(fold_outcome(init, xs.take(i), step) is Done),
    ensures
        fold_outcome(init, xs, step) == fold_outcome(init, xs.take(i), step),
    decreases xs.len() - i,
{
    if i == xs.len() {
        assert(xs.take(i) =~= xs);
    } else {
        lemma_fold_next(init, xs, step, i);
        lemma_fold_stuck(init, xs, step, i + 1);
    }
}

pub proof fn lemma_fold_whole<S, A>(init: S, xs: Seq<A>, step: spec_fn(S, A) -> Outcome<S>)
    ensures
        fold_outcome(init, xs.take(xs.len() as int), step) == fold_outcome(init, xs, step),
{
    assert(xs.take(xs.len() as int) =~= xs);
}

pub proof fn lemma_fold_empty<S, A>(init: S, xs: Seq<A>, step: spec_fn(S, A) -> Outcome<S>)
    ensures
        fold_outcome(init, xs.take(0), step) == Outcome::<S>::Done(init),
{
    assert(xs.take(0).len() == 0);
}

} // verus!
