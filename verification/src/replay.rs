//! What replaying a log gives.

use vstd::prelude::*;

use crate::error::StateMachineError;
use crate::log::{active_applies, is_unknown_target, is_well_targeted, LogEntry, LogEntryKind};
use crate::transition::Transition;

verus! {

/// The state that `transition` turns `state` into, or `None` if it fails there, in the pre-check or
/// while applying.
pub open spec fn step<S, T: Transition<S, E>, E>(transition: T, state: S) -> Option<S> {
    if transition.applicable(state) {
        transition.applied(state)
    } else {
        None
    }
}

/// Where applying entries one after the other ends.
pub enum Run<S> {
    /// Every transition succeeded and left this state.
    Finished(S),
    /// The transition of the entry at `position` failed on `state`.
    Stuck { position: int, state: S },
}

/// Applies the transitions of `entries` in order, starting in `initial`, up to the first that fails.
/// `Undo` entries do nothing.
pub open spec fn run<S, T: Transition<S, E>, E>(entries: Seq<LogEntry<T>>, initial: S) -> Run<S>
    decreases entries.len(),
{
    if entries.len() == 0 {
        Run::Finished(initial)
    } else {
        match run::<S, T, E>(entries.drop_last(), initial) {
            Run::Finished(state) => match entries.last().kind {
                LogEntryKind::Apply(transition) => match step::<S, T, E>(transition, state) {
                    Some(next) => Run::Finished(next),
                    None => Run::Stuck { position: entries.len() - 1, state },
                },
                LogEntryKind::Undo(_) => Run::Finished(state),
            },
            stuck => stuck,
        }
    }
}

/// Whether `outcome` is what replaying `log` from the state `initial` gives.
///
/// A log in which some active undo lacks its target is rejected with such a target. Otherwise the
/// transitions in effect are run in log order: the replay gives the state they leave, or reports the
/// first entry whose transition fails, with the error of that transition.
pub open spec fn replays_from<S, T: Transition<S, E>, E>(
    log: Seq<LogEntry<T>>,
    initial: S,
    outcome: Result<S, StateMachineError<E>>,
) -> bool {
    let entries = active_applies(log);
    match outcome {
        Ok(state) => is_well_targeted(log) && run::<S, T, E>(entries, initial) == Run::Finished(
            state,
        ),
        Err(StateMachineError::Transition(id, err)) => {
            &&& is_well_targeted(log)
            &&& run::<S, T, E>(entries, initial) matches Run::Stuck { position, state }
            &&& entries[position].id == id
            &&& entries[position].kind matches LogEntryKind::Apply(transition)
            &&& transition.fails_with(state, err)
        },
        Err(StateMachineError::UnknownTarget(id)) => is_unknown_target(log, id),
    }
}

/// Whether `state` is a value that `S::default()` may return.
pub open spec fn is_default<S: Default>(state: S) -> bool {
    call_ensures(S::default, (), state)
}

/// Whether `S::default()` returns the same value every time.
pub open spec fn default_is_unique<S: Default>() -> bool {
    forall|a: S, b: S| is_default(a) && is_default(b) ==> a == b
}

/// Whether `outcome` is what replaying `log` from a fresh `S::default()` gives. A log with an
/// unknown target is rejected whatever `S::default()` is.
pub open spec fn replays<S: Default, T: Transition<S, E>, E>(
    log: Seq<LogEntry<T>>,
    outcome: Result<S, StateMachineError<E>>,
) -> bool {
    match outcome {
        Err(StateMachineError::UnknownTarget(id)) => is_unknown_target(log, id),
        _ => exists|initial: S|
            #[trigger] is_default(initial) && replays_from::<S, T, E>(log, initial, outcome),
    }
}

} // verus!
