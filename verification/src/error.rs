//! The errors of a state machine.

use vstd::prelude::*;

use crate::id::TransitionId;
use crate::transition::TransitionError;

verus! {

/// Why a log could not be replayed or an entry was not accepted.
#[derive(Debug)]
pub enum StateMachineError<E = TransitionError> {
    /// A transition returned an error and the state machine is unaffected by the call. The
    /// identifier is that of the transition that actually failed: for an `Apply` that's the entry
    /// itself; for an `Undo`, it can instead be a *different*, earlier entry that no longer applies
    /// cleanly once the undone entry is left out of the replay.
    Transition(TransitionId, E),
    /// An `Undo` targeted an identifier not present anywhere earlier in the log. Not a valid
    /// ordering: a caller merging logs from multiple sources must ensure every `Undo` comes after
    /// the entry it targets.
    UnknownTarget(TransitionId),
}

} // verus!
