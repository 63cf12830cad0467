//! A state machine whose transitions are applied through an append-only log and can be selectively
//! undone, and redone, by the identifier of a specific past transition.

pub mod error;
pub mod guarantees;
pub mod id;
pub mod laws;
pub mod log;
pub mod machine;
pub mod replay;
pub mod transition;

pub use error::StateMachineError;
pub use id::TransitionId;
pub use log::{LogEntry, LogEntryKind};
pub use machine::StateMachine;
pub use transition::{Transition, TransitionError};
