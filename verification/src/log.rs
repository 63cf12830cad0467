//! The log and which of its entries are in effect.

use vstd::prelude::*;

use crate::id::TransitionId;

verus! {

/// One entry of the log, under the identifier that later undos address it by.
pub struct LogEntry<T> {
    pub id: TransitionId,
    pub kind: LogEntryKind<T>,
}

/// What an entry does.
pub enum LogEntryKind<T> {
    /// Applies a transition.
    Apply(T),
    /// Undoes the earlier entries recorded under the given identifier.
    Undo(TransitionId),
}

impl<T> LogEntry<T> {
    /// The entry of the given kind under the given identifier.
    pub fn new(id: TransitionId, kind: LogEntryKind<T>) -> (entry: Self)
        ensures
            entry.id == id,
            entry.kind == kind,
    {
        LogEntry { id, kind }
    }

    /// Whether the entry undoes what is recorded under `id`.
    pub open spec fn undoes(self, id: TransitionId) -> bool {
        self.kind == LogEntryKind::<T>::Undo(id)
    }
}

/// Whether some entry of `log` is recorded under `id`.
pub open spec fn has_id<T>(log: Seq<LogEntry<T>>, id: TransitionId) -> bool {
    exists|i: int| 0 <= i < log.len() && (#[trigger] log[i]).id == id
}

/// Whether the entry at position `i` is active: no later entry that is active itself undoes it.
pub open spec fn is_active<T>(log: Seq<LogEntry<T>>, i: int) -> bool
    decreases log.len() - i,
{
    forall|j: int|
        i < j < log.len() && #[trigger] log[j].undoes(log[i].id) ==> !is_active(log, j)
}

/// Whether some active entry at position `n` or later undoes `id`.
pub open spec fn is_cancelled_from<T>(log: Seq<LogEntry<T>>, n: int, id: TransitionId) -> bool {
    exists|j: int| n <= j < log.len() && #[trigger] log[j].undoes(id) && is_active(log, j)
}

/// The active `Apply` entries among the first `n` entries of `log`, in log order.
pub open spec fn active_applies_among<T>(log: Seq<LogEntry<T>>, n: int) -> Seq<LogEntry<T>>
    decreases n,
{
    if n <= 0 {
        Seq::empty()
    } else {
        let before = active_applies_among(log, n - 1);
        if log[n - 1].kind is Apply && is_active(log, n - 1) {
            before.push(log[n - 1])
        } else {
            before
        }
    }
}

/// The active `Apply` entries of `log`, in log order: the entries whose transitions are in effect.
pub open spec fn active_applies<T>(log: Seq<LogEntry<T>>) -> Seq<LogEntry<T>> {
    active_applies_among(log, log.len() as int)
}

/// Whether some active entry of `log` undoes `id` although no earlier entry is recorded under it.
pub open spec fn is_unknown_target<T>(log: Seq<LogEntry<T>>, id: TransitionId) -> bool {
    exists|i: int|
        0 <= i < log.len() && #[trigger] log[i].undoes(id) && is_active(log, i) && !has_id(
            log.take(i),
            id,
        )
}

/// Whether every active undo of `log` comes after an entry that it targets.
pub open spec fn is_well_targeted<T>(log: Seq<LogEntry<T>>) -> bool {
    forall|id: TransitionId| !is_unknown_target(log, id)
}

} // verus!
