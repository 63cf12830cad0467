//! The state machine.

use std::collections::HashMap;
use std::marker::PhantomData;
use vstd::pervasive::unreached;
use vstd::prelude::*;

use crate::error::StateMachineError;
use crate::id::TransitionId;
use crate::laws::{law_appended_transition_acts_last, law_run_stops_at_first_failure};
use crate::log::{
    active_applies, active_applies_among, has_id, is_active, is_cancelled_from, is_unknown_target,
    is_well_targeted, LogEntry, LogEntryKind,
};
use crate::replay::{default_is_unique, is_default, replays, replays_from, run, step, Run};
use crate::transition::{Transition, TransitionError};

verus! {

/// A state together with the log that led to it.
///
/// The log is append-only. Undoing an entry is itself an entry, which targets the identifier of what
/// it undoes; so an undo can be undone too, which redoes the original.
pub struct StateMachine<S, T, E = TransitionError> {
    log: Vec<LogEntry<T>>,
    current: S,
    errors: PhantomData<E>,
}

impl<S, T, E> StateMachine<S, T, E> {
    /// The entries of the log, oldest first.
    pub closed spec fn entries(&self) -> Seq<LogEntry<T>> {
        self.log@
    }

    /// The current state.
    pub closed spec fn state(&self) -> S {
        self.current
    }

    /// The current state.
    pub fn current(&self) -> (state: &S)
        ensures
            *state == self.state(),
    {
        &self.current
    }

    /// Every entry ever accepted, oldest first.
    pub fn log(&self) -> (log: &[LogEntry<T>])
        ensures
            log@ == self.entries(),
    {
        self.log.as_slice()
    }

    /// Whether an entry of the log is recorded under `id`.
    fn contains_id(&self, id: TransitionId) -> (found: bool)
        ensures
            found == has_id(self.entries(), id),
    {
        let mut i: usize = 0;
        while i < self.log.len()
            invariant
                i <= self.log.len(),
                forall|j: int| 0 <= j < i ==> (#[trigger] self.log@[j]).id != id,
            decreases self.log.len() - i,
        {
            if self.log[i].id == id {
                return true;
            }
            i = i + 1;
        }
        false
    }
}

impl<S: Default, T, E> StateMachine<S, T, E> {
    /// A state machine with an empty log.
    pub fn new() -> (machine: Self)
        ensures
            machine.entries() == Seq::<LogEntry<T>>::empty(),
            is_default(machine.state()),
    {
        StateMachine { log: Vec::new(), current: S::default(), errors: PhantomData }
    }
}

impl<S: Default, T, E> Default for StateMachine<S, T, E> {
    /// A state machine with an empty log.
    fn default() -> (machine: Self)
        ensures
            machine.entries() == Seq::<LogEntry<T>>::empty(),
            is_default(machine.state()),
    {
        Self::new()
    }
}

impl<S: Default, T: Transition<S, E>, E> StateMachine<S, T, E> {
    /// The invariant of a state machine: its state is what replaying its log gives.
    pub open spec fn wf(&self) -> bool {
        replays::<S, T, E>(self.entries(), Ok(self.state()))
    }

    /// The state machine that a previously recorded log leads to, or the error that replaying the
    /// log gives.
    pub fn build(log: Vec<LogEntry<T>>) -> (result: Result<Self, StateMachineError<E>>)
        ensures
            is_built(log@, result),
    {
        match Self::replay(log.as_slice()) {
            Ok(current) => Ok(StateMachine { log, current, errors: PhantomData }),
            Err(err) => Err(err),
        }
    }

    /// Applies the `entry` and appends it to the log. In case of an error the state machine will be
    /// unmodified (i.e. its log as well as its state will be as before this call).
    ///
    /// Getting back the state that a failing [`Transition::apply`] has spoiled takes a replay of the
    /// log. It must succeed, and it gives the very same state if `S::default()` always does.
    pub fn apply(&mut self, entry: LogEntry<T>) -> (result: Result<(), StateMachineError<E>>)
        requires
            old(self).wf(),
            spoils_state::<S, T, E>(entry, old(self).state()) ==> always_replays::<S, T, E>(
                old(self).entries(),
            ),
        ensures
            final(self).wf(),
            is_applied(*old(self), entry, result, *final(self)),
    {
        match &entry.kind {
            LogEntryKind::Apply(transition) => match transition.check_applicable(&self.current) {
                Ok(()) => match transition.apply(&mut self.current) {
                    Ok(()) => {
                        proof {
                            let initial = choose|initial: S|
                                #[trigger] is_default(initial) && replays_from::<S, T, E>(
                                    old(self).log@,
                                    initial,
                                    Ok(old(self).current),
                                );
                            law_appended_transition_acts_last::<S, T, E>(
                                old(self).log@,
                                initial,
                                old(self).current,
                                entry,
                                *transition,
                                Ok(self.current),
                            );
                        }
                        self.log.push(entry);
                        Ok(())
                    },
                    Err(err) => {
                        // The log is what it was before this call, and it replayed cleanly to the
                        // state that is lost now, so it replays again.
                        match Self::replay(self.log.as_slice()) {
                            Ok(state) => {
                                self.current = state;
                            },
                            Err(_) => {
                                unreached::<()>();
                            },
                        }
                        Err(StateMachineError::Transition(entry.id, err))
                    },
                },
                Err(err) => Err(StateMachineError::Transition(entry.id, err)),
            },
            LogEntryKind::Undo(target) => {
                if !self.contains_id(*target) {
                    return Err(StateMachineError::UnknownTarget(*target));
                }
                self.log.push(entry);
                match Self::replay(self.log.as_slice()) {
                    Ok(state) => {
                        self.current = state;
                        Ok(())
                    },
                    Err(err) => {
                        self.log.pop();
                        assert(self.log@ == old(self).log@);
                        Err(err)
                    },
                }
            },
        }
    }

    /// Replays every active log entry, in log order, onto a fresh `S::default()`.
    ///
    /// If the log contains undos then this is more efficient than applying all entries one by one
    /// with [`Self::apply`] since undone entries never get applied in the first place. Note,
    /// however, that this changes the semantics in case an undone entry would error: applied one by
    /// one, it would error before its undo is reached, while the replay ignores it altogether.
    fn replay(entries: &[LogEntry<T>]) -> (result: Result<S, StateMachineError<E>>)
        ensures
            replays::<S, T, E>(entries@, result),
    {
        broadcast use vstd::std_specs::hash::group_hash_axioms;

        let ghost log = entries@;
        // The keys are the undone identifiers, the values whether an entry under them was found
        // further to the front.
        let mut cancelled: HashMap<u128, bool> = HashMap::new();
        // The entries in effect, latest first.
        let mut active: Vec<&LogEntry<T>> = Vec::with_capacity(entries.len());
        let mut n: usize = entries.len();
        while n > 0
            invariant
                n <= entries.len(),
                log == entries@,
                is_scanned(log, n as int, cancelled@),
                active_applies(log) == active_applies_among(log, n as int) + backwards(active@),
            decreases n,
        {
            broadcast use vstd::std_specs::hash::group_hash_axioms;

            let entry = &entries[n - 1];
            if cancelled.contains_key(&entry.id.0) {
                proof {
                    lemma_scan_cancelled(log, n as int, cancelled@);
                }
                cancelled.insert(entry.id.0, true);
            } else {
                match &entry.kind {
                    LogEntryKind::Apply(_) => {
                        proof {
                            lemma_scan_apply(log, n as int, cancelled@);
                        }
                        let ghost later = active@;
                        active.push(entry);
                        assert(active_applies_among(log, n - 1).push(*entry) + backwards(later)
                            == active_applies_among(log, n - 1) + backwards(active@));
                    },
                    LogEntryKind::Undo(target) => {
                        proof {
                            lemma_scan_undo(log, n as int, cancelled@, *target);
                        }
                        cancelled.insert(target.0, false);
                    },
                }
            }
            n = n - 1;
        }

        for (id, found) in it: cancelled.iter()
            invariant
                log == entries@,
                is_scanned(log, 0, cancelled@),
                forall|i: int| 0 <= i < it.index() ==> *(#[trigger] it.seq()[i]).1,
        {
            if !*found {
                proof {
                    assert(it.seq()[it.index()] == (id, found));
                    assert(cancelled@.contains_key(*it.seq()[it.index()].0));
                    assert(cancelled@.contains_key(TransitionId(*id).0));
                    lemma_dangling_is_unknown_target(log, TransitionId(*id));
                }
                return Err(StateMachineError::UnknownTarget(TransitionId(*id)));
            }
        }

        assert(active_applies(log) == backwards(active@));
        assert forall|id: TransitionId| !is_unknown_target(log, id) by {
            lemma_dangling_is_unknown_target(log, id);
            if is_dangling_from(log, 0, id) {
                assert(is_cancelled_from(log, 0, id));
                assert(cancelled@.contains_key(id.0));
                assert(false);
            }
        }

        let mut state = S::default();
        let ghost initial = state;
        let mut left: usize = active.len();
        while left > 0
            invariant
                left <= active.len(),
                log == entries@,
                is_well_targeted(log),
                is_default(initial),
                active_applies(log) == backwards(active@),
                run::<S, T, E>(active_applies(log).take(active.len() - left), initial)
                    == Run::Finished(state),
            decreases left,
        {
            let entry: &LogEntry<T> = active[left - 1];
            let ghost done = active_applies(log).take(active.len() - left);
            let ghost todo = active_applies(log).take(active.len() - left + 1);
            assert(todo.drop_last() == done);
            if let LogEntryKind::Apply(transition) = &entry.kind {
                proof {
                    if step::<S, T, E>(*transition, state) is None {
                        law_run_stops_at_first_failure::<S, T, E>(
                            active_applies(log),
                            active.len() - left + 1,
                            initial,
                        );
                    }
                }
                if let Err(err) = transition.check_applicable(&state) {
                    let result = Err(StateMachineError::Transition(entry.id, err));
                    assert(replays_from::<S, T, E>(log, initial, result));
                    return result;
                }
                if let Err(err) = transition.apply(&mut state) {
                    let result = Err(StateMachineError::Transition(entry.id, err));
                    assert(replays_from::<S, T, E>(log, initial, result));
                    return result;
                }
            }
            left = left - 1;
        }
        assert(active_applies(log).take(active.len() as int) == active_applies(log));
        assert(replays_from::<S, T, E>(log, initial, Ok(state)));
        Ok(state)
    }
}

/// Whether `result` is what building a state machine from `log` gives: one that holds this very log
/// and the state that replaying it gives, or the error that replaying it gives.
pub open spec fn is_built<S: Default, T: Transition<S, E>, E>(
    log: Seq<LogEntry<T>>,
    result: Result<StateMachine<S, T, E>, StateMachineError<E>>,
) -> bool {
    match result {
        Ok(machine) => machine.entries() == log && replays::<S, T, E>(log, Ok(machine.state())),
        Err(err) => replays::<S, T, E>(log, Err(err)),
    }
}

/// Whether applying `entry` to the state machine `before` may give `result` and turn it into `after`.
///
/// An accepted entry is appended to the log, a refused one changes nothing. An `Apply` entry takes
/// one step from the current state and is refused with its own identifier if its transition fails.
/// An `Undo` entry is refused if nothing is recorded under its target; otherwise it gives what
/// replaying the log with the entry appended gives.
pub open spec fn is_applied<S: Default, T: Transition<S, E>, E>(
    before: StateMachine<S, T, E>,
    entry: LogEntry<T>,
    result: Result<(), StateMachineError<E>>,
    after: StateMachine<S, T, E>,
) -> bool {
    &&& result is Ok ==> after.entries() == before.entries().push(entry)
    &&& result is Err ==> after.entries() == before.entries()
    &&& result is Err && (default_is_unique::<S>() || !spoils_state::<S, T, E>(
        entry,
        before.state(),
    )) ==> after.state() == before.state()
    &&& match entry.kind {
        LogEntryKind::Apply(transition) => match result {
            Ok(()) => step::<S, T, E>(transition, before.state()) == Some(after.state()),
            Err(StateMachineError::Transition(id, err)) => {
                &&& step::<S, T, E>(transition, before.state()) is None
                &&& id == entry.id
                &&& transition.fails_with(before.state(), err)
            },
            Err(StateMachineError::UnknownTarget(_)) => false,
        },
        LogEntryKind::Undo(target) => if has_id(before.entries(), target) {
            match result {
                Ok(()) => replays::<S, T, E>(before.entries().push(entry), Ok(after.state())),
                Err(err) => replays::<S, T, E>(before.entries().push(entry), Err(err)),
            }
        } else {
            result == Err::<(), StateMachineError<E>>(StateMachineError::UnknownTarget(target))
        },
    }
}

/// Whether `entry` applies a transition that passes its pre-check on `state` and then fails, which
/// leaves a state that must not be used.
pub open spec fn spoils_state<S, T: Transition<S, E>, E>(entry: LogEntry<T>, state: S) -> bool {
    entry.kind matches LogEntryKind::Apply(transition) && transition.applicable(state)
        && transition.applied(state) is None
}

/// Whether the transitions in effect all succeed whichever state `S::default()` returns.
pub open spec fn always_replays<S: Default, T: Transition<S, E>, E>(log: Seq<LogEntry<T>>) -> bool {
    forall|initial: S| #[trigger]
        is_default(initial) ==> run::<S, T, E>(active_applies(log), initial) is Finished
}

/// The given entries, the last one first.
spec fn backwards<T>(entries: Seq<&LogEntry<T>>) -> Seq<LogEntry<T>> {
    Seq::new(entries.len(), |i: int| *entries[entries.len() - 1 - i])
}

/// Whether some active entry at position `n` or later undoes `id` and no entry from position `n` up
/// to that one is recorded under `id`.
spec fn is_dangling_from<T>(log: Seq<LogEntry<T>>, n: int, id: TransitionId) -> bool {
    exists|j: int|
        n <= j < log.len() && #[trigger] log[j].undoes(id) && is_active(log, j) && forall|k: int|
            n <= k < j ==> (#[trigger] log[k]).id != id
}

/// What is known of the log after looking at the entries from position `n` on: `cancelled` holds
/// the identifiers that active entries undo, each with whether an entry that it targets was found.
spec fn is_scanned<T>(log: Seq<LogEntry<T>>, n: int, cancelled: Map<u128, bool>) -> bool {
    forall|id: TransitionId|
        #![trigger cancelled.contains_key(id.0)]
        {
            &&& cancelled.contains_key(id.0) <==> is_cancelled_from(log, n, id)
            &&& cancelled.contains_key(id.0) ==> cancelled[id.0] == !is_dangling_from(log, n, id)
        }
}

proof fn lemma_dangling_is_unknown_target<T>(log: Seq<LogEntry<T>>, id: TransitionId)
    ensures
        is_dangling_from(log, 0, id) <==> is_unknown_target(log, id),
{
    assert forall|j: int| 0 <= j < log.len() implies has_id(log.take(j), id) == !(forall|k: int|
        0 <= k < j ==> (#[trigger] log[k]).id != id) by {
        assert(forall|k: int| 0 <= k < j ==> #[trigger] log[k] == log.take(j)[k]);
    }
}

proof fn lemma_scan_cancelled<T>(log: Seq<LogEntry<T>>, n: int, cancelled: Map<u128, bool>)
    requires
        0 < n <= log.len(),
        is_scanned(log, n, cancelled),
        cancelled.contains_key(log[n - 1].id.0),
    ensures
        !is_active(log, n - 1),
        is_scanned(log, n - 1, cancelled.insert(log[n - 1].id.0, true)),
{
}

proof fn lemma_scan_apply<T>(log: Seq<LogEntry<T>>, n: int, cancelled: Map<u128, bool>)
    requires
        0 < n <= log.len(),
        is_scanned(log, n, cancelled),
        !cancelled.contains_key(log[n - 1].id.0),
        log[n - 1].kind is Apply,
    ensures
        is_active(log, n - 1),
        is_scanned(log, n - 1, cancelled),
{
}

proof fn lemma_scan_undo<T>(
    log: Seq<LogEntry<T>>,
    n: int,
    cancelled: Map<u128, bool>,
    target: TransitionId,
)
    requires
        0 < n <= log.len(),
        is_scanned(log, n, cancelled),
        !cancelled.contains_key(log[n - 1].id.0),
        log[n - 1].undoes(target),
    ensures
        is_scanned(log, n - 1, cancelled.insert(target.0, false)),
{
}

} // verus!
