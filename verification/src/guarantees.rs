//! What every call gives, in terms of the log, the transitions and the states alone.
//!
//! The statements speak of the calls themselves: `call_ensures(f, args, result)` says that calling
//! `f` with `args` may return `result`. Of an entry they read its identifier and its kind, and of a
//! transition what its model says. Where a statement depends on which entries are active, it takes
//! `active`, one flag for each entry, of which it asks the one thing that defines activity: an entry
//! is active exactly if no later active entry undoes it. Where it depends on the states in between,
//! `states[i]` is the state before the entry at position `i`.

use vstd::prelude::*;

use crate::error::StateMachineError;
use crate::id::{
    law_draw_is_what_the_generator_returned, law_identifier_is_its_value, law_value_is_kept_whole,
    random_uuid_bits, TransitionId,
};
use crate::laws::{
    law_rebuilding_restores_the_machine, law_undo_leaves_out_its_target,
    law_undo_restores_the_state, without,
};
use crate::log::{
    active_applies, active_applies_among, has_id, is_active, is_unknown_target, is_well_targeted,
    LogEntry, LogEntryKind,
};
use crate::machine::{always_replays, StateMachine};
use crate::replay::{default_is_unique, is_default, replays_from, run, step, Run};
use crate::transition::Transition;

verus! {

/// Whether `active` tells which entries of `log` are active.
spec fn is_activity<T>(log: Seq<LogEntry<T>>, active: Seq<bool>) -> bool {
    &&& active.len() == log.len()
    &&& forall|i: int|
        0 <= i < log.len() ==> (#[trigger] active[i] <==> forall|j: int|
            i < j < log.len() && (#[trigger] log[j]).kind == LogEntryKind::<T>::Undo(log[i].id)
                ==> !active[j])
}

proof fn lemma_activity<T>(log: Seq<LogEntry<T>>, active: Seq<bool>, i: int)
    requires
        is_activity(log, active),
        0 <= i < log.len(),
    ensures
        active[i] == is_active(log, i),
    decreases log.len() - i,
{
    assert forall|j: int| i < j < log.len() implies #[trigger] active[j] == is_active(log, j) by {
        lemma_activity(log, active, j);
    }
    if active[i] {
        assert forall|j: int| i < j < log.len() && #[trigger] log[j].undoes(log[i].id) implies
            !is_active(log, j) by {
            assert(!active[j]);
        }
    } else {
        let j = choose|j: int|
            i < j < log.len() && (#[trigger] log[j]).kind == LogEntryKind::<T>::Undo(log[i].id)
                && active[j];
        assert(log[j].undoes(log[i].id));
        assert(is_active(log, j));
    }
}

/// No log has two different activities.
pub proof fn law_activity_is_unique<T>(log: Seq<LogEntry<T>>, a: Seq<bool>, b: Seq<bool>)
    requires
        a.len() == log.len(),
        b.len() == log.len(),
        forall|i: int|
            0 <= i < log.len() ==> (#[trigger] a[i] <==> forall|j: int|
                i < j < log.len() && (#[trigger] log[j]).kind == LogEntryKind::<T>::Undo(log[i].id)
                    ==> !a[j]),
        forall|i: int|
            0 <= i < log.len() ==> (#[trigger] b[i] <==> forall|j: int|
                i < j < log.len() && (#[trigger] log[j]).kind == LogEntryKind::<T>::Undo(log[i].id)
                    ==> !b[j]),
    ensures
        a == b,
{
    assert(is_activity(log, a) && is_activity(log, b));
    assert forall|i: int| 0 <= i < log.len() implies a[i] == b[i] by {
        lemma_activity(log, a, i);
        lemma_activity(log, b, i);
    }
}

/// Every log has an activity.
pub proof fn law_activity_exists<T>(log: Seq<LogEntry<T>>)
    ensures
        exists|active: Seq<bool>| #[trigger] active.len() == log.len() && forall|i: int|
            0 <= i < log.len() ==> (#[trigger] active[i] <==> forall|j: int|
                i < j < log.len() && (#[trigger] log[j]).kind == LogEntryKind::<T>::Undo(log[i].id)
                    ==> !active[j]),
{
    let active = Seq::new(log.len(), |i: int| is_active(log, i));
    assert forall|i: int| 0 <= i < log.len() implies (#[trigger] active[i] <==> forall|j: int|
        i < j < log.len() && (#[trigger] log[j]).kind == LogEntryKind::<T>::Undo(log[i].id)
            ==> !active[j]) by {
        assert(forall|j: int|
            log[j].undoes(log[i].id) <==> (#[trigger] log[j]).kind == LogEntryKind::<T>::Undo(
                log[i].id,
            ));
        if !is_active(log, i) {
            let j = choose|j: int|
                i < j < log.len() && #[trigger] log[j].undoes(log[i].id) && is_active(log, j);
            assert(log[j].kind == LogEntryKind::<T>::Undo(log[i].id) && active[j]);
        }
    }
    assert(active.len() == log.len());
}

/// The state that the transitions in effect among the first `n` entries lead to, or the one on which
/// the first that fails does so.
spec fn reached<S, T: Transition<S, E>, E>(log: Seq<LogEntry<T>>, initial: S, n: int) -> S {
    match run::<S, T, E>(active_applies_among(log, n), initial) {
        Run::Finished(state) => state,
        Run::Stuck { position, state } => state,
    }
}

/// What the entry at position `n` adds to a run.
proof fn lemma_run_step<S, T: Transition<S, E>, E>(log: Seq<LogEntry<T>>, initial: S, n: int)
    requires
        0 <= n < log.len(),
    ensures
        run::<S, T, E>(active_applies_among(log, n), initial) is Stuck ==> run::<S, T, E>(
            active_applies_among(log, n + 1),
            initial,
        ) == run::<S, T, E>(active_applies_among(log, n), initial),
        run::<S, T, E>(active_applies_among(log, n), initial) matches Run::Finished(state) ==> (
        match log[n].kind {
            LogEntryKind::Apply(transition) if is_active(log, n) => run::<S, T, E>(
                active_applies_among(log, n + 1),
                initial,
            ) == (match step::<S, T, E>(transition, state) {
                Some(next) => Run::Finished(next),
                None => Run::Stuck {
                    position: active_applies_among(log, n).len() as int,
                    state,
                },
            }),
            _ => run::<S, T, E>(active_applies_among(log, n + 1), initial) == Run::Finished(state),
        }),
{
    let before = active_applies_among(log, n);
    assert(before.push(log[n]).drop_last() == before);
}

proof fn lemma_finished_before<S, T: Transition<S, E>, E>(
    log: Seq<LogEntry<T>>,
    initial: S,
    i: int,
    n: int,
)
    requires
        0 <= i <= n <= log.len(),
        run::<S, T, E>(active_applies_among(log, n), initial) is Finished,
    ensures
        run::<S, T, E>(active_applies_among(log, i), initial) is Finished,
    decreases n - i,
{
    if i < n {
        lemma_run_step::<S, T, E>(log, initial, n - 1);
        lemma_finished_before::<S, T, E>(log, initial, i, n - 1);
    }
}

/// The states before, between and after the first `n` entries when all transitions in effect among
/// them succeed.
proof fn lemma_states<S, T: Transition<S, E>, E>(
    log: Seq<LogEntry<T>>,
    active: Seq<bool>,
    initial: S,
    n: int,
) -> (states: Seq<S>)
    requires
        is_activity(log, active),
        0 <= n <= log.len(),
        run::<S, T, E>(active_applies_among(log, n), initial) is Finished,
    ensures
        states.len() == n + 1,
        states[0] == initial,
        run::<S, T, E>(active_applies_among(log, n), initial) == Run::Finished(states[n]),
        forall|i: int|
            0 <= i < n ==> (match log[i].kind {
                LogEntryKind::Apply(transition) if active[i] => transition.applicable(
                    #[trigger] states[i],
                ) && transition.applied(states[i]) == Some(states[i + 1]),
                _ => states[i + 1] == states[i],
            }),
{
    let states = Seq::new((n + 1) as nat, |i: int| reached::<S, T, E>(log, initial, i));
    assert(active_applies_among(log, 0) == Seq::<LogEntry<T>>::empty());
    assert forall|i: int| 0 <= i < n implies (match log[i].kind {
        LogEntryKind::Apply(transition) if active[i] => transition.applicable(#[trigger] states[i])
            && transition.applied(states[i]) == Some(states[i + 1]),
        _ => states[i + 1] == states[i],
    }) by {
        lemma_activity(log, active, i);
        lemma_finished_before::<S, T, E>(log, initial, i, n);
        lemma_finished_before::<S, T, E>(log, initial, i + 1, n);
        lemma_run_step::<S, T, E>(log, initial, i);
    }
    states
}

/// Whether `states` are the states before, between and after the entries of `log`.
spec fn is_trace<S, T: Transition<S, E>, E>(
    log: Seq<LogEntry<T>>,
    active: Seq<bool>,
    states: Seq<S>,
) -> bool {
    &&& states.len() == log.len() + 1
    &&& forall|i: int|
        0 <= i < log.len() ==> (match log[i].kind {
            LogEntryKind::Apply(transition) if active[i] => transition.applicable(
                #[trigger] states[i],
            ) && transition.applied(states[i]) == Some(states[i + 1]),
            _ => states[i + 1] == states[i],
        })
}

proof fn lemma_trace_is_run<S, T: Transition<S, E>, E>(
    log: Seq<LogEntry<T>>,
    active: Seq<bool>,
    states: Seq<S>,
    n: int,
)
    requires
        is_activity(log, active),
        is_trace::<S, T, E>(log, active, states),
        0 <= n <= log.len(),
    ensures
        run::<S, T, E>(active_applies_among(log, n), states[0]) == Run::Finished(states[n]),
    decreases n,
{
    if n > 0 {
        lemma_trace_is_run::<S, T, E>(log, active, states, n - 1);
        lemma_run_step::<S, T, E>(log, states[0], n - 1);
        lemma_activity(log, active, n - 1);
        assert(states[n - 1 + 1] == states[n]);
    }
}

/// The position in the log of the entry at which a run is stuck.
proof fn lemma_stuck<S, T: Transition<S, E>, E>(log: Seq<LogEntry<T>>, initial: S, n: int) -> (k: int)
    requires
        0 <= n <= log.len(),
        run::<S, T, E>(active_applies_among(log, n), initial) is Stuck,
    ensures
        0 <= k < n,
        is_active(log, k),
        run::<S, T, E>(active_applies_among(log, n), initial) matches Run::Stuck { position, state }
            && {
            &&& run::<S, T, E>(active_applies_among(log, k), initial) == Run::Finished(state)
            &&& 0 <= position < active_applies_among(log, n).len()
            &&& active_applies_among(log, n)[position] == log[k]
            &&& log[k].kind matches LogEntryKind::Apply(transition)
            &&& step::<S, T, E>(transition, state) is None
        },
    decreases n,
{
    if n == 0 {
        0
    } else {
        lemma_run_step::<S, T, E>(log, initial, n - 1);
        if run::<S, T, E>(active_applies_among(log, n - 1), initial) is Stuck {
            lemma_stuck::<S, T, E>(log, initial, n - 1)
        } else {
            n - 1
        }
    }
}

proof fn lemma_well_targeted<T>(log: Seq<LogEntry<T>>, active: Seq<bool>)
    requires
        is_activity(log, active),
    ensures
        is_well_targeted(log) <==> forall|i: int|
            0 <= i < log.len() && active[i] ==> ((#[trigger] log[i]).kind matches LogEntryKind::Undo(
                target,
            ) ==> exists|k: int| 0 <= k < i && (#[trigger] log[k]).id == target),
{
    assert forall|i: int, id: TransitionId| 0 <= i < log.len() implies #[trigger] has_id(
        log.take(i),
        id,
    ) == (exists|k: int| 0 <= k < i && (#[trigger] log[k]).id == id) by {
        if has_id(log.take(i), id) {
            let k = choose|k: int|
                0 <= k < log.take(i).len() && (#[trigger] log.take(i)[k]).id == id;
            assert(log[k].id == id);
        }
        if exists|k: int| 0 <= k < i && (#[trigger] log[k]).id == id {
            let k = choose|k: int| 0 <= k < i && (#[trigger] log[k]).id == id;
            assert(log.take(i)[k].id == id);
        }
    }
    if is_well_targeted(log) {
        assert forall|i: int| 0 <= i < log.len() && active[i] implies ((
        #[trigger] log[i]).kind matches LogEntryKind::Undo(target) ==> exists|k: int|
            0 <= k < i && (#[trigger] log[k]).id == target) by {
            lemma_activity(log, active, i);
            if let LogEntryKind::Undo(target) = log[i].kind {
                assert(log[i].undoes(target));
                assert(!is_unknown_target(log, target));
                assert(has_id(log.take(i), target));
            }
        }
    }
    if forall|i: int|
        0 <= i < log.len() && active[i] ==> ((#[trigger] log[i]).kind matches LogEntryKind::Undo(
            target,
        ) ==> exists|k: int| 0 <= k < i && (#[trigger] log[k]).id == target) {
        assert forall|id: TransitionId| !is_unknown_target(log, id) by {
            if is_unknown_target(log, id) {
                let i = choose|i: int|
                    0 <= i < log.len() && #[trigger] log[i].undoes(id) && is_active(log, i)
                        && !has_id(log.take(i), id);
                lemma_activity(log, active, i);
                assert(log[i].kind == LogEntryKind::<T>::Undo(id));
            }
        }
    }
}

proof fn lemma_unknown_target<T>(log: Seq<LogEntry<T>>, active: Seq<bool>, id: TransitionId) -> (i: int)
    requires
        is_activity(log, active),
        is_unknown_target(log, id),
    ensures
        0 <= i < log.len(),
        active[i],
        log[i].kind == LogEntryKind::<T>::Undo(id),
        forall|k: int| 0 <= k < i ==> (#[trigger] log[k]).id != id,
{
    let i = choose|i: int|
        0 <= i < log.len() && #[trigger] log[i].undoes(id) && is_active(log, i) && !has_id(
            log.take(i),
            id,
        );
    lemma_activity(log, active, i);
    assert forall|k: int| 0 <= k < i implies (#[trigger] log[k]).id != id by {
        assert(log.take(i)[k] == log[k]);
    }
    i
}

/// What building a state machine from a log gives.
///
/// It gives one that holds this very log only if every active undo comes after an entry that it
/// targets and every active transition, in log order and starting in a default state, succeeds; the
/// state is then the one that the last of them leaves. A transition is blamed only if it is active,
/// all active ones before it succeed and it fails on the state that they leave, with that error. An
/// unknown target is reported only if an active undo targets it and no earlier entry is recorded
/// under it.
pub proof fn law_build<S: Default, T: Transition<S, E>, E>(
    log: Vec<LogEntry<T>>,
    result: Result<StateMachine<S, T, E>, StateMachineError<E>>,
    active: Seq<bool>,
)
    requires
        call_ensures(StateMachine::<S, T, E>::build, (log,), result),
        active.len() == log@.len(),
        forall|i: int|
            0 <= i < log@.len() ==> (#[trigger] active[i] <==> forall|j: int|
                i < j < log@.len() && (#[trigger] log@[j]).kind == LogEntryKind::<T>::Undo(
                    log@[i].id,
                ) ==> !active[j]),
    ensures
        match result {
            Ok(machine) => {
                &&& machine.entries() == log@
                &&& forall|i: int|
                    0 <= i < log@.len() && active[i] ==> ((
                    #[trigger] log@[i]).kind matches LogEntryKind::Undo(target) ==> exists|k: int|
                        0 <= k < i && (#[trigger] log@[k]).id == target)
                &&& exists|states: Seq<S>|
                    {
                        &&& #[trigger] states.len() == log@.len() + 1
                        &&& call_ensures(S::default, (), states[0])
                        &&& machine.state() == states[log@.len() as int]
                        &&& forall|i: int|
                            0 <= i < log@.len() ==> (match log@[i].kind {
                                LogEntryKind::Apply(transition) if active[i] => {
                                    &&& transition.applicable(#[trigger] states[i])
                                    &&& transition.applied(states[i]) == Some(states[i + 1])
                                },
                                _ => states[i + 1] == states[i],
                            })
                    }
            },
            Err(StateMachineError::Transition(id, err)) => {
                &&& forall|i: int|
                    0 <= i < log@.len() && active[i] ==> ((
                    #[trigger] log@[i]).kind matches LogEntryKind::Undo(target) ==> exists|k: int|
                        0 <= k < i && (#[trigger] log@[k]).id == target)
                &&& exists|states: Seq<S>|
                    {
                        let failed = states.len() - 1;
                        &&& 1 <= #[trigger] states.len() <= log@.len()
                        &&& call_ensures(S::default, (), states[0])
                        &&& forall|i: int|
                            0 <= i < failed ==> (match log@[i].kind {
                                LogEntryKind::Apply(transition) if active[i] => {
                                    &&& transition.applicable(#[trigger] states[i])
                                    &&& transition.applied(states[i]) == Some(states[i + 1])
                                },
                                _ => states[i + 1] == states[i],
                            })
                        &&& active[failed]
                        &&& log@[failed].id == id
                        &&& log@[failed].kind matches LogEntryKind::Apply(transition)
                        &&& !transition.applicable(states[failed]) || transition.applied(
                            states[failed],
                        ) is None
                        &&& transition.fails_with(states[failed], err)
                    }
            },
            Err(StateMachineError::UnknownTarget(id)) => exists|i: int|
                0 <= i < log@.len() && active[i] && (#[trigger] log@[i]).kind == LogEntryKind::<
                    T,
                >::Undo(id) && forall|k: int| 0 <= k < i ==> (#[trigger] log@[k]).id != id,
        },
{
    let entries = log@;
    assert(is_activity(entries, active));
    lemma_well_targeted(entries, active);
    match result {
        Ok(machine) => {
            let initial = choose|initial: S| #[trigger]
                is_default(initial) && replays_from::<S, T, E>(
                    entries,
                    initial,
                    Ok(machine.state()),
                );
            let states = lemma_states::<S, T, E>(entries, active, initial, entries.len() as int);
            assert(states.len() == entries.len() + 1);
        },
        Err(StateMachineError::Transition(id, err)) => {
            let initial = choose|initial: S| #[trigger]
                is_default(initial) && replays_from::<S, T, E>(
                    entries,
                    initial,
                    Err(StateMachineError::Transition(id, err)),
                );
            let k = lemma_stuck::<S, T, E>(entries, initial, entries.len() as int);
            let states = lemma_states::<S, T, E>(entries, active, initial, k);
            lemma_activity(entries, active, k);
            assert(1 <= states.len() <= entries.len());
        },
        Err(StateMachineError::UnknownTarget(id)) => {
            let i = lemma_unknown_target(entries, active, id);
            assert(entries[i].kind == LogEntryKind::<T>::Undo(id));
        },
    }
}

/// What applying an entry that holds a transition gives.
///
/// It is accepted if and only if the transition passes its pre-check on the current state and then
/// succeeds; it is then appended to the log, and the state is the one that the transition leaves.
/// Otherwise the entry itself is blamed, with an error of its transition, and nothing changes; only
/// where the transition has spoiled the state does this rest on `S::default()` being always the same.
pub proof fn law_apply_of_a_transition<S: Default, T: Transition<S, E>, E>(
    before: StateMachine<S, T, E>,
    entry: LogEntry<T>,
    transition: T,
    result: Result<(), StateMachineError<E>>,
    after: StateMachine<S, T, E>,
)
    requires
        exists|machine: &mut StateMachine<S, T, E>|
            *machine == before && *final(machine) == after && #[trigger] call_ensures(
                StateMachine::<S, T, E>::apply,
                (machine, entry),
                result,
            ),
        entry.kind == LogEntryKind::Apply(transition),
    ensures
        result is Ok <==> transition.applicable(before.state()) && transition.applied(
            before.state(),
        ) is Some,
        match result {
            Ok(()) => {
                &&& after.entries() == before.entries().push(entry)
                &&& transition.applied(before.state()) == Some(after.state())
            },
            Err(StateMachineError::Transition(id, err)) => {
                &&& id == entry.id
                &&& transition.fails_with(before.state(), err)
                &&& after.entries() == before.entries()
                &&& !transition.applicable(before.state()) || (forall|a: S, b: S| #[trigger]
                    call_ensures(S::default, (), a) && #[trigger] call_ensures(S::default, (), b) ==> a == b)
                    ==> after.state() == before.state()
            },
            Err(StateMachineError::UnknownTarget(_)) => false,
        },
{
    if forall|a: S, b: S| #[trigger]
        call_ensures(S::default, (), a) && #[trigger] call_ensures(S::default, (), b) ==> a == b {
        assert(default_is_unique::<S>());
    }
}

/// What applying an undo gives.
///
/// If nothing is recorded under its target it is refused with that target. Otherwise all depends on
/// the log with the undo appended: the undo is accepted, and appended, only if every active undo
/// comes after an entry that it targets and every active transition, in log order and starting in a
/// default state, succeeds; the state is then the one that the last of them leaves. A transition is
/// blamed only if it is active, all active ones before it succeed and it fails on the state that they
/// leave, with that error. An unknown target is reported only if an active undo targets it and no
/// earlier entry is recorded under it. A refused undo changes nothing.
pub proof fn law_apply_of_an_undo<S: Default, T: Transition<S, E>, E>(
    before: StateMachine<S, T, E>,
    entry: LogEntry<T>,
    target: TransitionId,
    result: Result<(), StateMachineError<E>>,
    after: StateMachine<S, T, E>,
    log: Seq<LogEntry<T>>,
    active: Seq<bool>,
)
    requires
        exists|machine: &mut StateMachine<S, T, E>|
            *machine == before && *final(machine) == after && #[trigger] call_ensures(
                StateMachine::<S, T, E>::apply,
                (machine, entry),
                result,
            ),
        entry.kind == LogEntryKind::<T>::Undo(target),
        log == before.entries().push(entry),
        active.len() == log.len(),
        forall|i: int|
            0 <= i < log.len() ==> (#[trigger] active[i] <==> forall|j: int|
                i < j < log.len() && (#[trigger] log[j]).kind == LogEntryKind::<T>::Undo(
                    log[i].id,
                ) ==> !active[j]),
    ensures
        result is Ok ==> after.entries() == log,
        result is Err ==> after.entries() == before.entries() && after.state() == before.state(),
        (forall|k: int|
            0 <= k < before.entries().len() ==> (#[trigger] before.entries()[k]).id != target)
            ==> result == Err::<(), StateMachineError<E>>(StateMachineError::UnknownTarget(target)),
        match result {
            Ok(()) => {
                &&& forall|i: int|
                    0 <= i < log.len() && active[i] ==> ((
                    #[trigger] log[i]).kind matches LogEntryKind::Undo(target) ==> exists|k: int|
                        0 <= k < i && (#[trigger] log[k]).id == target)
                &&& exists|states: Seq<S>|
                    {
                        &&& #[trigger] states.len() == log.len() + 1
                        &&& call_ensures(S::default, (), states[0])
                        &&& after.state() == states[log.len() as int]
                        &&& forall|i: int|
                            0 <= i < log.len() ==> (match log[i].kind {
                                LogEntryKind::Apply(transition) if active[i] => {
                                    &&& transition.applicable(#[trigger] states[i])
                                    &&& transition.applied(states[i]) == Some(states[i + 1])
                                },
                                _ => states[i + 1] == states[i],
                            })
                    }
            },
            Err(StateMachineError::Transition(id, err)) => {
                &&& forall|i: int|
                    0 <= i < log.len() && active[i] ==> ((
                    #[trigger] log[i]).kind matches LogEntryKind::Undo(target) ==> exists|k: int|
                        0 <= k < i && (#[trigger] log[k]).id == target)
                &&& exists|states: Seq<S>|
                    {
                        let failed = states.len() - 1;
                        &&& 1 <= #[trigger] states.len() <= log.len()
                        &&& call_ensures(S::default, (), states[0])
                        &&& forall|i: int|
                            0 <= i < failed ==> (match log[i].kind {
                                LogEntryKind::Apply(transition) if active[i] => {
                                    &&& transition.applicable(#[trigger] states[i])
                                    &&& transition.applied(states[i]) == Some(states[i + 1])
                                },
                                _ => states[i + 1] == states[i],
                            })
                        &&& active[failed]
                        &&& log[failed].id == id
                        &&& log[failed].kind matches LogEntryKind::Apply(transition)
                        &&& !transition.applicable(states[failed]) || transition.applied(
                            states[failed],
                        ) is None
                        &&& transition.fails_with(states[failed], err)
                    }
            },
            Err(StateMachineError::UnknownTarget(id)) => exists|i: int|
                0 <= i < log.len() && active[i] && (#[trigger] log[i]).kind == LogEntryKind::<
                    T,
                >::Undo(id) && forall|k: int| 0 <= k < i ==> (#[trigger] log[k]).id != id,
        },
{
    let n = before.entries().len() as int;
    assert(is_activity(log, active));
    assert(entry.undoes(target));
    lemma_well_targeted(log, active);
    if !has_id(before.entries(), target) {
        assert(active[n]);
        assert(log[n] == entry);
        assert forall|k: int| 0 <= k < n implies (#[trigger] log[k]).id != target by {
            assert(log[k] == before.entries()[k]);
        }
    } else {
        match result {
            Ok(()) => {
                let initial = choose|initial: S| #[trigger]
                    is_default(initial) && replays_from::<S, T, E>(
                        log,
                        initial,
                        Ok(after.state()),
                    );
                let states = lemma_states::<S, T, E>(log, active, initial, log.len() as int);
                assert(states.len() == log.len() + 1);
            },
            Err(StateMachineError::Transition(id, err)) => {
                let initial = choose|initial: S| #[trigger]
                    is_default(initial) && replays_from::<S, T, E>(
                        log,
                        initial,
                        Err(StateMachineError::Transition(id, err)),
                    );
                let k = lemma_stuck::<S, T, E>(log, initial, log.len() as int);
                let states = lemma_states::<S, T, E>(log, active, initial, k);
                lemma_activity(log, active, k);
                assert(1 <= states.len() <= log.len());
            },
            Err(StateMachineError::UnknownTarget(id)) => {
                let i = lemma_unknown_target(log, active, id);
                assert(log[i].kind == LogEntryKind::<T>::Undo(id));
            },
        }
    }
}

/// What the invariant of a state machine says: every active undo of its log comes after an entry that
/// it targets, and its state is the one to which the active transitions of its log, in log order and
/// starting in a default state, lead.
pub proof fn law_invariant<S: Default, T: Transition<S, E>, E>(
    machine: StateMachine<S, T, E>,
    log: Seq<LogEntry<T>>,
    active: Seq<bool>,
)
    requires
        log == machine.entries(),
        active.len() == log.len(),
        forall|i: int|
            0 <= i < log.len() ==> (#[trigger] active[i] <==> forall|j: int|
                i < j < log.len() && (#[trigger] log[j]).kind == LogEntryKind::<T>::Undo(
                    log[i].id,
                ) ==> !active[j]),
    ensures
        machine.wf() <==> {
            &&& forall|i: int|
                0 <= i < log.len() && active[i] ==> ((
                #[trigger] log[i]).kind matches LogEntryKind::Undo(target) ==> exists|k: int|
                    0 <= k < i && (#[trigger] log[k]).id == target)
            &&& exists|states: Seq<S>|
                {
                    &&& #[trigger] states.len() == log.len() + 1
                    &&& call_ensures(S::default, (), states[0])
                    &&& machine.state() == states[log.len() as int]
                    &&& forall|i: int|
                        0 <= i < log.len() ==> (match log[i].kind {
                            LogEntryKind::Apply(transition) if active[i] => {
                                &&& transition.applicable(#[trigger] states[i])
                                &&& transition.applied(states[i]) == Some(states[i + 1])
                            },
                            _ => states[i + 1] == states[i],
                        })
                }
        },
{
    assert(is_activity(log, active));
    lemma_well_targeted(log, active);
    if machine.wf() {
        let initial = choose|initial: S| #[trigger]
            is_default(initial) && replays_from::<S, T, E>(log, initial, Ok(machine.state()));
        let states = lemma_states::<S, T, E>(log, active, initial, log.len() as int);
        assert(states.len() == log.len() + 1);
    }
    if is_well_targeted(log) && exists|states: Seq<S>|
        {
            &&& #[trigger] states.len() == log.len() + 1
            &&& call_ensures(S::default, (), states[0])
            &&& machine.state() == states[log.len() as int]
            &&& forall|i: int|
                0 <= i < log.len() ==> (match log[i].kind {
                    LogEntryKind::Apply(transition) if active[i] => {
                        &&& transition.applicable(#[trigger] states[i])
                        &&& transition.applied(states[i]) == Some(states[i + 1])
                    },
                    _ => states[i + 1] == states[i],
                })
        } {
        let states = choose|states: Seq<S>|
            {
                &&& #[trigger] states.len() == log.len() + 1
                &&& call_ensures(S::default, (), states[0])
                &&& machine.state() == states[log.len() as int]
                &&& forall|i: int|
                    0 <= i < log.len() ==> (match log[i].kind {
                        LogEntryKind::Apply(transition) if active[i] => {
                            &&& transition.applicable(#[trigger] states[i])
                            &&& transition.applied(states[i]) == Some(states[i + 1])
                        },
                        _ => states[i + 1] == states[i],
                    })
            };
        assert(is_trace::<S, T, E>(log, active, states));
        lemma_trace_is_run::<S, T, E>(log, active, states, log.len() as int);
        assert(is_default(states[0]));
    }
}

/// Whatever a call gives keeps the invariant: a new state machine, one that is built and one to which
/// an entry was applied, accepted or not.
pub proof fn law_invariant_is_kept<S: Default, T: Transition<S, E>, E>(
    fresh: StateMachine<S, T, E>,
    log: Vec<LogEntry<T>>,
    built: Result<StateMachine<S, T, E>, StateMachineError<E>>,
    before: StateMachine<S, T, E>,
    entry: LogEntry<T>,
    result: Result<(), StateMachineError<E>>,
    after: StateMachine<S, T, E>,
)
    ensures
        call_ensures(StateMachine::<S, T, E>::new, (), fresh) ==> fresh.wf(),
        call_ensures(<StateMachine<S, T, E> as Default>::default, (), fresh) ==> fresh.wf(),
        call_ensures(StateMachine::<S, T, E>::build, (log,), built) ==> (built matches Ok(machine)
            ==> machine.wf()),
        (exists|machine: &mut StateMachine<S, T, E>|
            *machine == before && *final(machine) == after && #[trigger] call_ensures(
                StateMachine::<S, T, E>::apply,
                (machine, entry),
                result,
            )) ==> after.wf(),
{
}

/// A state machine can always be made and read, and a log can always be built from. An entry can be
/// applied to every state machine that keeps the invariant, unless it spoils the state and
/// `S::default()` may return a state from which the active transitions of the log do not all succeed.
pub proof fn law_calls_are_allowed<S: Default, T: Transition<S, E>, E>(
    log: Vec<LogEntry<T>>,
    machine: &mut StateMachine<S, T, E>,
    entry: LogEntry<T>,
    active: Seq<bool>,
)
    requires
        active.len() == old(machine).entries().len(),
        forall|i: int|
            0 <= i < active.len() ==> (#[trigger] active[i] <==> forall|j: int|
                i < j < active.len() && (#[trigger] old(machine).entries()[j]).kind
                    == LogEntryKind::<T>::Undo(old(machine).entries()[i].id) ==> !active[j]),
    ensures
        call_requires(StateMachine::<S, T, E>::new, ()),
        call_requires(<StateMachine<S, T, E> as Default>::default, ()),
        call_requires(StateMachine::<S, T, E>::current, (&*old(machine),)),
        call_requires(StateMachine::<S, T, E>::log, (&*old(machine),)),
        call_requires(StateMachine::<S, T, E>::build, (log,)),
        call_requires(LogEntry::<T>::new, (entry.id, entry.kind)),
        call_requires(TransitionId::new, ()),
        call_requires(<TransitionId as Default>::default, ()),
        old(machine).wf() && (entry.kind matches LogEntryKind::Apply(transition)
            ==> !transition.applicable(old(machine).state()) || transition.applied(
            old(machine).state(),
        ) is Some) ==> call_requires(StateMachine::<S, T, E>::apply, (machine, entry)),
        old(machine).wf() && (forall|initial: S| #[trigger]
            call_ensures(S::default, (), initial) ==> exists|states: Seq<S>|
                {
                    &&& #[trigger] states.len() == active.len() + 1
                    &&& states[0] == initial
                    &&& forall|i: int|
                        0 <= i < active.len() ==> (match old(machine).entries()[i].kind {
                            LogEntryKind::Apply(transition) if active[i] => {
                                &&& transition.applicable(#[trigger] states[i])
                                &&& transition.applied(states[i]) == Some(states[i + 1])
                            },
                            _ => states[i + 1] == states[i],
                        })
                }) ==> call_requires(StateMachine::<S, T, E>::apply, (machine, entry)),
        old(machine).wf() && (forall|a: S, b: S| #[trigger]
            call_ensures(S::default, (), a) && #[trigger] call_ensures(S::default, (), b) ==> a == b)
            ==> call_requires(StateMachine::<S, T, E>::apply, (machine, entry)),
{
    let entries = old(machine).entries();
    assert(is_activity(entries, active));
    if forall|a: S, b: S| #[trigger]
        call_ensures(S::default, (), a) && #[trigger] call_ensures(S::default, (), b) ==> a == b {
        assert(default_is_unique::<S>());
    }
    if forall|initial: S| #[trigger]
        call_ensures(S::default, (), initial) ==> exists|states: Seq<S>|
            #[trigger] states.len() == active.len() + 1 && states[0] == initial
                && is_trace::<S, T, E>(entries, active, states) {
        assert forall|initial: S| #[trigger] is_default(initial) implies run::<S, T, E>(
            active_applies(entries),
            initial,
        ) is Finished by {
            assert(call_ensures(S::default, (), initial));
            let states = choose|states: Seq<S>|
                #[trigger] states.len() == active.len() + 1 && states[0] == initial
                    && is_trace::<S, T, E>(entries, active, states);
            lemma_trace_is_run::<S, T, E>(entries, active, states, entries.len() as int);
        }
        assert(always_replays::<S, T, E>(entries));
    }
    assert((forall|initial: S| #[trigger]
        call_ensures(S::default, (), initial) ==> exists|states: Seq<S>|
            {
                &&& #[trigger] states.len() == active.len() + 1
                &&& states[0] == initial
                &&& forall|i: int|
                    0 <= i < active.len() ==> (match entries[i].kind {
                        LogEntryKind::Apply(transition) if active[i] => {
                            &&& transition.applicable(#[trigger] states[i])
                            &&& transition.applied(states[i]) == Some(states[i + 1])
                        },
                        _ => states[i + 1] == states[i],
                    })
            }) ==> (forall|initial: S| #[trigger]
        call_ensures(S::default, (), initial) ==> exists|states: Seq<S>|
            #[trigger] states.len() == active.len() + 1 && states[0] == initial
                && is_trace::<S, T, E>(entries, active, states)));
}

/// What the model of a transition says of calls of its methods: the pre-check may be called on every
/// state, and the transition may be applied to a state that the pre-check accepts.
pub proof fn law_transition_calls<S, E, T: ?Sized + Transition<S, E>>(
    transition: &T,
    state: S,
    left: S,
    result: Result<(), E>,
    target: &mut S,
)
    ensures
        call_requires(<T as Transition<S, E>>::check_applicable, (transition, &state)),
        transition.applicable(*old(target)) ==> call_requires(
            <T as Transition<S, E>>::apply,
            (transition, target),
        ),
        call_ensures(<T as Transition<S, E>>::check_applicable, (transition, &state), result) ==> (
        match result {
            Ok(()) => transition.applicable(state),
            Err(err) => !transition.applicable(state) && transition.fails_with(state, err),
        }),
        (exists|arg: &mut S|
            *arg == state && *final(arg) == left && #[trigger] call_ensures(
                <T as Transition<S, E>>::apply,
                (transition, arg),
                result,
            )) ==> (match result {
            Ok(()) => transition.applied(state) == Some(left),
            Err(err) => {
                &&& transition.applied(state) is None
                &&& transition.fails_with(state, err)
                &&& transition.may_leave(state, left)
            },
        }),
{
}

/// A new state machine has an empty log and a default state; what is read of a state machine is its
/// state and its log.
pub proof fn law_new_and_read<S: Default, T, E>(
    fresh: StateMachine<S, T, E>,
    machine: StateMachine<S, T, E>,
    state: &S,
    log: &[LogEntry<T>],
)
    ensures
        call_ensures(StateMachine::<S, T, E>::new, (), fresh) || call_ensures(
            <StateMachine<S, T, E> as Default>::default,
            (),
            fresh,
        ) ==> fresh.entries() == Seq::<LogEntry<T>>::empty() && call_ensures(
            S::default,
            (),
            fresh.state(),
        ),
        call_ensures(StateMachine::<S, T, E>::current, (&machine,), state) ==> *state
            == machine.state(),
        call_ensures(StateMachine::<S, T, E>::log, (&machine,), log) ==> log@ == machine.entries(),
{
}

/// An entry is made of the given identifier and kind.
pub proof fn law_new_entry<T>(id: TransitionId, kind: LogEntryKind<T>, entry: LogEntry<T>)
    requires
        call_ensures(LogEntry::<T>::new, (id, kind), entry),
    ensures
        entry.id == id,
        entry.kind == kind,
{
}

/// A fresh identifier is the very value that a draw of a random UUID returned, and identifiers are
/// equal exactly if their values are.
pub(crate) proof fn law_new_identifier_is_the_draw(id: TransitionId, other: TransitionId)
    requires
        call_ensures(TransitionId::new, (), id) || call_ensures(
            <TransitionId as Default>::default,
            (),
            id,
        ),
    ensures
        call_ensures(random_uuid_bits, (), id.0),
        id.bits() == id.0,
        id == other <==> id.bits() == other.bits(),
{
    law_value_is_kept_whole(id);
    law_draw_is_what_the_generator_returned(id.bits());
    law_identifier_is_its_value(id, other);
}

/// A boxed transition is checked and applied by checking and applying the one in the box: the result
/// and what becomes of the state are those of a call on it.
pub proof fn law_boxed_calls<S, E, T: ?Sized + Transition<S, E>>(
    boxed: Box<T>,
    state: S,
    left: S,
    result: Result<(), E>,
)
    ensures
        call_ensures(<Box<T> as Transition<S, E>>::check_applicable, (&boxed, &state), result)
            ==> call_ensures(<T as Transition<S, E>>::check_applicable, (&*boxed, &state), result),
        (exists|arg: &mut S|
            *arg == state && *final(arg) == left && #[trigger] call_ensures(
                <Box<T> as Transition<S, E>>::apply,
                (&boxed, arg),
                result,
            )) ==> exists|arg: &mut S|
            *arg == state && *final(arg) == left && #[trigger] call_ensures(
                <T as Transition<S, E>>::apply,
                (&*boxed, arg),
                result,
            ),
{
}

/// Undoing what is recorded under `target`, wherever it stands and be it an undo itself, leads where
/// building from the log without it leads, if `S::default()` is always the same: to the same state,
/// or to the blame of the same transition. Building may stop earlier only because something else
/// that is left over targets what was taken out.
pub proof fn law_undo_leads_where_building_without_it_does<S: Default, T: Transition<S, E>, E>(
    before: StateMachine<S, T, E>,
    entry: LogEntry<T>,
    target: TransitionId,
    result: Result<(), StateMachineError<E>>,
    after: StateMachine<S, T, E>,
    rest: Vec<LogEntry<T>>,
    built: Result<StateMachine<S, T, E>, StateMachineError<E>>,
)
    requires
        exists|machine: &mut StateMachine<S, T, E>|
            *machine == before && *final(machine) == after && #[trigger] call_ensures(
                StateMachine::<S, T, E>::apply,
                (machine, entry),
                result,
            ),
        entry.kind == LogEntryKind::<T>::Undo(target),
        rest@ == before.entries().filter(|recorded: LogEntry<T>| recorded.id != target),
        call_ensures(StateMachine::<S, T, E>::build, (rest,), built),
        forall|a: S, b: S| #[trigger]
            call_ensures(S::default, (), a) && #[trigger] call_ensures(S::default, (), b) ==> a == b,
    ensures
        match (result, built) {
            (Ok(()), Ok(machine)) => after.state() == machine.state(),
            (Err(StateMachineError::Transition(id, _)), Ok(_)) => false,
            (Ok(()), Err(StateMachineError::Transition(id, _))) => false,
            (
                Err(StateMachineError::Transition(id, _)),
                Err(StateMachineError::Transition(other, _)),
            ) => id == other,
            _ => true,
        },
{
    let longer = before.entries().push(entry);
    assert(entry.undoes(target));
    law_undo_leaves_out_its_target(before.entries(), entry, target);
    assert(rest@ == without(before.entries(), target));
    let undone = match result {
        Ok(()) => Ok::<S, StateMachineError<E>>(after.state()),
        Err(err) => Err(err),
    };
    let rebuilt = match built {
        Ok(machine) => Ok::<S, StateMachineError<E>>(machine.state()),
        Err(err) => Err(err),
    };
    if !(undone matches Err(StateMachineError::UnknownTarget(_))) && !(
    rebuilt matches Err(StateMachineError::UnknownTarget(_))) {
        let a = choose|initial: S| #[trigger]
            is_default(initial) && replays_from::<S, T, E>(longer, initial, undone);
        let b = choose|initial: S| #[trigger]
            is_default(initial) && replays_from::<S, T, E>(rest@, initial, rebuilt);
        assert(call_ensures(S::default, (), a) && call_ensures(S::default, (), b));
    }
}

/// Building from the log of a state machine gives back its log and its state, if `S::default()` is
/// always the same.
pub proof fn law_building_from_the_log_gives_it_back<S: Default, T: Transition<S, E>, E>(
    machine: StateMachine<S, T, E>,
    log: Vec<LogEntry<T>>,
    result: Result<StateMachine<S, T, E>, StateMachineError<E>>,
)
    requires
        machine.wf(),
        log@ == machine.entries(),
        call_ensures(StateMachine::<S, T, E>::build, (log,), result),
        forall|a: S, b: S| #[trigger]
            call_ensures(S::default, (), a) && #[trigger] call_ensures(S::default, (), b) ==> a == b,
    ensures
        result matches Ok(copy) && copy.entries() == machine.entries() && copy.state()
            == machine.state(),
{
    assert(default_is_unique::<S>());
    law_rebuilding_restores_the_machine(machine, result);
}

/// Recording an entry under a fresh identifier and undoing it right away is accepted and gives back
/// the state, if `S::default()` is always the same.
pub proof fn law_undoing_right_away_gives_the_state_back<S: Default, T: Transition<S, E>, E>(
    before: StateMachine<S, T, E>,
    entry: LogEntry<T>,
    between: StateMachine<S, T, E>,
    undo: LogEntry<T>,
    result: Result<(), StateMachineError<E>>,
    after: StateMachine<S, T, E>,
)
    requires
        before.wf(),
        forall|k: int|
            0 <= k < before.entries().len() ==> (#[trigger] before.entries()[k]).id != entry.id,
        exists|machine: &mut StateMachine<S, T, E>|
            *machine == before && *final(machine) == between && #[trigger] call_ensures(
                StateMachine::<S, T, E>::apply,
                (machine, entry),
                Ok(()),
            ),
        undo.kind == LogEntryKind::<T>::Undo(entry.id),
        exists|machine: &mut StateMachine<S, T, E>|
            *machine == between && *final(machine) == after && #[trigger] call_ensures(
                StateMachine::<S, T, E>::apply,
                (machine, undo),
                result,
            ),
        forall|a: S, b: S| #[trigger]
            call_ensures(S::default, (), a) && #[trigger] call_ensures(S::default, (), b) ==> a == b,
    ensures
        result is Ok,
        after.state() == before.state(),
        after.entries() == before.entries().push(entry).push(undo),
{
    assert(default_is_unique::<S>());
    assert(undo.undoes(entry.id));
    assert(between.entries() == before.entries().push(entry));
    assert(has_id(between.entries(), entry.id)) by {
        assert(between.entries()[before.entries().len() as int].id == entry.id);
    }
    let outcome = match result {
        Ok(()) => Ok::<S, StateMachineError<E>>(after.state()),
        Err(err) => Err(err),
    };
    law_undo_restores_the_state(before, entry, undo, outcome);
}

} // verus!
