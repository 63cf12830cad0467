//! Laws of the log and of the state machine as a whole.

use vstd::prelude::*;

use crate::error::StateMachineError;
use crate::id::TransitionId;
use crate::log::{
    active_applies, active_applies_among, has_id, is_active, is_cancelled_from, is_unknown_target,
    is_well_targeted, LogEntry, LogEntryKind,
};
use crate::machine::{always_replays, is_applied, is_built, StateMachine};
use crate::replay::{default_is_unique, is_default, replays, replays_from, run, step, Run};
use crate::transition::Transition;

verus! {

/// Appending an entry that undoes nothing in the log, be it an `Apply` entry or an undo of something
/// unknown, changes nothing about the activity of the entries before it.
pub proof fn law_entry_that_undoes_nothing_leaves_activity<T>(
    log: Seq<LogEntry<T>>,
    entry: LogEntry<T>,
    i: int,
)
    requires
        forall|k: int| 0 <= k < log.len() ==> !entry.undoes((#[trigger] log[k]).id),
        0 <= i < log.len(),
    ensures
        is_active(log.push(entry), i) == is_active(log, i),
    decreases log.len() - i,
{
    let longer = log.push(entry);
    assert forall|j: int| i < j < log.len() implies #[trigger] is_active(longer, j) == is_active(
        log,
        j,
    ) by {
        law_entry_that_undoes_nothing_leaves_activity(log, entry, j);
    }
    assert(longer[i] == log[i]);
    assert(!longer[log.len() as int].undoes(longer[i].id));
    if is_active(log, i) {
        assert forall|j: int|
            i < j < longer.len() && #[trigger] longer[j].undoes(longer[i].id) implies !is_active(
            longer,
            j,
        ) by {
            assert(log[j].undoes(log[i].id));
        }
    } else {
        let j = choose|j: int|
            i < j < log.len() && #[trigger] log[j].undoes(log[i].id) && is_active(log, j);
        assert(longer[j].undoes(longer[i].id));
        assert(is_active(longer, j));
    }
}

/// An appended `Apply` entry is in effect, after everything that was in effect before it, and it
/// neither adds nor removes an unknown target.
pub proof fn law_apply_entry_takes_effect_last<T>(log: Seq<LogEntry<T>>, entry: LogEntry<T>)
    requires
        entry.kind is Apply,
    ensures
        active_applies(log.push(entry)) == active_applies(log).push(entry),
        forall|id: TransitionId| #[trigger]
            is_unknown_target(log.push(entry), id) <==> is_unknown_target(log, id),
{
    let longer = log.push(entry);
    assert forall|i: int| 0 <= i < log.len() implies #[trigger] is_active(longer, i) == is_active(
        log,
        i,
    ) by {
        law_entry_that_undoes_nothing_leaves_activity(log, entry, i);
    }
    lemma_same_activity_same_applies(longer, log, log.len() as int);
    assert forall|id: TransitionId| #[trigger]
        is_unknown_target(longer, id) <==> is_unknown_target(log, id) by {
        assert(forall|i: int| 0 <= i <= log.len() ==> longer.take(i) == log.take(i));
        if is_unknown_target(longer, id) {
            let i = choose|i: int|
                0 <= i < longer.len() && #[trigger] longer[i].undoes(id) && is_active(longer, i)
                    && !has_id(longer.take(i), id);
            assert(log[i].undoes(id));
        }
        if is_unknown_target(log, id) {
            let i = choose|i: int|
                0 <= i < log.len() && #[trigger] log[i].undoes(id) && is_active(log, i)
                    && !has_id(log.take(i), id);
            assert(longer[i].undoes(id));
        }
    }
}

/// Logs that agree on which of their first `n` entries are active, and on these, have the same
/// entries in effect among them.
proof fn lemma_same_activity_same_applies<T>(a: Seq<LogEntry<T>>, b: Seq<LogEntry<T>>, n: int)
    requires
        n <= a.len(),
        n <= b.len(),
        forall|i: int| 0 <= i < n ==> #[trigger] is_active(a, i) == is_active(b, i),
        forall|i: int| 0 <= i < n && is_active(a, i) ==> #[trigger] a[i] == b[i],
    ensures
        active_applies_among(a, n) == active_applies_among(b, n),
    decreases n,
{
    if n > 0 {
        lemma_same_activity_same_applies(a, b, n - 1);
        assert(is_active(a, n - 1) == is_active(b, n - 1));
        assert(is_active(a, n - 1) ==> a[n - 1] == b[n - 1]);
    }
}

/// An appended transition acts last, on the state that the log replays to: the replay gives the state
/// it leaves or, if it fails there, is refused with the identifier of its entry and its error.
pub proof fn law_appended_transition_acts_last<S, T: Transition<S, E>, E>(
    log: Seq<LogEntry<T>>,
    initial: S,
    state: S,
    entry: LogEntry<T>,
    transition: T,
    outcome: Result<S, StateMachineError<E>>,
)
    requires
        replays_from::<S, T, E>(log, initial, Ok(state)),
        entry.kind == LogEntryKind::Apply(transition),
    ensures
        replays_from::<S, T, E>(log.push(entry), initial, outcome) <==> match outcome {
            Ok(next) => step::<S, T, E>(transition, state) == Some(next),
            Err(StateMachineError::Transition(id, err)) => {
                &&& step::<S, T, E>(transition, state) is None
                &&& id == entry.id
                &&& transition.fails_with(state, err)
            },
            Err(StateMachineError::UnknownTarget(_)) => false,
        },
{
    law_apply_entry_takes_effect_last(log, entry);
    let longer = active_applies(log).push(entry);
    assert(longer.drop_last() == active_applies(log));
    assert(is_well_targeted(log.push(entry)));
}

/// A log that cannot be replayed cannot be replayed with a transition appended either, for the same
/// reason.
pub proof fn law_appended_transition_mends_nothing<S, T: Transition<S, E>, E>(
    log: Seq<LogEntry<T>>,
    initial: S,
    err: StateMachineError<E>,
    entry: LogEntry<T>,
)
    requires
        replays_from::<S, T, E>(log, initial, Err(err)),
        entry.kind is Apply,
    ensures
        replays_from::<S, T, E>(log.push(entry), initial, Err(err)),
{
    law_apply_entry_takes_effect_last(log, entry);
    let entries = active_applies(log);
    let longer = entries.push(entry);
    assert(longer.take(entries.len() as int) == entries);
    if run::<S, T, E>(entries, initial) is Stuck {
        law_stuck_at_first_failure::<S, T, E>(entries, initial);
        law_run_stops_at_first_failure::<S, T, E>(longer, entries.len() as int, initial);
    }
    if is_well_targeted(log) {
        assert(is_well_targeted(log.push(entry)));
    }
}

/// The latest entry of a log is always active.
pub proof fn law_latest_entry_is_active<T>(log: Seq<LogEntry<T>>)
    requires
        log.len() > 0,
    ensures
        is_active(log, log.len() - 1),
{
}

/// Once an undo is appended, nothing recorded under the identifier it targets is active anymore.
pub proof fn law_undone_entry_is_inactive<T>(
    log: Seq<LogEntry<T>>,
    undo: LogEntry<T>,
    i: int,
)
    requires
        0 <= i < log.len(),
        undo.undoes(log[i].id),
    ensures
        !is_active(log.push(undo), i),
{
    let longer = log.push(undo);
    law_latest_entry_is_active(longer);
    assert(longer[log.len() as int].undoes(longer[i].id));
}

/// The entries in effect when those under the identifiers in `cancelled` are undone by later ones.
spec fn survivors<T>(log: Seq<LogEntry<T>>, cancelled: Set<TransitionId>) -> Seq<LogEntry<T>>
    decreases log.len(),
{
    if log.len() == 0 {
        Seq::empty()
    } else {
        let entry = log.last();
        if cancelled.contains(entry.id) {
            survivors(log.drop_last(), cancelled)
        } else {
            match entry.kind {
                LogEntryKind::Apply(_) => survivors(log.drop_last(), cancelled).push(entry),
                LogEntryKind::Undo(target) => survivors(log.drop_last(), cancelled.insert(target)),
            }
        }
    }
}

spec fn cancelled_from<T>(log: Seq<LogEntry<T>>, n: int) -> Set<TransitionId> {
    Set::new(|id: TransitionId| is_cancelled_from(log, n, id))
}

proof fn lemma_survivors_are_active<T>(log: Seq<LogEntry<T>>, n: int)
    requires
        0 <= n <= log.len(),
    ensures
        active_applies_among(log, n) == survivors(log.take(n), cancelled_from(log, n)),
    decreases n,
{
    if n > 0 {
        lemma_survivors_are_active(log, n - 1);
        let entry = log[n - 1];
        assert(log.take(n).last() == entry);
        assert(log.take(n).drop_last() == log.take(n - 1));
        let later = cancelled_from(log, n);
        assert(is_active(log, n - 1) <==> !later.contains(entry.id));
        match entry.kind {
            LogEntryKind::Undo(target) if !later.contains(entry.id) => {
                assert(cancelled_from(log, n - 1) == later.insert(target)) by {
                    assert(log[n - 1].undoes(target));
                }
            },
            _ => {
                assert(cancelled_from(log, n - 1) == later);
            },
        }
    }
}

proof fn lemma_survivors_without<T>(
    log: Seq<LogEntry<T>>,
    cancelled: Set<TransitionId>,
    id: TransitionId,
)
    ensures
        survivors(log, cancelled.insert(id)) == survivors(without(log, id), cancelled),
    decreases log.len(),
{
    reveal(Seq::filter);
    if log.len() > 0 {
        let entry = log.last();
        lemma_survivors_without(log.drop_last(), cancelled, id);
        if entry.id != id {
            assert(without(log, id) == without(log.drop_last(), id).push(entry));
            assert(without(log, id).drop_last() == without(log.drop_last(), id));
            if let LogEntryKind::Undo(target) = entry.kind {
                lemma_survivors_without(log.drop_last(), cancelled.insert(target), id);
                assert(cancelled.insert(id).insert(target) == cancelled.insert(target).insert(id));
            }
        }
    }
}

/// The log without the entries recorded under `id`.
pub open spec fn without<T>(log: Seq<LogEntry<T>>, id: TransitionId) -> Seq<LogEntry<T>> {
    log.filter(|entry: LogEntry<T>| entry.id != id)
}

/// Once an undo is appended, the entries in effect are those that would be in effect if nothing had
/// ever been recorded under the identifier it targets. What is undone need not be the latest entry,
/// and it may be an undo itself.
pub proof fn law_undo_leaves_out_its_target<T>(
    log: Seq<LogEntry<T>>,
    undo: LogEntry<T>,
    target: TransitionId,
)
    requires
        undo.undoes(target),
    ensures
        active_applies(log.push(undo)) == active_applies(without(log, target)),
{
    let longer = log.push(undo);
    let n = log.len() as int;
    lemma_survivors_are_active(longer, n);
    assert(longer.take(n) == log);
    law_latest_entry_is_active(longer);
    assert(longer[n].undoes(target));
    assert(cancelled_from(longer, n) == Set::<TransitionId>::empty().insert(target));
    lemma_survivors_without(log, Set::empty(), target);
    let rest = without(log, target);
    lemma_survivors_are_active(rest, rest.len() as int);
    assert(rest.take(rest.len() as int) == rest);
    assert(cancelled_from(rest, rest.len() as int) == Set::<TransitionId>::empty());
}

/// A replay with an undo appended runs exactly the entries that are in effect without its target:
/// it is refused at the first of them whose transition fails, if any does.
pub proof fn law_undo_replays_what_is_left<S, T: Transition<S, E>, E>(
    log: Seq<LogEntry<T>>,
    undo: LogEntry<T>,
    target: TransitionId,
    initial: S,
    outcome: Result<S, StateMachineError<E>>,
)
    requires
        undo.undoes(target),
        replays_from::<S, T, E>(log.push(undo), initial, outcome),
    ensures
        ({
            let left = active_applies(without(log, target));
            match outcome {
                Ok(state) => run::<S, T, E>(left, initial) == Run::Finished(state),
                Err(StateMachineError::Transition(id, _)) => {
                    run::<S, T, E>(left, initial) matches Run::Stuck { position, state }
                        && left[position].id == id
                },
                Err(StateMachineError::UnknownTarget(id)) => (id == target && !has_id(log, id))
                    || has_early_undo(log, id),
            }
        }),
{
    law_undo_leaves_out_its_target(log, undo, target);
    if let Err(StateMachineError::UnknownTarget(id)) = outcome {
        lemma_unknown_after_undo(log, undo, target, id);
    }
}

/// Whether some undo of `id`, active or not, comes before every entry recorded under `id`.
pub open spec fn has_early_undo<T>(log: Seq<LogEntry<T>>, id: TransitionId) -> bool {
    exists|i: int| 0 <= i < log.len() && #[trigger] log[i].undoes(id) && !has_id(log.take(i), id)
}

proof fn lemma_unknown_after_undo<T>(
    log: Seq<LogEntry<T>>,
    undo: LogEntry<T>,
    target: TransitionId,
    id: TransitionId,
)
    requires
        undo.undoes(target),
        is_unknown_target(log.push(undo), id),
    ensures
        (id == target && !has_id(log, id)) || has_early_undo(log, id),
{
    let longer = log.push(undo);
    let i = choose|i: int|
        0 <= i < longer.len() && #[trigger] longer[i].undoes(id) && is_active(longer, i)
            && !has_id(longer.take(i), id);
    assert(longer.take(i) == log.take(i));
    if i < log.len() {
        assert(log[i].undoes(id));
    } else {
        assert(log.take(i) == log);
    }
}

/// If every undo of a log comes after an entry that it targets, appending an undo of something
/// recorded there gives no unknown target: the undo is refused at most for a transition that fails.
pub proof fn law_undo_of_a_known_target_is_well_targeted<T>(
    log: Seq<LogEntry<T>>,
    undo: LogEntry<T>,
    target: TransitionId,
)
    requires
        undo.undoes(target),
        has_id(log, target),
        forall|id: TransitionId| !has_early_undo(log, id),
    ensures
        is_well_targeted(log.push(undo)),
        forall|id: TransitionId| !has_early_undo(log.push(undo), id),
{
    let longer = log.push(undo);
    assert forall|id: TransitionId| !is_unknown_target(longer, id) by {
        if is_unknown_target(longer, id) {
            lemma_unknown_after_undo(log, undo, target, id);
        }
    }
    assert forall|id: TransitionId| !has_early_undo(longer, id) by {
        if has_early_undo(longer, id) {
            let i = choose|i: int|
                0 <= i < longer.len() && #[trigger] longer[i].undoes(id) && !has_id(
                    longer.take(i),
                    id,
                );
            assert(longer.take(i) == log.take(i));
            if i < log.len() {
                assert(log[i].undoes(id));
                assert(has_early_undo(log, id));
            } else {
                assert(log.take(i) == log);
            }
        }
    }
}

/// Whether no two entries of the log share an identifier.
pub open spec fn has_distinct_ids<T>(log: Seq<LogEntry<T>>) -> bool {
    forall|i: int, j: int|
        0 <= i < j < log.len() ==> (#[trigger] log[i]).id != (#[trigger] log[j]).id
}

/// Whether the log has no two different unknown targets.
pub open spec fn has_at_most_one_unknown_target<T>(log: Seq<LogEntry<T>>) -> bool {
    forall|a: TransitionId, b: TransitionId|
        #[trigger] is_unknown_target(log, a) && #[trigger] is_unknown_target(log, b) ==> a == b
}

/// Whether appending `entry` decides if anything from position `n` on undoes the entry at `p`.
spec fn is_affected<T>(log: Seq<LogEntry<T>>, entry: LogEntry<T>, n: int, p: int) -> bool {
    is_cancelled_from(log.push(entry), n, log[p].id) != is_cancelled_from(log, n, log[p].id)
}

/// Position `n` adds its own target, if it is active, to what is undone from position `n + 1` on.
proof fn lemma_cancelled_step<T>(log: Seq<LogEntry<T>>, n: int, id: TransitionId)
    requires
        0 <= n < log.len(),
    ensures
        is_cancelled_from(log, n, id) <==> is_cancelled_from(log, n + 1, id) || (log[n].undoes(id)
            && is_active(log, n)),
        is_active(log, n) <==> !is_cancelled_from(log, n + 1, log[n].id),
{
}

/// Appending an undo affects at most one of the first `n` entries from position `n` on.
proof fn lemma_affects_at_most_one<T>(
    log: Seq<LogEntry<T>>,
    undo: LogEntry<T>,
    n: int,
    p: int,
    q: int,
)
    requires
        has_distinct_ids(log),
        undo.kind is Undo,
        0 <= p < q < n <= log.len(),
    ensures
        !(is_affected(log, undo, n, p) && is_affected(log, undo, n, q)),
    decreases log.len() - n,
{
    let longer = log.push(undo);
    if n == log.len() {
        assert(longer[n] == undo);
        assert(undo.undoes(log[p].id) ==> !undo.undoes(log[q].id));
    } else {
        assert(longer[n] == log[n]);
        lemma_cancelled_step(log, n, log[p].id);
        lemma_cancelled_step(log, n, log[q].id);
        lemma_cancelled_step(longer, n, log[p].id);
        lemma_cancelled_step(longer, n, log[q].id);
        lemma_affects_at_most_one(log, undo, n + 1, p, q);
        lemma_affects_at_most_one(log, undo, n + 1, p, n);
        lemma_affects_at_most_one(log, undo, n + 1, q, n);
        assert(log[n].undoes(log[p].id) ==> !log[n].undoes(log[q].id));
    }
}

/// Logs that agree on their first `n` entries, and on which of these are undone from position `n` on,
/// agree on the activity of these.
proof fn lemma_same_cancelled_same_activity<T>(
    a: Seq<LogEntry<T>>,
    b: Seq<LogEntry<T>>,
    n: int,
    i: int,
)
    requires
        0 <= i < n <= a.len(),
        n <= b.len(),
        forall|p: int| 0 <= p < n ==> #[trigger] a[p] == b[p],
        forall|p: int|
            0 <= p < n ==> is_cancelled_from(a, n, (#[trigger] a[p]).id) == is_cancelled_from(
                b,
                n,
                a[p].id,
            ),
    ensures
        is_active(a, i) == is_active(b, i),
    decreases n,
{
    assert(a[n - 1] == b[n - 1]);
    lemma_cancelled_step(a, n - 1, a[n - 1].id);
    lemma_cancelled_step(b, n - 1, a[n - 1].id);
    if i < n - 1 {
        assert forall|p: int| 0 <= p < n - 1 implies is_cancelled_from(
            a,
            n - 1,
            (#[trigger] a[p]).id,
        ) == is_cancelled_from(b, n - 1, a[p].id) by {
            lemma_cancelled_step(a, n - 1, a[p].id);
            lemma_cancelled_step(b, n - 1, a[p].id);
        }
        lemma_same_cancelled_same_activity(a, b, n - 1, i);
    }
}

/// If the undo at position `j` lacks its target once `undo` is appended, nothing before it changes.
proof fn lemma_unknown_target_ends_the_effect<T>(
    log: Seq<LogEntry<T>>,
    undo: LogEntry<T>,
    j: int,
    id: TransitionId,
    i: int,
)
    requires
        has_distinct_ids(log),
        is_well_targeted(log),
        undo.kind is Undo,
        0 <= i < j <= log.len(),
        log.push(undo)[j].undoes(id),
        is_active(log.push(undo), j),
        !has_id(log.take(j), id),
    ensures
        is_active(log.push(undo), i) == is_active(log, i),
{
    let longer = log.push(undo);
    if j < log.len() {
        assert(longer[j] == log[j]);
        assert(!is_active(log, j)) by {
            if is_active(log, j) {
                assert(log[j].undoes(id));
                assert(is_unknown_target(log, id));
            }
        }
        lemma_cancelled_step(log, j, log[j].id);
        lemma_cancelled_step(longer, j, log[j].id);
        assert(is_affected(log, undo, j + 1, j));
    }
    assert forall|p: int| 0 <= p < j implies !#[trigger] is_affected(log, undo, j, p) by {
        assert(log.take(j)[p].id != id);
        assert(log[p] == log.take(j)[p]);
        if j < log.len() {
            lemma_affects_at_most_one(log, undo, j + 1, p, j);
            lemma_cancelled_step(log, j, log[p].id);
            lemma_cancelled_step(longer, j, log[p].id);
        }
    }
    assert forall|p: int| 0 <= p < j implies is_cancelled_from(longer, j, (#[trigger] longer[p]).id)
        == is_cancelled_from(log, j, longer[p].id) by {
        assert(!is_affected(log, undo, j, p));
    }
    lemma_same_cancelled_same_activity(longer, log, j, i);
}

/// With distinct identifiers, appending an undo to a well targeted log gives at most one unknown
/// target: its own or that of an undo which it reactivates.
pub proof fn law_undo_exposes_at_most_one_unknown_target<T>(
    log: Seq<LogEntry<T>>,
    undo: LogEntry<T>,
)
    requires
        has_distinct_ids(log),
        is_well_targeted(log),
        undo.kind is Undo,
    ensures
        has_at_most_one_unknown_target(log.push(undo)),
{
    let longer = log.push(undo);
    assert forall|a: TransitionId, b: TransitionId| #[trigger]
        is_unknown_target(longer, a) && #[trigger] is_unknown_target(longer, b) implies a == b by {
        let i = choose|i: int|
            0 <= i < longer.len() && #[trigger] longer[i].undoes(a) && is_active(longer, i)
                && !has_id(longer.take(i), a);
        let j = choose|j: int|
            0 <= j < longer.len() && #[trigger] longer[j].undoes(b) && is_active(longer, j)
                && !has_id(longer.take(j), b);
        assert(longer.take(i) == log.take(i));
        assert(longer.take(j) == log.take(j));
        if i < j {
            lemma_unknown_target_ends_the_effect(log, undo, j, b, i);
            assert(log[i].undoes(a));
            assert(is_unknown_target(log, a));
        } else if j < i {
            lemma_unknown_target_ends_the_effect(log, undo, i, a, j);
            assert(log[j].undoes(b));
            assert(is_unknown_target(log, b));
        }
    }
}

/// Appending an undo of something that a well targeted log does not hold gives that one unknown
/// target and no other.
pub proof fn law_undo_of_nothing_is_the_only_unknown_target<T>(
    log: Seq<LogEntry<T>>,
    undo: LogEntry<T>,
    target: TransitionId,
    id: TransitionId,
)
    requires
        is_well_targeted(log),
        undo.undoes(target),
        !has_id(log, target),
    ensures
        is_unknown_target(log.push(undo), id) <==> id == target,
{
    let longer = log.push(undo);
    let n = log.len() as int;
    law_latest_entry_is_active(longer);
    assert(longer.take(n) == log);
    assert(longer[n].undoes(target));
    if is_unknown_target(longer, id) {
        let i = choose|i: int|
            0 <= i < longer.len() && #[trigger] longer[i].undoes(id) && is_active(longer, i)
                && !has_id(longer.take(i), id);
        if i < n {
            law_entry_that_undoes_nothing_leaves_activity(log, undo, i);
            assert(longer.take(i) == log.take(i));
            assert(log[i].undoes(id));
            assert(is_unknown_target(log, id));
        }
    }
}

/// Logs that agree on their first `n` entries and on which of these are undone from there on, and
/// that have no `Apply` entry from there on, have the same entries in effect.
proof fn lemma_same_cancelled_same_applies<T>(
    a: Seq<LogEntry<T>>,
    b: Seq<LogEntry<T>>,
    n: int,
)
    requires
        0 <= n <= a.len(),
        n <= b.len(),
        forall|p: int| 0 <= p < n ==> #[trigger] a[p] == b[p],
        forall|id: TransitionId| #[trigger]
            is_cancelled_from(a, n, id) == is_cancelled_from(b, n, id),
        forall|p: int| n <= p < a.len() ==> !((#[trigger] a[p]).kind is Apply),
        forall|p: int| n <= p < b.len() ==> !((#[trigger] b[p]).kind is Apply),
    ensures
        forall|i: int| 0 <= i < n ==> #[trigger] is_active(a, i) == is_active(b, i),
        active_applies(a) == active_applies(b),
{
    assert forall|i: int| 0 <= i < n implies #[trigger] is_active(a, i) == is_active(b, i) by {
        lemma_same_cancelled_same_activity(a, b, n, i);
    }
    lemma_same_activity_same_applies(a, b, n);
    lemma_no_applies_after(a, n, a.len() as int);
    lemma_no_applies_after(b, n, b.len() as int);
}

proof fn lemma_no_applies_after<T>(log: Seq<LogEntry<T>>, n: int, m: int)
    requires
        0 <= n <= m <= log.len(),
        forall|p: int| n <= p < log.len() ==> !((#[trigger] log[p]).kind is Apply),
    ensures
        active_applies_among(log, m) == active_applies_among(log, n),
    decreases m - n,
{
    if n < m {
        lemma_no_applies_after(log, n, m - 1);
        assert(!(log[m - 1].kind is Apply));
    }
}

/// What is undone from the end of `log` on once two undos are appended of which the second does not
/// undo the first.
proof fn lemma_two_undos<T>(
    log: Seq<LogEntry<T>>,
    first: LogEntry<T>,
    second: LogEntry<T>,
    id: TransitionId,
)
    requires
        first.kind is Undo,
        second.kind is Undo,
        !second.undoes(first.id),
    ensures
        is_active(log.push(first).push(second), log.len() as int),
        is_active(log.push(first).push(second), log.len() as int + 1),
        is_cancelled_from(log.push(first).push(second), log.len() as int, id) <==> first.undoes(id)
            || second.undoes(id),
        is_unknown_target(log.push(first).push(second), id) <==> {
            ||| first.undoes(id) && !has_id(log, id)
            ||| second.undoes(id) && !has_id(log, id) && first.id != id
            ||| exists|i: int|
                0 <= i < log.len() && #[trigger] log[i].undoes(id) && is_active(
                    log.push(first).push(second),
                    i,
                ) && !has_id(log.take(i), id)
        },
{
    let longer = log.push(first).push(second);
    let n = log.len() as int;
    assert(longer[n] == first);
    assert(longer[n + 1] == second);
    assert(is_active(longer, n + 1));
    assert(is_active(longer, n));
    assert(first.undoes(id) ==> longer[n].undoes(id));
    assert(second.undoes(id) ==> longer[n + 1].undoes(id));
    assert(longer.take(n) == log);
    assert(longer.take(n + 1) == log.push(first));
    assert(has_id(log.push(first), id) <==> has_id(log, id) || first.id == id) by {
        assert(log.push(first)[n] == first);
        if has_id(log, id) {
            let k = choose|k: int| 0 <= k < log.len() && (#[trigger] log[k]).id == id;
            assert(log.push(first)[k].id == id);
        }
        if has_id(log.push(first), id) {
            let k = choose|k: int|
                0 <= k < log.push(first).len() && (#[trigger] log.push(first)[k]).id == id;
            if k < n {
                assert(log[k].id == id);
            }
        }
    }
    if is_unknown_target(longer, id) {
        let i = choose|i: int|
            0 <= i < longer.len() && #[trigger] longer[i].undoes(id) && is_active(longer, i)
                && !has_id(longer.take(i), id);
        if i < n {
            assert(longer.take(i) == log.take(i));
            assert(log[i].undoes(id));
        }
    }
    if exists|i: int|
        0 <= i < log.len() && #[trigger] log[i].undoes(id) && is_active(longer, i) && !has_id(
            log.take(i),
            id,
        ) {
        let i = choose|i: int|
            0 <= i < log.len() && #[trigger] log[i].undoes(id) && is_active(longer, i) && !has_id(
                log.take(i),
                id,
            );
        assert(longer.take(i) == log.take(i));
        assert(longer[i].undoes(id));
    }
}

/// Two undos commute: neither undoing the other, the order in which they are appended makes no
/// difference to any replay.
pub proof fn law_undos_commute<S, T: Transition<S, E>, E>(
    log: Seq<LogEntry<T>>,
    first: LogEntry<T>,
    second: LogEntry<T>,
    initial: S,
    outcome: Result<S, StateMachineError<E>>,
)
    requires
        first.kind is Undo,
        second.kind is Undo,
        !first.undoes(second.id),
        !second.undoes(first.id),
    ensures
        replays_from::<S, T, E>(log.push(first).push(second), initial, outcome)
            <==> replays_from::<S, T, E>(log.push(second).push(first), initial, outcome),
{
    let a = log.push(first).push(second);
    let b = log.push(second).push(first);
    let n = log.len() as int;
    assert forall|id: TransitionId| #[trigger]
        is_cancelled_from(a, n, id) == is_cancelled_from(b, n, id) by {
        lemma_two_undos(log, first, second, id);
        lemma_two_undos(log, second, first, id);
    }
    lemma_same_cancelled_same_applies(a, b, n);
    assert forall|id: TransitionId|
        #![trigger is_unknown_target(a, id)]
        #![trigger is_unknown_target(b, id)]
        is_unknown_target(a, id) <==> is_unknown_target(b, id) by {
        lemma_two_undos(log, first, second, id);
        lemma_two_undos(log, second, first, id);
    }
}

/// Undoing the same target a second time is the same as undoing it once: no replay changes. (An undo
/// of something unknown that is recorded under its own target is an entry which a second undo finds;
/// it is left out.)
pub proof fn law_undoing_twice_is_undoing_once<S, T: Transition<S, E>, E>(
    log: Seq<LogEntry<T>>,
    first: LogEntry<T>,
    second: LogEntry<T>,
    target: TransitionId,
    initial: S,
    outcome: Result<S, StateMachineError<E>>,
)
    requires
        first.undoes(target),
        second.undoes(target),
        has_id(log, target) || first.id != target,
    ensures
        replays_from::<S, T, E>(log.push(first).push(second), initial, outcome)
            <==> replays_from::<S, T, E>(log.push(first), initial, outcome),
{
    let once = log.push(first);
    let twice = once.push(second);
    let n = log.len() as int;
    assert(once[n] == first && twice[n] == first && twice[n + 1] == second);
    law_latest_entry_is_active(once);
    law_latest_entry_is_active(twice);
    assert(once[n].undoes(target) && twice[n + 1].undoes(target));
    assert forall|id: TransitionId| #[trigger]
        is_cancelled_from(twice, n, id) == is_cancelled_from(once, n, id) by {
        assert(is_cancelled_from(twice, n, id) <==> id == target);
        assert(is_cancelled_from(once, n, id) <==> id == target);
    }
    lemma_same_cancelled_same_applies(twice, once, n);
    assert(twice.take(n) == log && once.take(n) == log && twice.take(n + 1) == once);
    assert(once[n].id == first.id);
    if has_id(log, target) {
        let k = choose|k: int| 0 <= k < log.len() && (#[trigger] log[k]).id == target;
        assert(once[k].id == target);
    }
    assert forall|id: TransitionId|
        #![trigger is_unknown_target(twice, id)]
        #![trigger is_unknown_target(once, id)]
        is_unknown_target(twice, id) <==> is_unknown_target(once, id) by {
        if is_unknown_target(twice, id) {
            let i = choose|i: int|
                0 <= i < twice.len() && #[trigger] twice[i].undoes(id) && is_active(twice, i)
                    && !has_id(twice.take(i), id);
            if i < n {
                assert(twice.take(i) == once.take(i));
                assert(once[i].undoes(id));
            } else {
                assert(!has_id(log, target)) by {
                    assert(id == target);
                }
            }
        }
        if is_unknown_target(once, id) {
            let i = choose|i: int|
                0 <= i < once.len() && #[trigger] once[i].undoes(id) && is_active(once, i)
                    && !has_id(once.take(i), id);
            assert(twice.take(i) == once.take(i));
            assert(twice[i].undoes(id));
            if i == n {
                assert(first.id != target);
                assert(is_active(twice, n));
            }
        }
    }
}

/// Undoing an undo reactivates what it undid: an entry that only the entry at position `k` undoes is
/// inactive as long as that one is active, and is active again once that one is undone.
pub proof fn law_undo_of_undo_reactivates<T>(
    log: Seq<LogEntry<T>>,
    i: int,
    k: int,
    redo: LogEntry<T>,
)
    requires
        0 <= i < k < log.len(),
        log[i].id != log[k].id,
        is_active(log, k),
        log[k].undoes(log[i].id),
        forall|j: int| i < j < log.len() && #[trigger] log[j].undoes(log[i].id) ==> j == k,
        redo.undoes(log[k].id),
    ensures
        !is_active(log, i),
        is_active(log.push(redo), i),
{
    let longer = log.push(redo);
    law_undone_entry_is_inactive(log, redo, k);
    assert forall|j: int|
        i < j < longer.len() && #[trigger] longer[j].undoes(longer[i].id) implies !is_active(
        longer,
        j,
    ) by {
        if j < log.len() {
            assert(log[j].undoes(log[i].id));
        }
    }
}

proof fn lemma_retracted_entry_leaves_activity<T>(
    log: Seq<LogEntry<T>>,
    entry: LogEntry<T>,
    undo: LogEntry<T>,
    i: int,
)
    requires
        0 <= i < log.len(),
        !has_id(log, entry.id),
        undo.undoes(entry.id),
    ensures
        is_active(log.push(entry).push(undo), i) == is_active(log, i),
    decreases log.len() - i,
{
    let longer = log.push(entry).push(undo);
    assert(!is_active(longer, log.len() as int)) by {
        law_undone_entry_is_inactive(log.push(entry), undo, log.len() as int);
    }
    assert(longer[i] == log[i]);
    assert(!longer[log.len() as int + 1].undoes(longer[i].id));
    assert forall|j: int| i < j < log.len() implies #[trigger] is_active(longer, j) == is_active(
        log,
        j,
    ) by {
        lemma_retracted_entry_leaves_activity(log, entry, undo, j);
    }
    if is_active(log, i) {
        assert forall|j: int|
            i < j < longer.len() && #[trigger] longer[j].undoes(longer[i].id) implies !is_active(
            longer,
            j,
        ) by {
            if j < log.len() {
                assert(log[j].undoes(log[i].id));
            }
        }
    } else {
        let j = choose|j: int|
            i < j < log.len() && #[trigger] log[j].undoes(log[i].id) && is_active(log, j);
        assert(longer[j].undoes(longer[i].id));
        assert(is_active(longer, j));
    }
}

/// Appending an entry under a fresh identifier and then undoing it leaves every replay as it was,
/// whether the entry applies a transition or is an undo (so that undoing it is a redo).
pub proof fn law_retracted_entry_has_no_effect<S, T: Transition<S, E>, E>(
    log: Seq<LogEntry<T>>,
    entry: LogEntry<T>,
    undo: LogEntry<T>,
    initial: S,
    outcome: Result<S, StateMachineError<E>>,
)
    requires
        !has_id(log, entry.id),
        undo.undoes(entry.id),
    ensures
        replays_from::<S, T, E>(log.push(entry).push(undo), initial, outcome) <==> replays_from::<
            S,
            T,
            E,
        >(log, initial, outcome),
{
    let longer = log.push(entry).push(undo);
    let n = log.len() as int;
    law_undone_entry_is_inactive(log.push(entry), undo, n);
    assert forall|i: int| 0 <= i < n implies #[trigger] is_active(longer, i) == is_active(
        log,
        i,
    ) by {
        lemma_retracted_entry_leaves_activity(log, entry, undo, i);
    }
    lemma_same_activity_same_applies(longer, log, n);
    reveal_with_fuel(active_applies_among, 3);
    assert(active_applies(longer) == active_applies(log));
    assert forall|id: TransitionId|
        #![trigger is_unknown_target(longer, id)]
        #![trigger is_unknown_target(log, id)]
        is_unknown_target(longer, id) <==> is_unknown_target(log, id) by {
        assert(forall|i: int| 0 <= i <= n ==> longer.take(i) == log.take(i));
        assert(has_id(longer.take(n + 1), entry.id)) by {
            assert(longer.take(n + 1)[n].id == entry.id);
        }
        if is_unknown_target(longer, id) {
            let i = choose|i: int|
                0 <= i < longer.len() && #[trigger] longer[i].undoes(id) && is_active(longer, i)
                    && !has_id(longer.take(i), id);
            assert(i < n);
            assert(log[i].undoes(id));
        }
        if is_unknown_target(log, id) {
            let i = choose|i: int|
                0 <= i < log.len() && #[trigger] log[i].undoes(id) && is_active(log, i)
                    && !has_id(log.take(i), id);
            assert(longer[i].undoes(id));
        }
    }
}

proof fn lemma_inactive_entry_leaves_activity<T>(
    log: Seq<LogEntry<T>>,
    k: int,
    kind: LogEntryKind<T>,
    i: int,
)
    requires
        0 <= i < log.len(),
        0 <= k < log.len(),
        !is_active(log, k),
    ensures
        is_active(log.update(k, LogEntry { id: log[k].id, kind }), i) == is_active(log, i),
    decreases log.len() - i,
{
    let other = log.update(k, LogEntry { id: log[k].id, kind });
    assert(other[i].id == log[i].id);
    assert forall|j: int| i < j < log.len() implies #[trigger] is_active(other, j) == is_active(
        log,
        j,
    ) by {
        lemma_inactive_entry_leaves_activity(log, k, kind, j);
    }
    if is_active(log, i) {
        assert forall|j: int|
            i < j < other.len() && #[trigger] other[j].undoes(other[i].id) implies !is_active(
            other,
            j,
        ) by {
            if j != k {
                assert(log[j].undoes(log[i].id));
            }
        }
    } else {
        let j = choose|j: int|
            i < j < log.len() && #[trigger] log[j].undoes(log[i].id) && is_active(log, j);
        assert(j != k);
        assert(other[j].undoes(other[i].id));
        assert(is_active(other, j));
    }
}

/// An entry that is not active has no effect at all: whatever it would do, every replay is the same.
/// A transition that is undone is never applied, so that it would fail goes unnoticed, and an undo
/// that is undone does not undo its target.
pub proof fn law_inactive_entry_is_ignored<S, T: Transition<S, E>, E>(
    log: Seq<LogEntry<T>>,
    k: int,
    kind: LogEntryKind<T>,
    initial: S,
    outcome: Result<S, StateMachineError<E>>,
)
    requires
        0 <= k < log.len(),
        !is_active(log, k),
    ensures
        replays_from::<S, T, E>(
            log.update(k, LogEntry { id: log[k].id, kind }),
            initial,
            outcome,
        ) <==> replays_from::<S, T, E>(log, initial, outcome),
{
    let other = log.update(k, LogEntry { id: log[k].id, kind });
    assert forall|i: int| 0 <= i < log.len() implies #[trigger] is_active(other, i) == is_active(
        log,
        i,
    ) by {
        lemma_inactive_entry_leaves_activity(log, k, kind, i);
    }
    lemma_same_activity_same_applies(other, log, log.len() as int);
    assert forall|id: TransitionId|
        #![trigger is_unknown_target(other, id)]
        #![trigger is_unknown_target(log, id)]
        is_unknown_target(other, id) <==> is_unknown_target(log, id) by {
        assert forall|i: int| 0 <= i < log.len() implies #[trigger] has_id(other.take(i), id)
            == has_id(log.take(i), id) by {
            assert(forall|j: int| 0 <= j < i ==> other.take(i)[j].id == log.take(i)[j].id);
            if has_id(other.take(i), id) {
                let j = choose|j: int|
                    0 <= j < other.take(i).len() && (#[trigger] other.take(i)[j]).id == id;
                assert(log.take(i)[j].id == id);
            }
            if has_id(log.take(i), id) {
                let j = choose|j: int|
                    0 <= j < log.take(i).len() && (#[trigger] log.take(i)[j]).id == id;
                assert(other.take(i)[j].id == id);
            }
        }
        if is_unknown_target(other, id) {
            let i = choose|i: int|
                0 <= i < other.len() && #[trigger] other[i].undoes(id) && is_active(other, i)
                    && !has_id(other.take(i), id);
            assert(i != k);
            assert(log[i].undoes(id));
        }
        if is_unknown_target(log, id) {
            let i = choose|i: int|
                0 <= i < log.len() && #[trigger] log[i].undoes(id) && is_active(log, i)
                    && !has_id(log.take(i), id);
            assert(i != k);
            assert(other[i].undoes(id));
            assert(is_active(other, i));
        }
    }
}

/// A run that gets stuck in a prefix of the entries is stuck there for good.
pub proof fn law_run_stops_at_first_failure<S, T: Transition<S, E>, E>(
    entries: Seq<LogEntry<T>>,
    n: int,
    initial: S,
)
    requires
        0 <= n <= entries.len(),
        run::<S, T, E>(entries.take(n), initial) is Stuck,
    ensures
        run::<S, T, E>(entries, initial) == run::<S, T, E>(entries.take(n), initial),
    decreases entries.len() - n,
{
    if n < entries.len() {
        assert(entries.take(n + 1).drop_last() == entries.take(n));
        law_run_stops_at_first_failure::<S, T, E>(entries, n + 1, initial);
    } else {
        assert(entries.take(n) == entries);
    }
}

/// The entry at which a run is stuck is the first one whose transition fails: all before it succeed
/// and lead to the state on which it fails.
pub proof fn law_stuck_at_first_failure<S, T: Transition<S, E>, E>(
    entries: Seq<LogEntry<T>>,
    initial: S,
)
    requires
        run::<S, T, E>(entries, initial) is Stuck,
    ensures
        run::<S, T, E>(entries, initial) matches Run::Stuck { position, state } && {
            &&& 0 <= position < entries.len()
            &&& run::<S, T, E>(entries.take(position), initial) == Run::Finished(state)
            &&& entries[position].kind matches LogEntryKind::Apply(transition)
            &&& step::<S, T, E>(transition, state) is None
        },
    decreases entries.len(),
{
    if run::<S, T, E>(entries.drop_last(), initial) is Stuck {
        law_stuck_at_first_failure::<S, T, E>(entries.drop_last(), initial);
        let position = run::<S, T, E>(entries, initial)->position;
        assert(entries.drop_last().take(position) == entries.take(position));
    } else {
        assert(entries.take(entries.len() - 1) == entries.drop_last());
    }
}

/// A replay is determined by the log and the state it starts in, but for which one of several
/// unknown targets, and which of the errors that the failing transition may give, it reports.
pub proof fn law_replay_is_determined<S, T: Transition<S, E>, E>(
    log: Seq<LogEntry<T>>,
    initial: S,
    a: Result<S, StateMachineError<E>>,
    b: Result<S, StateMachineError<E>>,
)
    requires
        replays_from::<S, T, E>(log, initial, a),
        replays_from::<S, T, E>(log, initial, b),
    ensures
        match (a, b) {
            (Ok(s), Ok(t)) => s == t,
            (
                Err(StateMachineError::Transition(i, _)),
                Err(StateMachineError::Transition(j, _)),
            ) => i == j,
            (
                Err(StateMachineError::UnknownTarget(_)),
                Err(StateMachineError::UnknownTarget(_)),
            ) => true,
            _ => false,
        },
{
}

/// The log of a state machine replays again, to the same state, if `S::default()` is always the same.
pub proof fn law_log_replays_to_the_state<S: Default, T: Transition<S, E>, E>(
    machine: StateMachine<S, T, E>,
    outcome: Result<S, StateMachineError<E>>,
)
    requires
        machine.wf(),
        default_is_unique::<S>(),
        replays::<S, T, E>(machine.entries(), outcome),
    ensures
        outcome == Ok::<S, StateMachineError<E>>(machine.state()),
{
}

/// Replaying the log of a state machine always succeeds if `S::default()` is always the same.
pub proof fn law_log_always_replays<S: Default, T: Transition<S, E>, E>(
    machine: StateMachine<S, T, E>,
)
    requires
        machine.wf(),
        default_is_unique::<S>(),
    ensures
        always_replays::<S, T, E>(machine.entries()),
{
}

/// A state machine can be rebuilt from its log: building one from it gives the same log and the same
/// state, if `S::default()` is always the same. In particular a log whose entries were accepted one
/// by one is accepted as a whole.
pub proof fn law_rebuilding_restores_the_machine<S: Default, T: Transition<S, E>, E>(
    machine: StateMachine<S, T, E>,
    rebuilt: Result<StateMachine<S, T, E>, StateMachineError<E>>,
)
    requires
        machine.wf(),
        default_is_unique::<S>(),
        is_built(machine.entries(), rebuilt),
    ensures
        rebuilt matches Ok(copy) && copy.entries() == machine.entries() && copy.state()
            == machine.state(),
{
}

/// Building a state machine from a log at once and appending the last entry to one built from the
/// rest agree, if `S::default()` is always the same: both give the same log and state, or both are
/// refused in the same way and blame the same identifier. Only if the log has several unknown targets
/// may the two report different ones of these.
pub proof fn law_building_agrees_with_appending<S: Default, T: Transition<S, E>, E>(
    before: StateMachine<S, T, E>,
    entry: LogEntry<T>,
    result: Result<(), StateMachineError<E>>,
    after: StateMachine<S, T, E>,
    built: Result<StateMachine<S, T, E>, StateMachineError<E>>,
)
    requires
        before.wf(),
        default_is_unique::<S>(),
        is_applied(before, entry, result, after),
        is_built(before.entries().push(entry), built),
    ensures
        match (result, built) {
            (Ok(()), Ok(machine)) => {
                &&& machine.entries() == after.entries()
                &&& machine.state() == after.state()
            },
            (
                Err(StateMachineError::Transition(a, _)),
                Err(StateMachineError::Transition(b, _)),
            ) => a == b,
            (
                Err(StateMachineError::UnknownTarget(a)),
                Err(StateMachineError::UnknownTarget(b)),
            ) => {
                &&& is_unknown_target(before.entries().push(entry), a)
                &&& is_unknown_target(before.entries().push(entry), b)
                &&& has_at_most_one_unknown_target(before.entries().push(entry)) ==> a == b
            },
            _ => false,
        },
{
    let log = before.entries();
    let initial = choose|initial: S| #[trigger]
        is_default(initial) && replays_from::<S, T, E>(log, initial, Ok(before.state()));
    let outcome = match built {
        Ok(machine) => Ok::<S, StateMachineError<E>>(machine.state()),
        Err(err) => Err(err),
    };
    assert(replays_from::<S, T, E>(log.push(entry), initial, outcome));
    match entry.kind {
        LogEntryKind::Apply(transition) => {
            law_appended_transition_acts_last::<S, T, E>(
                log,
                initial,
                before.state(),
                entry,
                transition,
                outcome,
            );
        },
        LogEntryKind::Undo(target) => {
            if !has_id(log, target) {
                law_undo_of_nothing_is_the_only_unknown_target(log, entry, target, target);
            }
        },
    }
}

/// The entries whose application was accepted, in order.
pub open spec fn accepted<T, E>(
    entries: Seq<LogEntry<T>>,
    results: Seq<Result<(), StateMachineError<E>>>,
) -> Seq<LogEntry<T>>
    decreases entries.len(),
{
    if entries.len() == 0 {
        Seq::empty()
    } else {
        let before = accepted(entries.drop_last(), results.drop_last());
        if results.last() is Ok {
            before.push(entries.last())
        } else {
            before
        }
    }
}

/// Nothing is ever removed from the log, and nothing refused shows up in it: after any sequence of
/// applications, `machines` being the state machine before, between and after them, the log is the
/// one at the start followed by exactly the accepted entries, in order.
pub proof fn law_log_grows_by_what_is_accepted<S: Default, T: Transition<S, E>, E>(
    machines: Seq<StateMachine<S, T, E>>,
    entries: Seq<LogEntry<T>>,
    results: Seq<Result<(), StateMachineError<E>>>,
)
    requires
        machines.len() == entries.len() + 1,
        results.len() == entries.len(),
        forall|i: int|
            0 <= i < entries.len() ==> is_applied(
                machines[i],
                #[trigger] entries[i],
                results[i],
                machines[i + 1],
            ),
    ensures
        machines.last().entries() == machines.first().entries() + accepted(entries, results),
    decreases entries.len(),
{
    if entries.len() > 0 {
        let n = entries.len() - 1;
        assert forall|i: int| 0 <= i < n implies is_applied(
            machines.drop_last()[i],
            #[trigger] entries.drop_last()[i],
            results.drop_last()[i],
            machines.drop_last()[i + 1],
        ) by {
            assert(entries[i] == entries.drop_last()[i]);
        }
        law_log_grows_by_what_is_accepted(
            machines.drop_last(),
            entries.drop_last(),
            results.drop_last(),
        );
        assert(is_applied(machines[n], entries[n], results[n], machines[n + 1]));
    }
}

/// A boxed transition behaves just as the bare one, also if that is of an unsized type.
pub proof fn law_boxed_transition_behaves_as_the_bare_one<S, E, T: ?Sized + Transition<S, E>>(
    boxed: Box<T>,
    state: S,
    left: S,
    err: E,
)
    ensures
        Transition::<S, E>::applicable(&boxed, state) == (*boxed).applicable(state),
        Transition::<S, E>::applied(&boxed, state) == (*boxed).applied(state),
        Transition::<S, E>::fails_with(&boxed, state, err) == (*boxed).fails_with(state, err),
        Transition::<S, E>::may_leave(&boxed, state, left) == (*boxed).may_leave(state, left),
{
}

/// Recording an entry under a fresh identifier and then undoing it is always accepted, and brings
/// the state machine back to the state it was in, if `S::default()` is always the same.
pub proof fn law_undo_restores_the_state<S: Default, T: Transition<S, E>, E>(
    before: StateMachine<S, T, E>,
    entry: LogEntry<T>,
    undo: LogEntry<T>,
    outcome: Result<S, StateMachineError<E>>,
)
    requires
        before.wf(),
        default_is_unique::<S>(),
        !has_id(before.entries(), entry.id),
        undo.undoes(entry.id),
        replays::<S, T, E>(before.entries().push(entry).push(undo), outcome),
    ensures
        outcome == Ok::<S, StateMachineError<E>>(before.state()),
{
    let initial = choose|initial: S| #[trigger] is_default(initial);
    law_retracted_entry_has_no_effect::<S, T, E>(
        before.entries(),
        entry,
        undo,
        initial,
        outcome,
    );
    law_log_replays_to_the_state(before, outcome);
}

} // verus!
