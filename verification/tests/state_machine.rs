use undoable_state_machine::{
    LogEntry, LogEntryKind, StateMachine, StateMachineError, Transition, TransitionError,
    TransitionId,
};

struct Add(i64);

type I64Transition = Box<dyn Transition<i64>>;

impl Transition<i64> for Add {
    fn check_applicable(&self, _state: &i64) -> Result<(), TransitionError> {
        Ok(())
    }

    fn apply(&self, state: &mut i64) -> Result<(), TransitionError> {
        *state += self.0;
        Ok(())
    }
}

// Always reports itself as applicable, then fails inside `apply` after
// already mutating `state` — models a transition whose `apply` breaks the
// "should be rare/avoided" guidance, to exercise that failure path.
struct FailDuringApply(i64);

impl Transition<i64> for FailDuringApply {
    fn check_applicable(&self, _state: &i64) -> Result<(), TransitionError> {
        Ok(())
    }

    fn apply(&self, state: &mut i64) -> Result<(), TransitionError> {
        *state += self.0;
        Err("boom".to_string().into())
    }
}

// Not applicable unless `state` is already at least `self.0` — used to make a
// later entry's success depend on an earlier one still being active.
struct RequireAtLeast(i64);

impl Transition<i64> for RequireAtLeast {
    fn check_applicable(&self, state: &i64) -> Result<(), TransitionError> {
        if *state < self.0 {
            Err(format!("need at least {}, have {}", self.0, state).into())
        } else {
            Ok(())
        }
    }

    fn apply(&self, _state: &mut i64) -> Result<(), TransitionError> {
        Ok(())
    }
}

fn apply_entry(value: i64) -> LogEntry<I64Transition> {
    LogEntry {
        id: TransitionId::new(),
        kind: LogEntryKind::Apply(Box::new(Add(value))),
    }
}

#[test]
fn append_success_updates_current() {
    let mut sm = StateMachine::<i64, I64Transition>::default();
    sm.apply(apply_entry(5)).unwrap();
    sm.apply(apply_entry(3)).unwrap();
    assert_eq!(*sm.current(), 8);
}

#[test]
fn append_rejects_a_not_applicable_transition_without_mutating_state() {
    let mut sm = StateMachine::<i64, I64Transition>::default();
    sm.apply(apply_entry(5)).unwrap();

    let entry: LogEntry<I64Transition> = LogEntry {
        id: TransitionId::new(),
        kind: LogEntryKind::Apply(Box::new(RequireAtLeast(10))),
    };
    let failing_id = entry.id;
    let err = sm.apply(entry).unwrap_err();

    match err {
        StateMachineError::Transition(id, _) => assert_eq!(id, failing_id),
        _ => panic!("expected StateMachineError::Transition"),
    }
    assert_eq!(*sm.current(), 5);
    assert_eq!(sm.log().len(), 1);
}

#[test]
fn append_apply_failure_does_not_grow_log() {
    let mut sm = StateMachine::<i64, I64Transition>::default();
    sm.apply(apply_entry(5)).unwrap();

    let entry: LogEntry<I64Transition> = LogEntry {
        id: TransitionId::new(),
        kind: LogEntryKind::Apply(Box::new(FailDuringApply(100))),
    };
    let failing_id = entry.id;
    let err = sm.apply(entry).unwrap_err();

    match err {
        StateMachineError::Transition(id, err) => {
            assert_eq!(id, failing_id);
            assert_eq!(err.to_string(), "boom");
        }
        _ => panic!("expected StateMachineError::Transition"),
    }
    // The failing entry is never recorded in the log. `current` was
    // already mutated by `apply` before it failed though, so per
    // `Transition::apply`'s contract it must now be treated as dirty and
    // not relied upon — recovery means rebuilding from the (unaffected) log.
    assert_eq!(sm.log().len(), 1);

    let rebuilt = StateMachine::<i64, I64Transition>::build(vec![apply_entry(5)]).unwrap();
    assert_eq!(*rebuilt.current(), 5);
}

#[test]
fn undo_cancels_a_prior_apply() {
    let mut sm = StateMachine::<i64, I64Transition>::default();
    let first: LogEntry<I64Transition> = LogEntry {
        id: TransitionId::new(),
        kind: LogEntryKind::Apply(Box::new(Add(5))),
    };
    let first_id = first.id;
    sm.apply(first).unwrap();
    sm.apply(apply_entry(3)).unwrap();
    assert_eq!(*sm.current(), 8);

    sm.apply(LogEntry {
        id: TransitionId::new(),
        kind: LogEntryKind::Undo(first_id),
    })
    .unwrap();

    assert_eq!(*sm.current(), 3);
}

#[test]
fn undo_of_unknown_target_is_rejected() {
    let mut sm = StateMachine::<i64, I64Transition>::default();
    sm.apply(apply_entry(5)).unwrap();

    let err = sm
        .apply(LogEntry {
            id: TransitionId::new(),
            kind: LogEntryKind::Undo(TransitionId::new()),
        })
        .unwrap_err();

    assert!(matches!(err, StateMachineError::UnknownTarget(_)));
    assert_eq!(*sm.current(), 5);
    assert_eq!(sm.log().len(), 1);
}

#[test]
fn undo_that_breaks_a_later_entry_is_rejected_and_blames_that_entry() {
    let mut sm = StateMachine::<i64, I64Transition>::default();

    let add: LogEntry<I64Transition> = LogEntry {
        id: TransitionId::new(),
        kind: LogEntryKind::Apply(Box::new(Add(10))),
    };
    let add_id = add.id;
    sm.apply(add).unwrap();

    // Only succeeds while `add`'s effect is still active.
    let guard: LogEntry<I64Transition> = LogEntry {
        id: TransitionId::new(),
        kind: LogEntryKind::Apply(Box::new(RequireAtLeast(10))),
    };
    let guard_id = guard.id;
    sm.apply(guard).unwrap();

    let err = sm
        .apply(LogEntry {
            id: TransitionId::new(),
            kind: LogEntryKind::Undo(add_id),
        })
        .unwrap_err();

    match err {
        StateMachineError::Transition(id, _) => assert_eq!(id, guard_id),
        _ => panic!("expected AppendError::Transition"),
    }
    // The undo itself is rejected: current and the log are unaffected.
    assert_eq!(*sm.current(), 10);
    assert_eq!(sm.log().len(), 2);
}

#[test]
fn build_computes_current_from_a_log() {
    let a = apply_entry(5);
    let a_id = a.id;
    let b = apply_entry(3);
    let undo_a = LogEntry {
        id: TransitionId::new(),
        kind: LogEntryKind::Undo(a_id),
    };

    let sm = StateMachine::build(vec![a, b, undo_a]).unwrap();

    assert_eq!(*sm.current(), 3);
    assert_eq!(sm.log().len(), 3);
}

#[test]
fn build_surfaces_the_failing_transition() {
    let entry: LogEntry<I64Transition> = LogEntry {
        id: TransitionId::new(),
        kind: LogEntryKind::Apply(Box::new(FailDuringApply(100))),
    };
    let failing_id = entry.id;

    match StateMachine::<i64, I64Transition>::build(vec![entry]) {
        Err(StateMachineError::Transition(id, err)) => {
            assert_eq!(id, failing_id);
            assert_eq!(err.to_string(), "boom");
        }
        Ok(_) => panic!("expected build to fail"),
        Err(other) => panic!("expected StateMachineError::Transition, got {other:?}"),
    }
}

#[test]
fn build_rejects_undo_of_an_unknown_target() {
    let unknown_id = TransitionId::new();
    let undo = LogEntry {
        id: TransitionId::new(),
        kind: LogEntryKind::Undo(unknown_id),
    };

    match StateMachine::<i64, I64Transition>::build(vec![undo]) {
        Err(StateMachineError::UnknownTarget(id)) => assert_eq!(id, unknown_id),
        Ok(_) => panic!("expected build to fail"),
        Err(other) => panic!("expected StateMachineError::UnknownTarget, got {other:?}"),
    }
}

#[test]
fn build_rejects_undo_appearing_before_its_target() {
    let a = apply_entry(5);
    let a_id = a.id;
    let undo_a = LogEntry {
        id: TransitionId::new(),
        kind: LogEntryKind::Undo(a_id),
    };

    match StateMachine::<i64, I64Transition>::build(vec![undo_a, a]) {
        Err(StateMachineError::UnknownTarget(id)) => assert_eq!(id, a_id),
        Ok(_) => panic!("expected build to fail"),
        Err(other) => panic!("expected StateMachineError::UnknownTarget, got {other:?}"),
    }
}

#[test]
fn build_allows_undoing_an_undo_to_reactivate_the_original() {
    let a = apply_entry(5);
    let a_id = a.id;
    let undo_a = LogEntry {
        id: TransitionId::new(),
        kind: LogEntryKind::Undo(a_id),
    };
    let undo_a_id = undo_a.id;
    let undo_undo_a = LogEntry {
        id: TransitionId::new(),
        kind: LogEntryKind::Undo(undo_a_id),
    };

    let sm = StateMachine::build(vec![a, undo_a, undo_undo_a]).unwrap();

    assert_eq!(*sm.current(), 5);
}
