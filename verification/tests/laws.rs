use undoable_state_machine::{
    LogEntry, LogEntryKind, StateMachine, StateMachineError, Transition, TransitionError,
    TransitionId,
};

/// Steps on a text, the order of which shows in the result.
enum Step {
    /// Appends the text.
    Say(&'static str),
    /// Appends to the text, then fails.
    Stutter,
    /// Only applicable if the text ends like this.
    After(&'static str),
}

#[derive(Debug, PartialEq, Eq)]
enum Refusal {
    Stuttered,
    Misses(String),
}

impl Transition<String, Refusal> for Step {
    fn check_applicable(&self, state: &String) -> Result<(), Refusal> {
        match self {
            Step::After(end) if !state.ends_with(end) => Err(Refusal::Misses(end.to_string())),
            _ => Ok(()),
        }
    }

    fn apply(&self, state: &mut String) -> Result<(), Refusal> {
        match self {
            Step::Say(text) => {
                state.push_str(text);
                Ok(())
            }
            Step::Stutter => {
                state.push_str("st-st");
                Err(Refusal::Stuttered)
            }
            Step::After(_) => Ok(()),
        }
    }
}

type Machine = StateMachine<String, Step, Refusal>;
type Entry = LogEntry<Step>;

fn step(step: Step) -> (TransitionId, Entry) {
    let id = TransitionId::new();
    (id, LogEntry::new(id, LogEntryKind::Apply(step)))
}

fn undo(target: TransitionId) -> (TransitionId, Entry) {
    let id = TransitionId::new();
    (id, LogEntry::new(id, LogEntryKind::Undo(target)))
}

/// The same entry once more.
fn copied(entry: &Entry) -> Entry {
    let kind = match &entry.kind {
        LogEntryKind::Apply(Step::Say(text)) => LogEntryKind::Apply(Step::Say(text)),
        LogEntryKind::Apply(Step::Stutter) => LogEntryKind::Apply(Step::Stutter),
        LogEntryKind::Apply(Step::After(end)) => LogEntryKind::Apply(Step::After(end)),
        LogEntryKind::Undo(target) => LogEntryKind::Undo(*target),
    };
    LogEntry::new(entry.id, kind)
}

fn rebuilt(machine: &Machine) -> Machine {
    Machine::build(machine.log().iter().map(copied).collect()).unwrap()
}

struct Add(i64);

impl Transition<i64> for Add {
    fn check_applicable(&self, _state: &i64) -> Result<(), TransitionError> {
        Ok(())
    }

    fn apply(&self, state: &mut i64) -> Result<(), TransitionError> {
        *state += self.0;
        Ok(())
    }
}

#[test]
fn undoing_the_first_of_two_and_restoring_a_recorded_log() {
    let mut sm = StateMachine::<i64, Box<dyn Transition<i64>>>::new();

    let first_id = TransitionId::new();
    sm.apply(LogEntry::new(first_id, LogEntryKind::Apply(Box::new(Add(5))))).unwrap();
    sm.apply(LogEntry::new(TransitionId::new(), LogEntryKind::Apply(Box::new(Add(3))))).unwrap();
    assert_eq!(*sm.current(), 8);

    sm.apply(LogEntry::new(TransitionId::new(), LogEntryKind::Undo(first_id))).unwrap();
    assert_eq!(*sm.current(), 3);

    let persisted: Vec<LogEntry<Box<dyn Transition<i64>>>> = vec![
        LogEntry::new(TransitionId::new(), LogEntryKind::Apply(Box::new(Add(1)))),
        LogEntry::new(TransitionId::new(), LogEntryKind::Apply(Box::new(Add(2)))),
    ];
    let restored = StateMachine::<i64, Box<dyn Transition<i64>>>::build(persisted).unwrap();
    assert_eq!(*restored.current(), 3);
}

#[test]
fn a_new_machine_is_empty() {
    let sm = Machine::new();
    assert_eq!(sm.current(), "");
    assert_eq!(sm.log().len(), 0);
    let sm = Machine::default();
    assert_eq!(sm.current(), "");
    assert_eq!(sm.log().len(), 0);
    let sm = Machine::build(vec![]).unwrap();
    assert_eq!(sm.current(), "");
}

#[test]
fn transitions_are_replayed_in_log_order() {
    let sm = Machine::build(vec![
        step(Step::Say("a")).1,
        step(Step::Say("b")).1,
        step(Step::After("b")).1,
        step(Step::Say("c")).1,
    ])
    .unwrap();
    assert_eq!(sm.current(), "abc");
}

#[test]
fn building_agrees_with_applying_one_by_one() {
    let mut sm = Machine::new();
    let (a, entry) = step(Step::Say("a"));
    sm.apply(entry).unwrap();
    sm.apply(step(Step::Say("b")).1).unwrap();
    sm.apply(step(Step::Say("c")).1).unwrap();
    let (u, entry) = undo(a);
    sm.apply(entry).unwrap();
    assert_eq!(sm.current(), "bc");
    sm.apply(step(Step::Say("d")).1).unwrap();
    assert_eq!(sm.current(), "bcd");
    sm.apply(undo(u).1).unwrap();
    assert_eq!(sm.current(), "abcd");

    let copy = rebuilt(&sm);
    assert_eq!(copy.current(), sm.current());
    assert_eq!(copy.log().len(), sm.log().len());
    for (x, y) in copy.log().iter().zip(sm.log()) {
        assert_eq!(x.id, y.id);
    }
}

#[test]
fn undo_leaves_out_its_target_wherever_it_is() {
    for k in 0..3 {
        let texts = ["a", "b", "c"];
        let mut sm = Machine::new();
        let mut ids = vec![];
        for text in texts {
            let (id, entry) = step(Step::Say(text));
            ids.push(id);
            sm.apply(entry).unwrap();
        }
        sm.apply(undo(ids[k]).1).unwrap();

        let mut left = Machine::new();
        for (i, text) in texts.iter().enumerate() {
            if i != k {
                left.apply(step(Step::Say(text)).1).unwrap();
            }
        }
        assert_eq!(sm.current(), left.current());
        assert_eq!(sm.log().len(), 4);
    }
}

#[test]
fn undoing_a_fresh_entry_restores_the_state() {
    let mut sm = Machine::new();
    let (a, entry) = step(Step::Say("a"));
    sm.apply(entry).unwrap();
    sm.apply(step(Step::Say("b")).1).unwrap();

    let (c, entry) = step(Step::Say("c"));
    sm.apply(entry).unwrap();
    sm.apply(undo(c).1).unwrap();
    assert_eq!(sm.current(), "ab");

    let (u, entry) = undo(a);
    sm.apply(entry).unwrap();
    assert_eq!(sm.current(), "b");
    let (v, entry) = undo(u);
    sm.apply(entry).unwrap();
    assert_eq!(sm.current(), "ab");
    sm.apply(undo(v).1).unwrap();
    assert_eq!(sm.current(), "b");
}

#[test]
fn undoing_twice_is_accepted_and_one_redo_is_not_enough() {
    let mut sm = Machine::new();
    let (a, entry) = step(Step::Say("a"));
    sm.apply(entry).unwrap();
    let (u, entry) = undo(a);
    sm.apply(entry).unwrap();
    let (v, entry) = undo(a);
    sm.apply(entry).unwrap();
    assert_eq!(sm.current(), "");
    sm.apply(undo(u).1).unwrap();
    assert_eq!(sm.current(), "");
    sm.apply(undo(v).1).unwrap();
    assert_eq!(sm.current(), "a");
}

#[test]
fn failure_while_applying_leaves_log_and_state_unmodified() {
    let mut sm = Machine::new();
    sm.apply(step(Step::Say("a")).1).unwrap();
    let (b, entry) = step(Step::Say("b"));
    sm.apply(entry).unwrap();
    sm.apply(undo(b).1).unwrap();
    let (id, entry) = step(Step::Stutter);
    match sm.apply(entry) {
        Err(StateMachineError::Transition(failed, err)) => {
            assert_eq!(failed, id);
            assert_eq!(err, Refusal::Stuttered);
        }
        other => panic!("expected the transition to fail, got {:?}", other),
    }
    assert_eq!(sm.current(), "a");
    assert_eq!(sm.log().len(), 3);
    sm.apply(step(Step::Say("c")).1).unwrap();
    assert_eq!(sm.current(), "ac");
}

#[test]
fn failing_pre_check_leaves_log_and_state_unmodified() {
    let mut sm = Machine::new();
    sm.apply(step(Step::Say("a")).1).unwrap();
    let (id, entry) = step(Step::After("b"));
    match sm.apply(entry) {
        Err(StateMachineError::Transition(failed, err)) => {
            assert_eq!(failed, id);
            assert_eq!(err, Refusal::Misses("b".to_string()));
        }
        other => panic!("expected the transition to be refused, got {:?}", other),
    }
    assert_eq!(sm.current(), "a");
    assert_eq!(sm.log().len(), 1);
}

#[test]
fn refused_undo_blames_the_first_dependent_entry() {
    let mut sm = Machine::new();
    let (a, entry) = step(Step::Say("a"));
    sm.apply(entry).unwrap();
    let (first, entry) = step(Step::After("a"));
    sm.apply(entry).unwrap();
    sm.apply(step(Step::After("a")).1).unwrap();
    sm.apply(step(Step::Say("b")).1).unwrap();
    match sm.apply(undo(a).1) {
        Err(StateMachineError::Transition(failed, err)) => {
            assert_eq!(failed, first);
            assert_eq!(err, Refusal::Misses("a".to_string()));
        }
        other => panic!("expected the undo to be refused, got {:?}", other),
    }
    assert_eq!(sm.current(), "ab");
    assert_eq!(sm.log().len(), 4);
}

#[test]
fn undoing_the_dependent_entry_first_makes_the_undo_acceptable() {
    let mut sm = Machine::new();
    let (a, entry) = step(Step::Say("a"));
    sm.apply(entry).unwrap();
    let (guard, entry) = step(Step::After("a"));
    sm.apply(entry).unwrap();
    assert!(sm.apply(undo(a).1).is_err());
    sm.apply(undo(guard).1).unwrap();
    sm.apply(undo(a).1).unwrap();
    assert_eq!(sm.current(), "");
}

#[test]
fn undone_entries_are_ignored_when_building() {
    let (failing, entry) = step(Step::Stutter);
    let sm = Machine::build(vec![step(Step::Say("a")).1, entry, undo(failing).1]).unwrap();
    assert_eq!(sm.current(), "a");

    let (failing, entry) = step(Step::After("z"));
    let sm = Machine::build(vec![step(Step::Say("a")).1, entry, undo(failing).1]).unwrap();
    assert_eq!(sm.current(), "a");
}

#[test]
fn undone_undo_may_lack_its_target_until_it_is_reactivated() {
    let unknown = TransitionId::new();
    let (u, dangling) = undo(unknown);
    let (v, retraction) = undo(u);
    let mut sm = Machine::build(vec![step(Step::Say("a")).1, dangling, retraction]).unwrap();
    assert_eq!(sm.current(), "a");
    match sm.apply(undo(v).1) {
        Err(StateMachineError::UnknownTarget(id)) => assert_eq!(id, unknown),
        other => panic!("expected an unknown target, got {:?}", other),
    }
    assert_eq!(sm.current(), "a");
    assert_eq!(sm.log().len(), 3);
}

#[test]
fn one_of_several_unknown_targets_is_reported() {
    let x = TransitionId::new();
    let y = TransitionId::new();
    match Machine::build(vec![undo(x).1, undo(y).1]) {
        Err(StateMachineError::UnknownTarget(id)) => assert!(id == x || id == y),
        _ => panic!("expected an unknown target"),
    }
}

#[test]
fn an_undo_between_two_targets_finds_the_earlier_one() {
    let id = TransitionId::new();
    let say = |text| LogEntry::new(id, LogEntryKind::Apply(Step::Say(text)));
    let sm = Machine::build(vec![say("a"), undo(id).1, say("b")]).unwrap();
    assert_eq!(sm.current(), "b");

    match Machine::build(vec![undo(id).1, say("a"), undo(id).1]) {
        Err(StateMachineError::UnknownTarget(target)) => assert_eq!(target, id),
        _ => panic!("expected an unknown target"),
    }
}

#[test]
fn an_undo_cannot_target_itself() {
    let id = TransitionId::new();
    let mut sm = Machine::new();
    match sm.apply(LogEntry::new(id, LogEntryKind::Undo(id))) {
        Err(StateMachineError::UnknownTarget(target)) => assert_eq!(target, id),
        other => panic!("expected an unknown target, got {:?}", other),
    }
    assert_eq!(sm.log().len(), 0);
}

#[test]
fn log_keeps_identifiers_and_kinds() {
    let mut sm = Machine::new();
    let (a, entry) = step(Step::Say("a"));
    sm.apply(entry).unwrap();
    let (u, entry) = undo(a);
    sm.apply(entry).unwrap();
    assert_eq!(sm.log().len(), 2);
    assert_eq!(sm.log()[0].id, a);
    assert!(matches!(sm.log()[0].kind, LogEntryKind::Apply(Step::Say("a"))));
    assert_eq!(sm.log()[1].id, u);
    assert!(matches!(sm.log()[1].kind, LogEntryKind::Undo(target) if target == a));
}

struct FailHalfway(i64);

impl Transition<i64> for FailHalfway {
    fn check_applicable(&self, state: &i64) -> Result<(), TransitionError> {
        if *state < 0 {
            Err("negative".to_string().into())
        } else {
            Ok(())
        }
    }

    fn apply(&self, state: &mut i64) -> Result<(), TransitionError> {
        *state += self.0;
        Err("boom".to_string().into())
    }
}

#[test]
fn a_boxed_transition_hands_result_and_mutation_through() {
    let mut state: i64 = 5;
    let boxed: Box<dyn Transition<i64>> = Box::new(FailHalfway(100));
    assert!(boxed.check_applicable(&state).is_ok());
    assert_eq!(boxed.apply(&mut state).unwrap_err().to_string(), "boom");
    assert_eq!(state, 105);
    assert_eq!(boxed.check_applicable(&-1).unwrap_err().to_string(), "negative");

    let sized = Box::new(Add(7));
    assert!(sized.check_applicable(&state).is_ok());
    assert!(sized.apply(&mut state).is_ok());
    assert_eq!(state, 112);
}

#[test]
fn building_agrees_with_appending_on_refusals() {
    for last in 0..4 {
        let (a, first) = step(Step::Say("a"));
        let (_, guard) = step(Step::After("a"));
        let entry = match last {
            0 => step(Step::Stutter).1,
            1 => step(Step::After("z")).1,
            2 => undo(a).1,
            _ => undo(TransitionId::new()).1,
        };
        let mut log = vec![first, guard];
        let mut sm = Machine::build(log.iter().map(copied).collect()).unwrap();
        log.push(copied(&entry));
        let appended = sm.apply(entry).unwrap_err();
        match (appended, Machine::build(log)) {
            (
                StateMachineError::Transition(x, e),
                Err(StateMachineError::Transition(y, f)),
            ) => {
                assert_eq!(x, y);
                assert_eq!(e, f);
                assert!(last < 3);
            }
            (StateMachineError::UnknownTarget(x), Err(StateMachineError::UnknownTarget(y))) => {
                assert_eq!(x, y);
                assert_eq!(last, 3);
            }
            _ => panic!("building and appending disagree"),
        }
    }
}

#[test]
fn a_log_that_fails_to_replay_fails_alike_with_a_transition_appended() {
    let (id, failing) = step(Step::After("z"));
    match Machine::build(vec![step(Step::Say("a")).1, failing, step(Step::Say("z")).1]) {
        Err(StateMachineError::Transition(failed, err)) => {
            assert_eq!(failed, id);
            assert_eq!(err, Refusal::Misses("z".to_string()));
        }
        _ => panic!("expected the build to fail"),
    }
}

#[test]
fn log_is_the_start_log_plus_the_accepted_entries() {
    let (a, first) = step(Step::Say("a"));
    let mut sm = Machine::build(vec![first]).unwrap();
    let mut expected = vec![a];
    let (b, say) = step(Step::Say("b"));
    let (u, undo_a) = undo(a);
    let calls = vec![
        (say, true),
        (step(Step::Stutter).1, false),
        (step(Step::After("z")).1, false),
        (undo_a, true),
        (undo(TransitionId::new()).1, false),
        (undo(u).1, true),
    ];
    for (entry, accepted) in calls {
        let id = entry.id;
        assert_eq!(sm.apply(entry).is_ok(), accepted);
        if accepted {
            expected.push(id);
        }
        let ids: Vec<TransitionId> = sm.log().iter().map(|entry| entry.id).collect();
        assert_eq!(ids, expected);
    }
    assert_eq!(expected[1], b);
    assert_eq!(sm.current(), "ab");
}

#[test]
fn an_undo_of_a_known_target_is_refused_only_for_a_failing_transition() {
    let mut sm = Machine::new();
    let (a, entry) = step(Step::Say("a"));
    sm.apply(entry).unwrap();
    let (_, guard) = step(Step::After("a"));
    sm.apply(guard).unwrap();
    assert!(matches!(sm.apply(undo(a).1), Err(StateMachineError::Transition(_, _))));
}

#[test]
fn undoing_twice_is_undoing_once_and_undos_commute() {
    for swap in [false, true] {
        let mut sm = Machine::new();
        let (a, entry) = step(Step::Say("a"));
        sm.apply(entry).unwrap();
        sm.apply(step(Step::Say("b")).1).unwrap();
        let (c, entry) = step(Step::Say("c"));
        sm.apply(entry).unwrap();
        let (first, second) = if swap { (c, a) } else { (a, c) };
        sm.apply(undo(first).1).unwrap();
        sm.apply(undo(second).1).unwrap();
        assert_eq!(sm.current(), "b");
        sm.apply(undo(a).1).unwrap();
        assert_eq!(sm.current(), "b");
    }
}
