use std::collections::HashSet;

use undoable_state_machine::{StateMachineError, TransitionId};
use uuid::Uuid;

/// The UUID that the debug output of an identifier shows.
fn uuid(id: TransitionId) -> Uuid {
    let shown = format!("{:?}", id);
    let inner = shown.trim_start_matches("TransitionId(").trim_end_matches(')');
    Uuid::parse_str(inner).unwrap()
}

fn bits(id: TransitionId) -> u128 {
    uuid(id).as_u128()
}

#[test]
fn fresh_ids_differ() {
    let ids: HashSet<TransitionId> = (0..1000).map(|_| TransitionId::new()).collect();
    assert_eq!(ids.len(), 1000);
    assert_ne!(TransitionId::default(), TransitionId::default());
}

#[test]
fn ids_are_copied_and_compared_by_value() {
    let id = TransitionId::new();
    let copy = id;
    assert_eq!(id, copy);
    assert_eq!(bits(id), bits(copy));
}

#[test]
fn fresh_ids_carry_version_and_variant_of_a_random_uuid() {
    for _ in 0..100 {
        let fresh = bits(TransitionId::new());
        assert_eq!((fresh >> 76) & 0xf, 4);
        assert_eq!((fresh >> 62) & 0x3, 2);
        let default = bits(TransitionId::default());
        assert_eq!((default >> 76) & 0xf, 4);
        assert_eq!((default >> 62) & 0x3, 2);
        assert_eq!(Uuid::from_u128(fresh).get_version_num(), 4);
        assert_eq!(Uuid::from_u128(fresh).get_variant(), uuid::Variant::RFC4122);
    }
}

#[derive(Debug)]
#[allow(dead_code)]
struct Shown(Uuid);

#[test]
fn ids_are_shown_as_hyphenated_uuids() {
    let id = TransitionId::new();
    let inner = uuid(id).hyphenated().to_string();
    assert_eq!(inner.len(), 36);
    assert_eq!(format!("{:?}", id), format!("TransitionId({})", inner));
    assert_eq!(
        format!("{:#?}", id),
        format!("{:#?}", Shown(uuid(id))).replace("Shown", "TransitionId")
    );
    assert_eq!(
        format!("{:?}", StateMachineError::<u8>::UnknownTarget(id)),
        format!("UnknownTarget(TransitionId({}))", inner)
    );
    assert_ne!(format!("{:?}", id), format!("{:?}", TransitionId::new()));
}
