# undoable_state_machine

A small, generic state machine whose transitions are applied through an append-only log and can be
selectively undone and redone by the id of a specific past transition, not just the most recent one.
It is written in Verus: every function carries a contract, and the contracts are proved.

The log never loses an entry. Undoing a transition is itself an entry, which targets the id of what
it undoes; undoing that entry redoes the original. An undo that a later, still active transition
depends on is refused, and the refusal names the first transition that would break.

Consumers supply the state `S` and the transition type `T: Transition<S>`. A transition must do the
same to the same state every time. Its error type is `Box<dyn Error + Send + Sync>` unless another
one is chosen (`Transition<S, E>`).

Transitions written in ordinary Rust work on any state. A verified one has to define the state it
leaves as a value of `S`, so `S` must be a type whose values a specification can build: integers,
`bool`, and structs, enums and tuples of such. A `Vec` is not one, since Verus knows its elements but
does not equate two vectors that hold the same.

## Layout

- `src/id.rs`: the ids of entries, random UUIDs drawn with the `uuid` crate.
- `src/transition.rs`: the `Transition` trait and its model.
- `src/log.rs`: log entries, and which of them are active.
- `src/replay.rs`: what replaying a log gives.
- `src/error.rs`, `src/machine.rs`: the state machine, verified against that model.
- `src/laws.rs`: what holds of logs, undos, redos and rebuilt machines in general.
- `tests/`: scenarios, with transitions written in ordinary Rust.

What is trusted without proof: the version and variant bits of a fresh UUID, and that transitions
implemented in ordinary Rust keep the contract of the `Transition` trait. The text that an id shows
itself as comes from the `uuid` crate, and nothing is claimed of it.
