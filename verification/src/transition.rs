//! What a transition is.

use std::error::Error;
use vstd::prelude::*;

verus! {

/// Transitions are dynamically dispatched, so their errors usually are too: a log can freely mix
/// transitions with unrelated error types.
pub type TransitionError = Box<dyn Error + Send + Sync>;

/// A transition that modifies state and can potentially error.
///
/// `S` is the state and `E` the error that the transition fails with. The four spec functions are
/// the model of a transition: what it does is a function of the transition and of the state it is
/// given, so the same transition does the same to the same state every time. By default they are
/// left open: a verified implementation defines them, one in ordinary Rust leaves them out.
pub trait Transition<S, E = TransitionError> {
    /// Whether [`Transition::check_applicable`] accepts `state`.
    open spec fn applicable(&self, state: S) -> bool {
        arbitrary()
    }

    /// The state that [`Transition::apply`] turns `state` into, or `None` if it fails on `state`.
    open spec fn applied(&self, state: S) -> Option<S> {
        arbitrary()
    }

    /// Whether `err` is an error that the transition may report when it fails on `state`, be it in
    /// the pre-check or, where that accepts `state`, while applying.
    open spec fn fails_with(&self, state: S, err: E) -> bool {
        arbitrary()
    }

    /// Whether `left` is what [`Transition::apply`] may leave of `state` when it fails on it.
    open spec fn may_leave(&self, state: S, left: S) -> bool {
        arbitrary()
    }

    /// Checks if the transition is applicable to the given state. This is used as a pre-check to
    /// prevent errors while mutating the state (which would invalidate the state).
    fn check_applicable(&self, state: &S) -> (result: Result<(), E>)
        ensures
            result is Ok <==> self.applicable(*state),
            result matches Err(err) ==> self.fails_with(*state, err),
    ;

    /// Applies the transition by mutating `state` in place.
    ///
    /// Must produce the same mutation for the same input state, every time.
    ///
    /// It is only called on a state that [`Transition::check_applicable`] has just accepted.
    ///
    /// If this method returns an error there is no guarantee as to the content of `state`, and
    /// callers must not use it anymore. Since getting the state back means replaying the log,
    /// errors should be rare and problems should be caught in [`Transition::check_applicable`].
    fn apply(&self, state: &mut S) -> (result: Result<(), E>)
        requires
            self.applicable(*old(state)),
        ensures
            result is Ok ==> self.applied(*old(state)) == Some(*final(state)),
            result is Err ==> self.applied(*old(state)) is None,
            result is Err ==> self.may_leave(*old(state), *final(state)),
            result matches Err(err) ==> self.fails_with(*old(state), err),
    ;
}

/// Useful when using `Box<dyn Transition<...> + ...>` as the transition type of a state machine.
impl<S, E, T: ?Sized + Transition<S, E>> Transition<S, E> for Box<T> {
    open spec fn applicable(&self, state: S) -> bool {
        (**self).applicable(state)
    }

    open spec fn applied(&self, state: S) -> Option<S> {
        (**self).applied(state)
    }

    open spec fn fails_with(&self, state: S, err: E) -> bool {
        (**self).fails_with(state, err)
    }

    open spec fn may_leave(&self, state: S, left: S) -> bool {
        (**self).may_leave(state, left)
    }

    fn check_applicable(&self, state: &S) -> (result: Result<(), E>)
        ensures
            call_ensures(<T as Transition<S, E>>::check_applicable, (&**self, state), result),
    {
        (**self).check_applicable(state)
    }

    fn apply(&self, state: &mut S) -> (result: Result<(), E>)
        ensures
            exists|arg: &mut S|
                #![trigger call_ensures(<T as Transition<S, E>>::apply, (&**self, arg), result)]
                {
                    &&& *arg == *old(state)
                    &&& *final(arg) == *final(state)
                    &&& call_ensures(<T as Transition<S, E>>::apply, (&**self, arg), result)
                },
    {
        (**self).apply(state)
    }
}

} // verus!
