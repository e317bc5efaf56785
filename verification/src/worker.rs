use vstd::prelude::*;

verus! {

/// A unit of work on a state of type `S`.
///
/// A worker reads the state in `cycle` and stages what it finds; in `apply` it
/// commits what it staged. The two relations say what one call may do. An
/// implementation that states nothing keeps their defaults, which admit every
/// outcome.
pub trait Worker<S>: Sized {
    /// Whether one `cycle` that reads `state` may turn `pre` into `post`.
    open spec fn cycled(pre: Self, state: S, post: Self) -> bool {
        true
    }

    /// Whether one `apply` may turn `pre` and `state` into `post` and `next`.
    open spec fn applied(pre: Self, state: S, post: Self, next: S) -> bool {
        true
    }

    /// Reads the state and stages this worker's results.
    fn cycle(&mut self, state: &S)
        ensures
            Self::cycled(*old(self), *state, *final(self)),
    ;

    /// Commits the staged results into the state.
    fn apply(&mut self, state: &mut S)
        ensures
            Self::applied(*old(self), *old(state), *final(self), *final(state)),
    ;
}

} // verus!
