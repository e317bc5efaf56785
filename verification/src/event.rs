use std::sync::Arc;
use vstd::prelude::*;

verus! {

/// The two steps of a tick.
#[derive(Clone, Copy, Debug, PartialEq, Eq, Structural)]
pub enum Phase {
    /// Every worker reads the state.
    Cycle,
    /// Every worker writes the state.
    Apply,
}

/// The one message a processor ever receives: a view of the state, tagged with
/// the phase to run on it.
///
/// A `Cycle` view is one of many handles on the state. An `Apply` view has to
/// be the only handle there is, or the processor refuses it.
pub enum Event<S> {
    Cycle(Arc<S>),
    Apply(Arc<S>),
}

/// What a processor answers once it has served an event.
pub enum Reply<S> {
    /// Every worker has read the state, and the view is released.
    Cycled,
    /// Every worker has written the state, which comes back.
    Applied(Arc<S>),
    /// The view was not the only handle on the state: no worker ran, and the
    /// view comes back as it was.
    Refused(Arc<S>),
}

/// Why a signal could not be carried out. None of these can be recovered from.
#[derive(Clone, Copy, Debug, PartialEq, Eq, Structural)]
pub enum Fault {
    /// The other end of a channel is gone.
    Disconnected,
    /// A processor found other handles on the state it was to write.
    Shared,
    /// A processor answered something else than what it was asked.
    Mismatch,
    /// A processor has served an event and could not hand its answer on: the
    /// conductor's end of the channel is gone.
    Undelivered,
}

impl<S> Event<S> {
    /// The phase this event asks for.
    pub open spec fn spec_phase(&self) -> Phase {
        match self {
            Event::Cycle(_) => Phase::Cycle,
            Event::Apply(_) => Phase::Apply,
        }
    }

    /// The state this event gives a view of.
    pub open spec fn state(&self) -> S {
        match self {
            Event::Cycle(view) => **view,
            Event::Apply(view) => **view,
        }
    }

    /// The phase this event asks for.
    #[verifier::when_used_as_spec(spec_phase)]
    pub fn phase(&self) -> (phase: Phase)
        ensures
            phase == self.spec_phase(),
    {
        match self {
            Event::Cycle(_) => Phase::Cycle,
            Event::Apply(_) => Phase::Apply,
        }
    }
}

} // verus!
