use crate::event::{Event, Fault, Phase, Reply};
use crate::link::{bounded, recv, send};
use crate::processor::{made_in_order, Deed, Processor};
use crate::worker::Worker;
use crossbeam_channel::{Receiver, RecvError, Sender};
use std::sync::Arc;
use vstd::prelude::*;

verus! {

/// How many events may wait in a channel: one, so that a second signal cannot
/// be queued behind one that is not answered yet.
const SLOT: usize = 1;

/// Whether every constructor of `makers` can be called.
pub open spec fn callable<W, F: FnOnce() -> W>(makers: Seq<F>) -> bool {
    forall|i: int| 0 <= i < makers.len() ==> call_requires(#[trigger] makers[i], ())
}

/// Whether `workers` is what the constructors `makers` may return, place by
/// place.
pub open spec fn built<W, F: FnOnce() -> W>(makers: Seq<F>, workers: Seq<W>) -> bool {
    &&& workers.len() == makers.len()
    &&& forall|i: int|
        #![trigger makers[i]]
        #![trigger workers[i]]
        0 <= i < makers.len() ==> call_ensures(makers[i], (), workers[i])
}

/// The conductor's handle on one execution context.
///
/// Until it is started it collects the constructors of the workers that the
/// context is to host, and keeps the processor's ends of the two channels.
/// Starting it hands both over. From then on it only signals and waits.
///
/// It keeps the number of slots that it asked for when it made its channels.
/// For the contracts it keeps two more things: the phase that is signalled
/// and not acknowledged yet, and every signal that it has handed to its
/// channel, oldest first, each with the state that it gave a view of.
#[verifier::reject_recursive_types(S)]
pub struct Thread<S, F> {
    initializers: Vec<F>,
    wake_signal: Sender<Event<S>>,
    end_signal: Receiver<Reply<S>>,
    processor_signals: Option<(Receiver<Event<S>>, Sender<Reply<S>>)>,
    slots: usize,
    outstanding: Ghost<Option<Phase>>,
    signalled: Ghost<Seq<(Phase, S)>>,
}

/// What a started thread leaves for its execution context: the constructors,
/// in the order of their registration, and the processor's channel ends.
#[verifier::reject_recursive_types(S)]
pub struct Seed<S, F> {
    initializers: Vec<F>,
    wake_signal: Receiver<Event<S>>,
    end_signal: Sender<Reply<S>>,
}

impl<S, F> Seed<S, F> {
    /// The constructors, in the order of their registration.
    pub closed spec fn makers(&self) -> Seq<F> {
        self.initializers@
    }

    /// The channel ends that the processor will listen and answer on.
    pub closed spec fn ends(&self) -> (Receiver<Event<S>>, Sender<Reply<S>>) {
        (self.wake_signal, self.end_signal)
    }

    /// The number of constructors.
    pub fn len(&self) -> (len: usize)
        ensures
            len == self.makers().len(),
    {
        self.initializers.len()
    }
}

impl<S, W: Worker<S>, F: FnOnce() -> W> Seed<S, F> {
    /// Calls every constructor once, one after the other in the order of
    /// registration, and makes the processor that hosts the workers they
    /// return, each at the place of its constructor. The processor's record
    /// begins with these calls, in that order. This is to run on the
    /// execution context that the workers are to live on.
    pub fn build(self) -> (processor: Processor<S, W>)
        requires
            callable(self.makers()),
        ensures
            built(self.makers(), processor@),
            processor.deeds() == made_in_order(self.makers().len()),
            processor.ends() == self.ends(),
            processor.received() == Seq::<Event<S>>::empty(),
            processor.answered() == Seq::<Reply<S>>::empty(),
    {
        let ghost makers = self.initializers@;
        let ghost plan = made_in_order(makers.len());
        let ghost mut made: Seq<Deed> = Seq::empty();
        let mut workers: Vec<W> = Vec::new();
        for maker in it: self.initializers
            invariant
                it.seq() == makers,
                callable(makers),
                workers@.len() == it.index(),
                plan == made_in_order(makers.len()),
                made == plan.take(it.index() as int),
                forall|i: int| 0 <= i < it.index() ==> call_ensures(makers[i], (), #[trigger] workers@[i]),
        {
            let worker = maker();
            proof {
                let place = workers@.len() as int;
                assert(plan.take(place + 1) == plan.take(place).push(Deed::Made { place }));
                made = made.push(Deed::Made { place });
            }
            workers.push(worker);
        }
        proof {
            assert(plan.take(makers.len() as int) == plan);
        }
        Processor::new(workers, self.wake_signal, self.end_signal, Ghost(made))
    }
}

impl<S, F> Thread<S, F> {
    /// Whether this thread has been started.
    pub closed spec fn spec_is_started(&self) -> bool {
        self.processor_signals is None
    }

    /// The constructors registered and not yet handed over.
    pub closed spec fn pending(&self) -> Seq<F> {
        self.initializers@
    }

    /// The phase that was signalled and is not acknowledged yet, if any.
    pub closed spec fn outstanding(&self) -> Option<Phase> {
        self.outstanding@
    }

    /// The channel ends this handle signals and waits on.
    pub closed spec fn ends(&self) -> (Sender<Event<S>>, Receiver<Reply<S>>) {
        (self.wake_signal, self.end_signal)
    }

    /// The processor's channel ends, as long as this thread keeps them.
    pub closed spec fn processor_ends(&self) -> Option<(Receiver<Event<S>>, Sender<Reply<S>>)> {
        self.processor_signals
    }

    /// Every signal handed to the channel so far, oldest first: its phase, and
    /// the state that it gave a view of.
    pub closed spec fn signalled(&self) -> Seq<(Phase, S)> {
        self.signalled@
    }

    /// This thread with `phase` outstanding, and all else the same.
    pub closed spec fn marked(self, phase: Option<Phase>) -> Self {
        Thread { outstanding: Ghost(phase), ..self }
    }

    /// This thread after one more signal was handed to its channel: `phase`,
    /// with a view of `state`. All else is the same.
    pub closed spec fn having_signalled(self, phase: Phase, state: S) -> Self {
        Thread { signalled: Ghost(self.signalled@.push((phase, state))), ..self }
    }

    /// How many events may wait in each of the two channels of this thread:
    /// the capacity that both were made with.
    pub closed spec fn spec_slots(&self) -> usize {
        self.slots
    }

    /// How many events may wait in each of the two channels of this thread.
    #[verifier::when_used_as_spec(spec_slots)]
    pub fn slots(&self) -> (slots: usize)
        ensures
            slots == self.spec_slots(),
    {
        self.slots
    }

    /// A thread that is not started, with no constructor and nothing
    /// outstanding. Each of its two channels is made with one slot.
    pub fn new() -> (thread: Self)
        ensures
            thread.slots() == 1,
            !thread.is_started(),
            thread.processor_ends() is Some,
            thread.pending() == Seq::<F>::empty(),
            thread.outstanding() is None,
            thread.signalled() == Seq::<(Phase, S)>::empty(),
    {
        let slots: usize = SLOT;
        let (wake_sender, wake_receiver) = bounded(slots);
        let (end_sender, end_receiver) = bounded(slots);
        Thread {
            initializers: Vec::new(),
            wake_signal: wake_sender,
            end_signal: end_receiver,
            processor_signals: Some((wake_receiver, end_sender)),
            slots,
            outstanding: Ghost(None),
            signalled: Ghost(Seq::empty()),
        }
    }

    /// Whether this thread has been started.
    #[verifier::when_used_as_spec(spec_is_started)]
    pub fn is_started(&self) -> (started: bool)
        ensures
            started == self.spec_is_started(),
    {
        self.processor_signals.is_none()
    }

    /// Registers the constructor of one more worker, behind those registered
    /// before. Only a thread that is not started takes one.
    pub fn add(&mut self, f: F)
        requires
            !old(self).is_started(),
        ensures
            final(self).pending() == old(self).pending().push(f),
            !final(self).is_started(),
            final(self).processor_ends() == old(self).processor_ends(),
            final(self).ends() == old(self).ends(),
            final(self).outstanding() == old(self).outstanding(),
            final(self).signalled() == old(self).signalled(),
            final(self).slots() == old(self).slots(),
    {
        self.initializers.push(f);
    }

    /// Registers the constructor of one more worker if the thread is not
    /// started, and refuses it if the thread is started.
    ///
    /// Whether it is refused depends on that alone: not on the constructor, not
    /// on what was registered or refused before, not on what the processor is
    /// doing. A started thread stays started, so it refuses every time. A
    /// refused constructor comes back, and the thread is as it was.
    pub fn try_add(&mut self, f: F) -> (added: Result<(), F>)
        ensures
            added is Err <==> old(self).is_started(),
            final(self).is_started() == old(self).is_started(),
            match added {
                Ok(()) => {
                    &&& final(self).pending() == old(self).pending().push(f)
                    &&& final(self).processor_ends() == old(self).processor_ends()
                    &&& final(self).ends() == old(self).ends()
                    &&& final(self).outstanding() == old(self).outstanding()
                    &&& final(self).signalled() == old(self).signalled()
                    &&& final(self).slots() == old(self).slots()
                },
                Err(back) => back == f && *final(self) == *old(self),
            },
    {
        if self.is_started() {
            Err(f)
        } else {
            self.add(f);
            Ok(())
        }
    }

    /// Starts the thread: hands over every constructor registered so far,
    /// together with the processor's channel ends. A thread starts once.
    pub fn start(&mut self) -> (seed: Seed<S, F>)
        requires
            !old(self).is_started(),
        ensures
            final(self).is_started(),
            final(self).pending() == Seq::<F>::empty(),
            final(self).ends() == old(self).ends(),
            final(self).outstanding() == old(self).outstanding(),
            final(self).signalled() == old(self).signalled(),
            final(self).slots() == old(self).slots(),
            seed.makers() == old(self).pending(),
            Some(seed.ends()) == old(self).processor_ends(),
    {
        let signals = self.processor_signals.take();
        let (wake_signal, end_signal) = signals.unwrap();
        let mut initializers: Vec<F> = Vec::new();
        std::mem::swap(&mut self.initializers, &mut initializers);
        Seed { initializers, wake_signal, end_signal }
    }

    /// Signals a `Cycle` on `view`, which the processor reads and releases
    /// before it answers. Nothing may be outstanding; afterwards the `Cycle`
    /// is, until `wait` has collected its answer, and it is on record as
    /// signalled on the state of `view`. If the signal cannot be handed over,
    /// nothing has changed.
    pub fn cycle(&mut self, view: Arc<S>) -> (sent: Result<(), Fault>)
        requires
            old(self).outstanding() is None,
        ensures
            final(self).is_started() == old(self).is_started(),
            match sent {
                Ok(()) => *final(self) == old(self).marked(Some(Phase::Cycle)).having_signalled(
                    Phase::Cycle,
                    *view,
                ),
                Err(fault) => fault == Fault::Disconnected && *final(self) == *old(self),
            },
    {
        let event = Event::Cycle(view);
        let ghost signal = (event.spec_phase(), event.state());
        match send(&self.wake_signal, event) {
            Ok(()) => {
                self.outstanding = Ghost(Some(signal.0));
                self.signalled = Ghost(self.signalled@.push(signal));
                Ok(())
            },
            Err(_) => Err(Fault::Disconnected),
        }
    }

    /// Blocks until the processor has answered the outstanding `Cycle`. With
    /// the answer nothing is outstanding any more. An answer of another kind
    /// is a `Mismatch`; with no answer at all the `Cycle` stays outstanding.
    /// What is received decides the result, as `acknowledge` says.
    pub fn wait(&mut self) -> (acknowledged: Result<(), Fault>)
        requires
            old(self).outstanding() == Some(Phase::Cycle),
        ensures
            final(self).is_started() == old(self).is_started(),
            match acknowledged {
                Ok(()) => *final(self) == old(self).marked(None),
                Err(Fault::Mismatch) => *final(self) == old(self).marked(None),
                Err(Fault::Disconnected) => *final(self) == *old(self),
                Err(Fault::Shared) => false,
                Err(Fault::Undelivered) => false,
            },
    {
        let received = recv(&self.end_signal);
        if received.is_ok() {
            self.outstanding = Ghost(None);
        }
        Self::acknowledge(received)
    }

    /// What waiting for the end of a `Cycle` comes to with what was received:
    /// success with the answer `Cycled`; `Mismatch` with any other answer;
    /// `Disconnected` where the channel gave none.
    pub open spec fn acknowledged(received: Result<Reply<S>, RecvError>) -> Result<(), Fault> {
        match received {
            Ok(Reply::Cycled) => Ok(()),
            Ok(Reply::Applied(_)) => Err(Fault::Mismatch),
            Ok(Reply::Refused(_)) => Err(Fault::Mismatch),
            Err(_) => Err(Fault::Disconnected),
        }
    }

    /// What waiting for the end of a `Cycle` comes to with what was received.
    pub fn acknowledge(received: Result<Reply<S>, RecvError>) -> (acknowledged: Result<(), Fault>)
        ensures
            acknowledged == Self::acknowledged(received),
    {
        match received {
            Ok(Reply::Cycled) => Ok(()),
            Ok(Reply::Applied(_)) => Err(Fault::Mismatch),
            Ok(Reply::Refused(_)) => Err(Fault::Mismatch),
            Err(_) => Err(Fault::Disconnected),
        }
    }

    /// Signals an `Apply` on `view`, which has to be the only handle on the
    /// state, and blocks until the processor has answered. On success the
    /// state comes back as the workers left it, and nothing is outstanding.
    ///
    /// Once the signal is handed over, it is on record as signalled on the
    /// state of `view`, whatever the answer is. It is handed over in every
    /// case but one: a `Disconnected` may mean that it never was, and then
    /// nothing has changed. A `Disconnected` after it was handed over leaves
    /// the `Apply` outstanding; any answer from the processor ends it. What
    /// the answer is decides the result, as `settle` says.
    ///
    /// On failure the view is gone.
    pub fn apply(&mut self, view: Arc<S>) -> (applied: Result<Arc<S>, Fault>)
        requires
            old(self).outstanding() is None,
        ensures
            final(self).is_started() == old(self).is_started(),
            match applied {
                Ok(_) => *final(self) == old(self).having_signalled(Phase::Apply, *view),
                Err(Fault::Disconnected) => *final(self) == *old(self) || *final(self) == old(
                    self,
                ).marked(Some(Phase::Apply)).having_signalled(Phase::Apply, *view),
                Err(Fault::Shared) => *final(self) == old(self).having_signalled(Phase::Apply, *view),
                Err(Fault::Mismatch) => *final(self) == old(self).having_signalled(Phase::Apply, *view),
                Err(Fault::Undelivered) => false,
            },
    {
        let event = Event::Apply(view);
        let ghost signal = (event.spec_phase(), event.state());
        match send(&self.wake_signal, event) {
            Ok(()) => {
                self.outstanding = Ghost(Some(signal.0));
                self.signalled = Ghost(self.signalled@.push(signal));
            },
            Err(_) => {
                return Err(Fault::Disconnected);
            },
        }
        let received = recv(&self.end_signal);
        if received.is_ok() {
            self.outstanding = Ghost(None);
        }
        Self::settle(received)
    }

    /// What an `Apply` comes to with what was received: the state that an
    /// `Applied` brings back; `Shared` where the processor refused to write;
    /// `Mismatch` where it answered a `Cycle` instead; `Disconnected` where
    /// the channel gave no answer.
    pub open spec fn settled(received: Result<Reply<S>, RecvError>) -> Result<Arc<S>, Fault> {
        match received {
            Ok(Reply::Applied(next)) => Ok(next),
            Ok(Reply::Refused(_)) => Err(Fault::Shared),
            Ok(Reply::Cycled) => Err(Fault::Mismatch),
            Err(_) => Err(Fault::Disconnected),
        }
    }

    /// What an `Apply` comes to with what was received.
    pub fn settle(received: Result<Reply<S>, RecvError>) -> (applied: Result<Arc<S>, Fault>)
        ensures
            applied == Self::settled(received),
    {
        match received {
            Ok(Reply::Applied(next)) => Ok(next),
            Ok(Reply::Refused(_)) => Err(Fault::Shared),
            Ok(Reply::Cycled) => Err(Fault::Mismatch),
            Err(_) => Err(Fault::Disconnected),
        }
    }

    /// A started thread stays started. Signalling and waiting change a thread
    /// by a mark and by a signal on record and by nothing else, and neither
    /// makes a started thread one that is not; `start` starts it, and nothing
    /// takes that back. So after `start`, what `add` asks of a thread never
    /// holds again, and `try_add` refuses every time.
    pub proof fn lemma_started_for_good(self, mark: Option<Phase>, phase: Phase, state: S)
        requires
            self.is_started(),
        ensures
            self.marked(mark).is_started(),
            self.having_signalled(phase, state).is_started(),
            self.marked(mark).having_signalled(phase, state).is_started(),
    {
    }

    /// What one more signal on record changes and what it keeps.
    pub proof fn lemma_having_signalled(self, phase: Phase, state: S, mark: Option<Phase>)
        ensures
            self.having_signalled(phase, state).signalled() == self.signalled().push((phase, state)),
            self.having_signalled(phase, state).outstanding() == self.outstanding(),
            self.having_signalled(phase, state).is_started() == self.is_started(),
            self.having_signalled(phase, state).pending() == self.pending(),
            self.having_signalled(phase, state).ends() == self.ends(),
            self.having_signalled(phase, state).processor_ends() == self.processor_ends(),
            self.having_signalled(phase, state).slots() == self.slots(),
            self.having_signalled(phase, state).marked(mark) == self.marked(mark).having_signalled(phase, state),
    {
    }

    /// What marking a thread changes and what it keeps; and that a thread is
    /// started exactly when it has given the processor's channel ends away.
    pub proof fn lemma_marked(self, first: Option<Phase>, second: Option<Phase>)
        ensures
            self.is_started() == (self.processor_ends() is None),
            self.marked(first).signalled() == self.signalled(),
            self.marked(first).slots() == self.slots(),
            self.marked(first).outstanding() == first,
            self.marked(first).marked(second) == self.marked(second),
            self.marked(self.outstanding()) == self,
            self.marked(first).is_started() == self.is_started(),
            self.marked(first).pending() == self.pending(),
            self.marked(first).ends() == self.ends(),
            self.marked(first).processor_ends() == self.processor_ends(),
    {
    }
}

} // verus!
