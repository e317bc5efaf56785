use crate::event::{Event, Fault, Phase, Reply};
use crate::link::{exclusive, recv, send};
use crate::worker::Worker;
use crossbeam_channel::{Receiver, Sender};
use vstd::prelude::*;

verus! {

/// Whether one `cycle` each, all reading `state`, may turn the workers `pre`
/// into the workers `post`, place by place.
pub open spec fn cycles<S, W: Worker<S>>(pre: Seq<W>, state: S, post: Seq<W>) -> bool {
    &&& post.len() == pre.len()
    &&& forall|i: int|
        #![trigger pre[i]]
        #![trigger post[i]]
        0 <= i < pre.len() ==> W::cycled(pre[i], state, post[i])
}

/// Whether `chain` holds the states between one `apply` and the next: worker
/// `i` finds `chain[i]` and leaves `chain[i + 1]`.
pub open spec fn threads_through<S, W: Worker<S>>(pre: Seq<W>, post: Seq<W>, chain: Seq<S>) -> bool {
    &&& post.len() == pre.len()
    &&& chain.len() == pre.len() + 1
    &&& forall|i: int|
        #![trigger pre[i]]
        #![trigger post[i]]
        0 <= i < pre.len() ==> W::applied(pre[i], chain[i], post[i], chain[i + 1])
}

/// Whether one `apply` each, in the order of the sequence and each on the
/// state that the one before it left, may turn the workers `pre` and `state`
/// into the workers `post` and `next`.
pub open spec fn applies<S, W: Worker<S>>(pre: Seq<W>, state: S, post: Seq<W>, next: S) -> bool {
    exists|chain: Seq<S>|
        {
            &&& #[trigger] threads_through(pre, post, chain)
            &&& chain[0] == state
            &&& chain[pre.len() as int] == next
        }
}

/// One thing that a processor has done, as its record shows it.
pub enum Deed {
    /// The constructor at this place of the seed was called, and its worker
    /// made.
    Made { place: int },
    /// An event was received.
    Received,
    /// The worker at this place was let read.
    Read { place: int },
    /// The worker at this place was let write.
    Wrote { place: int },
    /// An answer was handed to the channel.
    Answered,
}

/// The constructors of `n` places called one after the other, from the first
/// place to the last.
pub open spec fn made_in_order(n: nat) -> Seq<Deed> {
    Seq::new(n, |place: int| Deed::Made { place })
}

/// The workers of `n` places let read one after the other, from the first
/// place to the last.
pub open spec fn read_in_order(n: nat) -> Seq<Deed> {
    Seq::new(n, |place: int| Deed::Read { place })
}

/// The workers of `n` places let write one after the other, from the first
/// place to the last.
pub open spec fn wrote_in_order(n: nat) -> Seq<Deed> {
    Seq::new(n, |place: int| Deed::Wrote { place })
}

/// What a processor of `n` workers does with its workers to serve `event`,
/// where it answers `reply`: all read in order for a `Cycle`; all write in
/// order for an `Apply` that is carried out; nothing for one that is refused.
pub open spec fn work<S>(event: Event<S>, reply: Reply<S>, n: nat) -> Seq<Deed> {
    match event {
        Event::Cycle(_) => read_in_order(n),
        Event::Apply(_) => if reply is Applied {
            wrote_in_order(n)
        } else {
            Seq::empty()
        },
    }
}

/// One round of a processor of `n` workers: the event is received, then the
/// work is done, and only then the answer is handed on, if it can be.
pub open spec fn round<S>(event: Event<S>, reply: Reply<S>, n: nat, delivered: bool) -> Seq<Deed> {
    seq![Deed::Received] + work(event, reply, n) + if delivered {
        seq![Deed::Answered]
    } else {
        Seq::empty()
    }
}

/// The workers of one execution context, in the order in which they were
/// registered, and the two channel ends over which it is driven.
///
/// For the contracts it keeps three records, oldest entry first: the events
/// that it has received, the answers that it has handed to its channel, and
/// everything that it has done, call by call.
#[verifier::reject_recursive_types(S)]
pub struct Processor<S, W> {
    workers: Vec<W>,
    wake_signal: Receiver<Event<S>>,
    end_signal: Sender<Reply<S>>,
    received: Ghost<Seq<Event<S>>>,
    answered: Ghost<Seq<Reply<S>>>,
    deeds: Ghost<Seq<Deed>>,
}

impl<S, W> View for Processor<S, W> {
    type V = Seq<W>;

    /// The workers, in the order of their registration.
    closed spec fn view(&self) -> Seq<W> {
        self.workers@
    }
}

impl<S, W: Worker<S>> Processor<S, W> {
    /// The channel ends this processor listens and answers on.
    pub closed spec fn ends(&self) -> (Receiver<Event<S>>, Sender<Reply<S>>) {
        (self.wake_signal, self.end_signal)
    }

    /// Every event received so far, oldest first.
    pub closed spec fn received(&self) -> Seq<Event<S>> {
        self.received@
    }

    /// Every answer handed to the channel so far, oldest first.
    pub closed spec fn answered(&self) -> Seq<Reply<S>> {
        self.answered@
    }

    /// Everything done so far, oldest first: the constructors called, and then
    /// round by round the event received, the workers called and the answer
    /// handed on.
    pub closed spec fn deeds(&self) -> Seq<Deed> {
        self.deeds@
    }

    /// Whether serving `event` may turn the processor `pre` into `post` and
    /// make it answer `reply`.
    ///
    /// A `Cycle` is answered `Cycled`, each worker having read the state of the
    /// view. An `Apply` is answered `Applied` with the state that the last
    /// worker left, or `Refused` with the view as it came and no worker touched.
    pub open spec fn serves(pre: Self, event: Event<S>, post: Self, reply: Reply<S>) -> bool {
        &&& post.ends() == pre.ends()
        &&& match event {
            Event::Cycle(view) => reply is Cycled && cycles(pre@, *view, post@),
            Event::Apply(view) => match reply {
                Reply::Applied(next) => applies(pre@, *view, post@, *next),
                Reply::Refused(back) => *back == *view && post@ == pre@,
                Reply::Cycled => false,
            },
        }
    }

    /// Puts workers and channel ends together.
    pub(crate) fn new(
        workers: Vec<W>,
        wake_signal: Receiver<Event<S>>,
        end_signal: Sender<Reply<S>>,
        Ghost(made): Ghost<Seq<Deed>>,
    ) -> (processor: Self)
        ensures
            processor@ == workers@,
            processor.ends() == (wake_signal, end_signal),
            processor.received() == Seq::<Event<S>>::empty(),
            processor.answered() == Seq::<Reply<S>>::empty(),
            processor.deeds() == made,
    {
        Processor {
            workers,
            wake_signal,
            end_signal,
            received: Ghost(Seq::empty()),
            answered: Ghost(Seq::empty()),
            deeds: Ghost(made),
        }
    }

    /// The number of workers.
    pub fn len(&self) -> (len: usize)
        ensures
            len == self@.len(),
    {
        self.workers.len()
    }

    /// Lets every worker read `state`, one after the other in the order of
    /// registration. The record shows each call, in that order.
    pub fn cycle(&mut self, state: &S)
        ensures
            cycles(old(self)@, *state, final(self)@),
            final(self).deeds() == old(self).deeds() + read_in_order(old(self)@.len()),
            final(self).ends() == old(self).ends(),
            final(self).received() == old(self).received(),
            final(self).answered() == old(self).answered(),
    {
        let count: usize = self.workers.len();
        let ghost plan = read_in_order(count as nat);
        let mut done: usize = 0;
        while done < count
            invariant
                done <= count,
                count == old(self)@.len(),
                self.workers@.len() == count,
                self.ends() == old(self).ends(),
                self.received() == old(self).received(),
                self.answered() == old(self).answered(),
                plan == read_in_order(count as nat),
                self.deeds() == old(self).deeds() + plan.take(done as int),
                forall|i: int| 0 <= i < done ==> W::cycled(old(self)@[i], *state, #[trigger] self.workers@[i]),
                forall|i: int| done <= i < count ==> #[trigger] self.workers@[i] == old(self)@[i],
            decreases count - done,
        {
            self.workers[done].cycle(state);
            proof {
                assert(plan.take(done + 1) == plan.take(done as int).push(Deed::Read { place: done as int }));
            }
            self.deeds = Ghost(self.deeds@.push(Deed::Read { place: done as int }));
            done = done + 1;
        }
        proof {
            assert(plan.take(count as int) == plan);
        }
    }

    /// Lets every worker write `state`, one after the other in the order of
    /// registration, each on what the one before it left. The record shows
    /// each call, in that order.
    pub fn apply(&mut self, state: &mut S)
        ensures
            applies(old(self)@, *old(state), final(self)@, *final(state)),
            final(self).deeds() == old(self).deeds() + wrote_in_order(old(self)@.len()),
            final(self).ends() == old(self).ends(),
            final(self).received() == old(self).received(),
            final(self).answered() == old(self).answered(),
    {
        let count: usize = self.workers.len();
        let ghost plan = wrote_in_order(count as nat);
        let mut done: usize = 0;
        let ghost mut chain: Seq<S> = seq![*state];
        while done < count
            invariant
                plan == wrote_in_order(count as nat),
                self.deeds() == old(self).deeds() + plan.take(done as int),
                done <= count,
                count == old(self)@.len(),
                self.workers@.len() == count,
                self.ends() == old(self).ends(),
                self.received() == old(self).received(),
                self.answered() == old(self).answered(),
                chain.len() == done + 1,
                chain[0] == *old(state),
                chain[done as int] == *state,
                forall|i: int|
                    0 <= i < done ==> W::applied(
                        old(self)@[i],
                        chain[i],
                        #[trigger] self.workers@[i],
                        chain[i + 1],
                    ),
                forall|i: int| done <= i < count ==> #[trigger] self.workers@[i] == old(self)@[i],
            decreases count - done,
        {
            self.workers[done].apply(state);
            proof {
                chain = chain.push(*state);
                assert(plan.take(done + 1) == plan.take(done as int).push(Deed::Wrote { place: done as int }));
            }
            self.deeds = Ghost(self.deeds@.push(Deed::Wrote { place: done as int }));
            done = done + 1;
        }
        assert(threads_through(old(self)@, self@, chain));
        assert(plan.take(count as int) == plan);
    }

    /// Serves one event and says what to answer.
    ///
    /// The view of a `Cycle` is released before this returns, so that it is
    /// gone by the time the answer is out. The view of an `Apply` is written
    /// only if it is the one handle on the state.
    pub fn dispatch(&mut self, event: Event<S>) -> (reply: Reply<S>)
        ensures
            Self::serves(*old(self), event, *final(self), reply),
            final(self).deeds() == old(self).deeds() + work(event, reply, old(self)@.len()),
            final(self).received() == old(self).received(),
            final(self).answered() == old(self).answered(),
    {
        match event {
            Event::Cycle(view) => {
                self.cycle(&view);
                Reply::Cycled
            },
            Event::Apply(view) => {
                let mut view = view;
                let applied = match exclusive(&mut view) {
                    Some(state) => {
                        self.apply(state);
                        true
                    },
                    None => false,
                };
                if applied {
                    Reply::Applied(view)
                } else {
                    Reply::Refused(view)
                }
            },
        }
    }

    /// Waits for one event, serves it, and hands the answer on.
    ///
    /// What arrives is for the other end to decide, so the outcome is stated for
    /// whatever came.
    ///
    /// - Where no event could be received, this is `Disconnected`: no worker
    ///   has run, nothing was answered, and the processor is as it was.
    /// - Else the event is on record as received, and it is served. Its answer
    ///   is made once every worker is done, and is handed to the channel. Where
    ///   that succeeds, the answer is on record and the phase of the event is
    ///   returned.
    /// - Where the answer could not be handed on, this is `Undelivered`: the
    ///   event was served, and no answer is on record for it.
    ///
    /// So each call receives one event at most and answers that one at most
    /// once, and never answers what it has not received. The record of what
    /// was done shows the order: the event received, then every call of a
    /// worker, and the answer behind the last of them.
    pub fn serve(&mut self) -> (served: Result<Phase, Fault>)
        ensures
            old(self).answered().len() <= old(self).received().len() ==> final(self).answered().len()
                <= final(self).received().len(),
            match served {
                Ok(phase) => exists|event: Event<S>, reply: Reply<S>|
                    {
                        &&& #[trigger] Self::serves(*old(self), event, *final(self), reply)
                        &&& event.phase() == phase
                        &&& final(self).received() == old(self).received().push(event)
                        &&& final(self).answered() == old(self).answered().push(reply)
                        &&& final(self).deeds() == old(self).deeds() + round(event, reply, old(self)@.len(), true)
                    },
                Err(Fault::Disconnected) => *final(self) == *old(self),
                Err(Fault::Undelivered) => exists|event: Event<S>, reply: Reply<S>|
                    {
                        &&& #[trigger] Self::serves(*old(self), event, *final(self), reply)
                        &&& final(self).received() == old(self).received().push(event)
                        &&& final(self).answered() == old(self).answered()
                        &&& final(self).deeds() == old(self).deeds() + round(event, reply, old(self)@.len(), false)
                    },
                Err(Fault::Shared) => false,
                Err(Fault::Mismatch) => false,
            },
    {
        match recv(&self.wake_signal) {
            Ok(event) => {
                let phase = event.phase();
                let ghost asked = event;
                let ghost count = self.workers@.len();
                self.received = Ghost(self.received@.push(asked));
                self.deeds = Ghost(self.deeds@.push(Deed::Received));
                let reply = self.dispatch(event);
                let ghost answer = reply;
                proof {
                    let done = work(asked, answer, count);
                    assert(self.deeds@ == old(self).deeds@.push(Deed::Received) + done);
                    assert(old(self).deeds@.push(Deed::Received) + done == old(self).deeds@ + (seq![Deed::Received]
                        + done + Seq::<Deed>::empty()));
                }
                match send(&self.end_signal, reply) {
                    Ok(()) => {
                        self.answered = Ghost(self.answered@.push(answer));
                        self.deeds = Ghost(self.deeds@.push(Deed::Answered));
                        proof {
                            assert(Self::serves(*old(self), asked, *self, answer));
                            let done = work(asked, answer, count);
                            assert((old(self).deeds@ + (seq![Deed::Received] + done + Seq::<Deed>::empty())).push(
                                Deed::Answered,
                            ) == old(self).deeds@ + (seq![Deed::Received] + done + seq![Deed::Answered]));
                        }
                        Ok(phase)
                    },
                    Err(_) => {
                        proof {
                            assert(Self::serves(*old(self), asked, *self, answer));
                        }
                        Err(Fault::Undelivered)
                    },
                }
            },
            Err(_) => Err(Fault::Disconnected),
        }
    }
}

} // verus!
