use crate::event::{Fault, Phase};
use crate::link::{exclusive, share};
use crate::journal::{
    added, broken_off, carried_out, handed_on, lemma_broken_off_early, lemma_broken_off_late,
    lemma_carried_out_joins, state_before, steps_of, Record,
};
use crate::schedule::{inverse_steps, reads, tick_steps, writes, Step};
use crate::thread::{Seed, Thread};
use std::sync::Arc;
use vstd::prelude::*;

verus! {

/// The state behind a view.
spec fn behind<S>(view: Arc<S>) -> S {
    *view
}

/// The owner of the state and of the roster of threads, and the driver of
/// every tick.
///
/// The journal is the record of what the conductor has done with its threads,
/// and of the state it had at each step, oldest step first. It exists for the
/// contracts only.
#[verifier::reject_recursive_types(S)]
pub struct Conductor<S, F> {
    state: Option<Arc<S>>,
    threads: Vec<Thread<S, F>>,
    journal: Ghost<Seq<Record<S>>>,
}

impl<S, F> Conductor<S, F> {
    /// Whether the conductor has its state at hand. It always has, unless a
    /// tick failed while a processor was holding the state.
    pub closed spec fn spec_holds_state(&self) -> bool {
        self.state is Some
    }

    /// The state, where the conductor holds it.
    pub closed spec fn state(&self) -> S {
        *self.state->0
    }

    /// The threads, in the order in which they were added.
    pub closed spec fn roster(&self) -> Seq<Thread<S, F>> {
        self.threads@
    }

    /// Every step taken so far, oldest first.
    pub closed spec fn journal(&self) -> Seq<Record<S>> {
        self.journal@
    }

    /// Whether the conductor is between two ticks: it holds the state, and no
    /// thread has a signal outstanding.
    pub open spec fn idle(&self) -> bool {
        &&& self.holds_state()
        &&& forall|t: int| 0 <= t < self.roster().len() ==> (#[trigger] self.roster()[t]).outstanding() is None
    }

    /// Whether every thread of the roster has been started. A thread that was
    /// not would never answer a signal.
    pub open spec fn launched(&self) -> bool {
        forall|t: int| 0 <= t < self.roster().len() ==> (#[trigger] self.roster()[t]).is_started()
    }

    /// A conductor that owns `value` and has no thread yet.
    pub fn new(value: S) -> (conductor: Self)
        ensures
            conductor.idle(),
            conductor.launched(),
            conductor.state() == value,
            conductor.roster() == Seq::<Thread<S, F>>::empty(),
            conductor.journal() == Seq::<Record<S>>::empty(),
    {
        Conductor { state: Some(Arc::new(value)), threads: Vec::new(), journal: Ghost(Seq::empty()) }
    }

    /// Whether the conductor has its state at hand.
    #[verifier::when_used_as_spec(spec_holds_state)]
    pub fn holds_state(&self) -> (held: bool)
        ensures
            held == self.spec_holds_state(),
    {
        self.state.is_some()
    }

    /// Puts `thread` at the end of the roster.
    pub fn add(&mut self, thread: Thread<S, F>)
        ensures
            final(self).roster() == old(self).roster().push(thread),
            final(self).holds_state() == old(self).holds_state(),
            final(self).state() == old(self).state(),
            final(self).journal() == old(self).journal(),
    {
        self.threads.push(thread)
    }

    /// The state, for writing between two ticks.
    ///
    /// `None` if the conductor does not hold the state, or if it is not the
    /// only one to hold it, which the contract cannot tell; nothing has changed
    /// then.
    pub fn get_mut(&mut self) -> (state: Option<&mut S>)
        ensures
            final(self).roster() == old(self).roster(),
            final(self).journal() == old(self).journal(),
            final(self).holds_state() == old(self).holds_state(),
            !old(self).holds_state() ==> state is None,
            match state {
                Some(lent) => *lent == old(self).state() && final(self).state() == *final(lent),
                None => final(self).state() == old(self).state(),
            },
    {
        match self.state.as_mut() {
            Some(view) => exclusive(view),
            None => None,
        }
    }

    /// The state, for reading between two ticks.
    pub fn get(&self) -> (state: &S)
        requires
            self.holds_state(),
        ensures
            *state == self.state(),
    {
        self.state.as_ref().unwrap()
    }

    /// The number of threads in the roster.
    pub fn len(&self) -> (len: usize)
        ensures
            len == self.roster().len(),
    {
        self.threads.len()
    }

    /// Whether the thread at `place` of the roster has been started.
    pub fn is_started(&self, place: usize) -> (started: bool)
        requires
            place < self.roster().len(),
        ensures
            started == self.roster()[place as int].is_started(),
    {
        self.threads[place].is_started()
    }

    /// Starts the thread at `place` of the roster, as `Thread::start` does for
    /// a thread that is not in a roster yet: the thread hands over every
    /// constructor registered with it and the processor's channel ends. A
    /// thread that was added before it was started is started by this.
    ///
    /// No other thread changes, nor the state, nor the journal.
    pub fn start(&mut self, place: usize) -> (seed: Seed<S, F>)
        requires
            place < old(self).roster().len(),
            !old(self).roster()[place as int].is_started(),
        ensures
            final(self).roster().len() == old(self).roster().len(),
            final(self).roster()[place as int].is_started(),
            final(self).roster()[place as int].pending() == Seq::<F>::empty(),
            final(self).roster()[place as int].ends() == old(self).roster()[place as int].ends(),
            final(self).roster()[place as int].outstanding() == old(self).roster()[place as int].outstanding(),
            final(self).roster()[place as int].signalled() == old(self).roster()[place as int].signalled(),
            final(self).roster()[place as int].slots() == old(self).roster()[place as int].slots(),
            forall|t: int|
                0 <= t < old(self).roster().len() && t != place ==> #[trigger] final(self).roster()[t] == old(
                    self,
                ).roster()[t],
            seed.makers() == old(self).roster()[place as int].pending(),
            Some(seed.ends()) == old(self).roster()[place as int].processor_ends(),
            final(self).holds_state() == old(self).holds_state(),
            final(self).state() == old(self).state(),
            final(self).journal() == old(self).journal(),
            old(self).idle() ==> final(self).idle(),
    {
        self.threads[place].start()
    }

    /// The read half of a tick: signals a `Cycle` to every thread, each with a
    /// view of the state, and only then collects every acknowledgement.
    fn read_all(&mut self) -> (read: Result<(), Fault>)
        requires
            old(self).idle(),
        ensures
            final(self).roster().len() == old(self).roster().len(),
            final(self).holds_state(),
            final(self).state() == old(self).state(),
            old(self).roster().len() == 0 ==> read is Ok && *final(self) == *old(self),
            match read {
                Ok(()) => {
                    &&& forall|t: int|
                        0 <= t < old(self).roster().len() ==> #[trigger] final(self).roster()[t] == old(
                            self,
                        ).roster()[t].having_signalled(Phase::Cycle, old(self).state())
                    &&& carried_out(
                        reads(old(self).roster().len()),
                        old(self).journal(),
                        old(self).state(),
                        final(self).journal(),
                        final(self).state(),
                    )
                },
                Err(_) => broken_off(
                    reads(old(self).roster().len()),
                    old(self).journal(),
                    old(self).state(),
                    final(self).journal(),
                ),
            },
    {
        let count: usize = self.threads.len();
        let ghost plan = reads(count as nat);
        let ghost start = self.state();
        let ghost mut fresh: Seq<Record<S>> = Seq::empty();
        let mut woken: usize = 0;
        while woken < count
            invariant
                woken <= count,
                count == old(self).threads@.len(),
                self.threads@.len() == count,
                self.state == old(self).state,
                self.state is Some,
                start == self.state(),
                plan == reads(count as nat),
                forall|t: int| 0 <= t < count ==> (#[trigger] old(self).threads@[t]).outstanding() is None,
                forall|t: int|
                    0 <= t < woken ==> #[trigger] self.threads@[t] == old(self).threads@[t].marked(
                        Some(Phase::Cycle),
                    ).having_signalled(Phase::Cycle, start),
                forall|t: int| woken <= t < count ==> #[trigger] self.threads@[t] == old(self).threads@[t],
                self.journal@ == old(self).journal@ + fresh,
                fresh.len() == woken,
                steps_of(fresh) == plan.take(woken as int),
                forall|i: int| 0 <= i < fresh.len() ==> (#[trigger] fresh[i]).state == start,
                woken == 0 ==> *self == *old(self),
            decreases count - woken,
        {
            let view = share(self.state.as_ref().unwrap());
            match self.threads[woken].cycle(view) {
                Ok(()) => {},
                Err(fault) => {
                    proof {
                        assert(added(old(self).journal@, self.journal@) == fresh);
                    }
                    return Err(fault);
                },
            }
            proof {
                let record = Record { step: Step::Wake { thread: woken as int, phase: Phase::Cycle }, state: start };
                assert(steps_of(fresh.push(record)) == steps_of(fresh).push(record.step));
                assert(plan.take(woken + 1) == plan.take(woken as int).push(plan[woken as int]));
                assert(old(self).journal@ + fresh.push(record) == (old(self).journal@ + fresh).push(record));
                fresh = fresh.push(record);
            }
            self.journal = Ghost(old(self).journal@ + fresh);
            woken = woken + 1;
        }
        let mut heard: usize = 0;
        while heard < count
            invariant
                heard <= count,
                count == old(self).threads@.len(),
                self.threads@.len() == count,
                self.state == old(self).state,
                self.state is Some,
                start == self.state(),
                plan == reads(count as nat),
                forall|t: int| 0 <= t < count ==> (#[trigger] old(self).threads@[t]).outstanding() is None,
                forall|t: int|
                    0 <= t < heard ==> #[trigger] self.threads@[t] == old(self).threads@[t].having_signalled(
                        Phase::Cycle,
                        start,
                    ),
                forall|t: int|
                    heard <= t < count ==> #[trigger] self.threads@[t] == old(self).threads@[t].marked(
                        Some(Phase::Cycle),
                    ).having_signalled(Phase::Cycle, start),
                self.journal@ == old(self).journal@ + fresh,
                fresh.len() == count + heard,
                steps_of(fresh) == plan.take(count + heard),
                forall|i: int| 0 <= i < fresh.len() ==> (#[trigger] fresh[i]).state == start,
                count == 0 ==> *self == *old(self),
            decreases count - heard,
        {
            proof {
                let before = old(self).threads@[heard as int];
                before.lemma_marked(Some(Phase::Cycle), None);
                before.marked(Some(Phase::Cycle)).lemma_having_signalled(Phase::Cycle, start, None);
            }
            match self.threads[heard].wait() {
                Ok(()) => {},
                Err(fault) => {
                    proof {
                        assert(added(old(self).journal@, self.journal@) == fresh);
                    }
                    return Err(fault);
                },
            }
            proof {
                let record = Record { step: Step::Ack { thread: heard as int, phase: Phase::Cycle }, state: start };
                assert(steps_of(fresh.push(record)) == steps_of(fresh).push(record.step));
                assert(plan.take(count + heard + 1) == plan.take(count + heard).push(plan[count + heard]));
                assert(old(self).journal@ + fresh.push(record) == (old(self).journal@ + fresh).push(record));
                fresh = fresh.push(record);
            }
            self.journal = Ghost(old(self).journal@ + fresh);
            heard = heard + 1;
        }
        proof {
            assert(plan.take(count + count) == plan);
            assert(added(old(self).journal@, self.journal@) == fresh);
        }
        Ok(())
    }

    /// The write half of a tick: in roster order, hands the state to one
    /// thread for an `Apply` and takes it back before the next thread gets it.
    fn write_all(&mut self) -> (written: Result<(), Fault>)
        requires
            old(self).idle(),
        ensures
            final(self).roster().len() == old(self).roster().len(),
            old(self).roster().len() == 0 ==> written is Ok && *final(self) == *old(self),
            match written {
                Ok(()) => {
                    &&& final(self).holds_state()
                    &&& forall|t: int|
                        0 <= t < old(self).roster().len() ==> #[trigger] final(self).roster()[t] == old(
                            self,
                        ).roster()[t].having_signalled(
                            Phase::Apply,
                            added(old(self).journal(), final(self).journal())[2 * t].state,
                        )
                    &&& carried_out(
                        writes(old(self).roster().len()),
                        old(self).journal(),
                        old(self).state(),
                        final(self).journal(),
                        final(self).state(),
                    )
                },
                Err(_) => broken_off(
                    writes(old(self).roster().len()),
                    old(self).journal(),
                    old(self).state(),
                    final(self).journal(),
                ),
            },
    {
        let count: usize = self.threads.len();
        let ghost plan = writes(count as nat);
        let ghost start = self.state();
        let ghost mut fresh: Seq<Record<S>> = Seq::empty();
        let mut view = self.state.take().unwrap();
        let mut done: usize = 0;
        while done < count
            invariant
                done <= count,
                count == old(self).threads@.len(),
                self.threads@.len() == count,
                forall|t: int|
                    0 <= t < done ==> #[trigger] self.threads@[t] == old(self).threads@[t].having_signalled(
                        Phase::Apply,
                        fresh[2 * t].state,
                    ),
                forall|t: int| done <= t < count ==> #[trigger] self.threads@[t] == old(self).threads@[t],
                plan == writes(count as nat),
                start == old(self).state(),
                forall|t: int| 0 <= t < count ==> (#[trigger] old(self).threads@[t]).outstanding() is None,
                self.journal@ == old(self).journal@ + fresh,
                fresh.len() == 2 * done,
                steps_of(fresh) == plan.take(2 * done),
                handed_on(start, fresh),
                behind(view) == state_before(start, fresh, fresh.len() as int),
                done == 0 ==> view == old(self).state->0,
                done == 0 ==> self.threads == old(self).threads && self.journal == old(self).journal,
                self.state is None,
            decreases count - done,
        {
            let ghost wake = Record { step: Step::Wake { thread: done as int, phase: Phase::Apply }, state: behind(view) };
            proof {
                let before = old(self).threads@[done as int];
                before.lemma_marked(Some(Phase::Apply), None);
                before.lemma_having_signalled(Phase::Apply, wake.state, None);
                before.marked(Some(Phase::Apply)).lemma_having_signalled(Phase::Apply, wake.state, None);
                assert(steps_of(fresh.push(wake)) == steps_of(fresh).push(wake.step));
                assert(plan.take(2 * done + 1) == plan.take(2 * done).push(wake.step));
                assert(old(self).journal@ + fresh.push(wake) == (old(self).journal@ + fresh).push(wake));
            }
            match self.threads[done].apply(view) {
                Ok(next) => {
                    view = next;
                },
                Err(fault) => {
                    proof {
                        if self.threads@[done as int].signalled() != old(self).threads@[done as int].signalled() {
                            fresh = fresh.push(wake);
                        }
                    }
                    self.journal = Ghost(old(self).journal@ + fresh);
                    proof {
                        assert(added(old(self).journal@, self.journal@) == fresh);
                    }
                    return Err(fault);
                },
            }
            proof {
                let ack = Record { step: Step::Ack { thread: done as int, phase: Phase::Apply }, state: behind(view) };
                let both = fresh.push(wake).push(ack);
                assert(steps_of(both) == steps_of(fresh.push(wake)).push(ack.step));
                assert(plan.take(2 * done + 2) == plan.take(2 * done + 1).push(ack.step));
                fresh = both;
            }
            self.journal = Ghost(old(self).journal@ + fresh);
            done = done + 1;
        }
        self.state = Some(view);
        proof {
            assert(plan.take(2 * count) == plan);
            assert(added(old(self).journal@, self.journal@) == fresh);
        }
        Ok(())
    }

    /// One tick. Every thread gets a view of the state and has its workers
    /// read it; once all of them have acknowledged, the threads get the state
    /// one after the other, in roster order, and have their workers write it.
    ///
    /// The journal grows by the steps of the tick, and shows the way of the
    /// state through them: every thread is given the state as the step before
    /// left it, and the conductor ends up with what the last writer brought
    /// back. What that is, is for the workers to decide. Every thread has two
    /// more signals on record, on the states that the journal shows for them,
    /// and is else as it was.
    ///
    /// A failure breaks the tick off where it occurs, and is final: the
    /// conductor is not to be used again. As long as no thread has been asked
    /// to write, the state is still the conductor's and as it was.
    ///
    /// Every thread of the roster has to be started: one that was not would
    /// never answer, and the tick would wait for it without end.
    pub fn cycle(&mut self) -> (ticked: Result<(), Fault>)
        requires
            old(self).idle(),
            old(self).launched(),
        ensures
            final(self).roster().len() == old(self).roster().len(),
            old(self).roster().len() == 0 ==> ticked is Ok && *final(self) == *old(self),
            match ticked {
                Ok(()) => {
                    &&& final(self).idle()
                    &&& final(self).launched()
                    &&& forall|t: int|
                        0 <= t < old(self).roster().len() ==> #[trigger] final(self).roster()[t] == old(
                            self,
                        ).roster()[t].having_signalled(Phase::Cycle, old(self).state()).having_signalled(
                            Phase::Apply,
                            added(old(self).journal(), final(self).journal())[2 * old(self).roster().len() + 2 * t].state,
                        )
                    &&& carried_out(
                        tick_steps(old(self).roster().len()),
                        old(self).journal(),
                        old(self).state(),
                        final(self).journal(),
                        final(self).state(),
                    )
                },
                Err(_) => {
                    &&& broken_off(
                        tick_steps(old(self).roster().len()),
                        old(self).journal(),
                        old(self).state(),
                        final(self).journal(),
                    )
                    &&& added(old(self).journal(), final(self).journal()).len() < 2 * old(self).roster().len()
                        ==> final(self).holds_state() && final(self).state() == old(self).state()
                },
            },
    {
        let ghost n = self.threads@.len();
        match self.read_all() {
            Ok(()) => {},
            Err(fault) => {
                proof {
                    lemma_broken_off_early(reads(n), writes(n), old(self).journal@, old(self).state(), self.journal@);
                }
                return Err(fault);
            },
        }
        let ghost halfway = *self;
        proof {
            assert forall|t: int| 0 <= t < n implies (#[trigger] self.threads@[t]).outstanding() is None by {
                old(self).threads@[t].lemma_having_signalled(Phase::Cycle, old(self).state(), None);
            }
        }
        let written = self.write_all();
        proof {
            if written is Ok {
                lemma_carried_out_joins(
                    reads(n),
                    writes(n),
                    old(self).journal@,
                    old(self).state(),
                    halfway.journal@,
                    halfway.state(),
                    self.journal@,
                    self.state(),
                );
                let one = added(old(self).journal@, halfway.journal@);
                let two = added(halfway.journal@, self.journal@);
                assert(added(old(self).journal@, self.journal@) == one + two);
                assert(steps_of(one).len() == one.len() == 2 * n);
                assert forall|t: int| 0 <= t < n implies {
                    &&& (#[trigger] self.threads@[t]).outstanding() is None
                    &&& self.threads@[t] == old(self).threads@[t].having_signalled(
                        Phase::Cycle,
                        old(self).state(),
                    ).having_signalled(
                        Phase::Apply,
                        added(old(self).journal@, self.journal@)[2 * n + 2 * t].state,
                    )
                    &&& self.threads@[t].is_started()
                } by {
                    assert(steps_of(two).len() == two.len() == 2 * n);
                    assert((one + two)[2 * n + 2 * t] == two[2 * t]);
                    old(self).threads@[t].lemma_having_signalled(Phase::Cycle, old(self).state(), None);
                    halfway.threads@[t].lemma_having_signalled(Phase::Apply, two[2 * t].state, None);
                }
            } else {
                lemma_broken_off_late(
                    reads(n),
                    writes(n),
                    old(self).journal@,
                    old(self).state(),
                    halfway.journal@,
                    halfway.state(),
                    self.journal@,
                );
            }
        }
        written
    }

    /// One inverse tick: the threads first write, one after the other in roster
    /// order, and then all read what has just been written.
    ///
    /// With an empty roster nothing happens at all. Else the journal grows by
    /// the steps of the inverse tick, as it does by those of a tick in `cycle`,
    /// and a failure is as final. Once every thread has written, the state is
    /// the conductor's again.
    pub fn inverse_cycle(&mut self) -> (ticked: Result<(), Fault>)
        requires
            old(self).idle(),
            old(self).launched(),
        ensures
            final(self).roster().len() == old(self).roster().len(),
            old(self).roster().len() == 0 ==> ticked is Ok && *final(self) == *old(self),
            match ticked {
                Ok(()) => {
                    &&& final(self).idle()
                    &&& final(self).launched()
                    &&& forall|t: int|
                        0 <= t < old(self).roster().len() ==> #[trigger] final(self).roster()[t] == old(
                            self,
                        ).roster()[t].having_signalled(
                            Phase::Apply,
                            added(old(self).journal(), final(self).journal())[2 * t].state,
                        ).having_signalled(Phase::Cycle, final(self).state())
                    &&& carried_out(
                        inverse_steps(old(self).roster().len()),
                        old(self).journal(),
                        old(self).state(),
                        final(self).journal(),
                        final(self).state(),
                    )
                },
                Err(_) => {
                    &&& broken_off(
                        inverse_steps(old(self).roster().len()),
                        old(self).journal(),
                        old(self).state(),
                        final(self).journal(),
                    )
                    &&& added(old(self).journal(), final(self).journal()).len() >= 2 * old(self).roster().len()
                        ==> final(self).holds_state()
                },
            },
    {
        let ghost n = self.threads@.len();
        match self.write_all() {
            Ok(()) => {},
            Err(fault) => {
                proof {
                    lemma_broken_off_early(writes(n), reads(n), old(self).journal@, old(self).state(), self.journal@);
                }
                return Err(fault);
            },
        }
        let ghost halfway = *self;
        proof {
            let one = added(old(self).journal@, halfway.journal@);
            assert forall|t: int| 0 <= t < n implies (#[trigger] self.threads@[t]).outstanding() is None by {
                old(self).threads@[t].lemma_having_signalled(Phase::Apply, one[2 * t].state, None);
            }
        }
        let read = self.read_all();
        proof {
            if read is Ok {
                lemma_carried_out_joins(
                    writes(n),
                    reads(n),
                    old(self).journal@,
                    old(self).state(),
                    halfway.journal@,
                    halfway.state(),
                    self.journal@,
                    self.state(),
                );
                let one = added(old(self).journal@, halfway.journal@);
                let two = added(halfway.journal@, self.journal@);
                assert(added(old(self).journal@, self.journal@) == one + two);
                assert(steps_of(one).len() == one.len() == 2 * n);
                assert forall|t: int| 0 <= t < n implies {
                    &&& (#[trigger] self.threads@[t]).outstanding() is None
                    &&& self.threads@[t] == old(self).threads@[t].having_signalled(
                        Phase::Apply,
                        added(old(self).journal@, self.journal@)[2 * t].state,
                    ).having_signalled(Phase::Cycle, self.state())
                    &&& self.threads@[t].is_started()
                } by {
                    assert((one + two)[2 * t] == one[2 * t]);
                    old(self).threads@[t].lemma_having_signalled(Phase::Apply, one[2 * t].state, None);
                    halfway.threads@[t].lemma_having_signalled(Phase::Cycle, halfway.state(), None);
                }
            } else {
                lemma_broken_off_late(
                    writes(n),
                    reads(n),
                    old(self).journal@,
                    old(self).state(),
                    halfway.journal@,
                    halfway.state(),
                    self.journal@,
                );
            }
        }
        read
    }
}

} // verus!
