use crate::event::Phase;
use vstd::prelude::*;

verus! {

/// One thing a conductor does with one thread of its roster.
pub enum Step {
    /// The phase was signalled to the thread at this place of the roster.
    Wake { thread: int, phase: Phase },
    /// The thread at this place acknowledged that it has finished the phase.
    Ack { thread: int, phase: Phase },
}

impl Step {
    /// The place in the roster of the thread this step is about.
    pub open spec fn thread(self) -> int {
        match self {
            Step::Wake { thread, .. } => thread,
            Step::Ack { thread, .. } => thread,
        }
    }

    /// The phase this step belongs to.
    pub open spec fn phase(self) -> Phase {
        match self {
            Step::Wake { phase, .. } => phase,
            Step::Ack { phase, .. } => phase,
        }
    }

    /// Whether this step brings a state back: it is the acknowledgement of an
    /// `Apply`.
    pub open spec fn brings_back(self) -> bool {
        self matches Step::Ack { phase: Phase::Apply, .. }
    }
}

/// The read half of a tick over `n` threads: a `Cycle` is signalled to every
/// thread in roster order, then every acknowledgement is collected in roster
/// order.
pub open spec fn reads(n: nat) -> Seq<Step> {
    Seq::new(n, |t: int| Step::Wake { thread: t, phase: Phase::Cycle }) + Seq::new(
        n,
        |t: int| Step::Ack { thread: t, phase: Phase::Cycle },
    )
}

/// The write half of a tick over `n` threads: in roster order, an `Apply` is
/// signalled to one thread and its acknowledgement collected before the next
/// thread is signalled.
pub open spec fn writes(n: nat) -> Seq<Step> {
    Seq::new(
        2 * n,
        |i: int|
            if i % 2 == 0 {
                Step::Wake { thread: i / 2, phase: Phase::Apply }
            } else {
                Step::Ack { thread: i / 2, phase: Phase::Apply }
            },
    )
}

/// The steps of one tick over `n` threads: all read, then each writes.
pub open spec fn tick_steps(n: nat) -> Seq<Step> {
    reads(n) + writes(n)
}

/// The steps of one inverse tick over `n` threads: each writes, then all read.
pub open spec fn inverse_steps(n: nat) -> Seq<Step> {
    writes(n) + reads(n)
}

/// Where a step stands in a tick over `n` threads, as
/// `lemma_tick_has_each_step_once` shows.
pub open spec fn tick_place(n: nat, step: Step) -> int {
    match step {
        Step::Wake { thread, phase: Phase::Cycle } => thread,
        Step::Ack { thread, phase: Phase::Cycle } => n + thread,
        Step::Wake { thread, phase: Phase::Apply } => 2 * n + 2 * thread,
        Step::Ack { thread, phase: Phase::Apply } => 2 * n + 2 * thread + 1,
    }
}

/// Where a step stands in an inverse tick over `n` threads, as
/// `lemma_inverse_has_each_step_once` shows.
pub open spec fn inverse_place(n: nat, step: Step) -> int {
    match step {
        Step::Wake { thread, phase: Phase::Apply } => 2 * thread,
        Step::Ack { thread, phase: Phase::Apply } => 2 * thread + 1,
        Step::Wake { thread, phase: Phase::Cycle } => 2 * n + thread,
        Step::Ack { thread, phase: Phase::Cycle } => 3 * n + thread,
    }
}

/// A tick over `n` threads has four steps for each thread: every signal and
/// every acknowledgement of either phase is there for every thread of the
/// roster, exactly once, and for no other thread.
///
/// So one tick has each thread run each phase once and no more.
pub proof fn lemma_tick_has_each_step_once(n: nat)
    ensures
        tick_steps(n).len() == 4 * n,
        forall|i: int|
            0 <= i < 4 * n ==> {
                &&& 0 <= (#[trigger] tick_steps(n)[i]).thread() < n
                &&& tick_place(n, tick_steps(n)[i]) == i
            },
        forall|step: Step|
            0 <= step.thread() < n ==> {
                &&& 0 <= #[trigger] tick_place(n, step) < 4 * n
                &&& tick_steps(n)[tick_place(n, step)] == step
            },
{
    assert forall|step: Step| 0 <= step.thread() < n implies {
        &&& 0 <= #[trigger] tick_place(n, step) < 4 * n
        &&& tick_steps(n)[tick_place(n, step)] == step
    } by {
        let at = tick_place(n, step);
        if step.phase() == Phase::Apply {
            assert(writes(n)[at - 2 * n] == step);
        }
    }
}

/// An inverse tick over `n` threads has the same steps as a tick, each exactly
/// once, in its own order.
pub proof fn lemma_inverse_has_each_step_once(n: nat)
    ensures
        inverse_steps(n).len() == 4 * n,
        forall|i: int|
            0 <= i < 4 * n ==> {
                &&& 0 <= (#[trigger] inverse_steps(n)[i]).thread() < n
                &&& inverse_place(n, inverse_steps(n)[i]) == i
            },
        forall|step: Step|
            0 <= step.thread() < n ==> {
                &&& 0 <= #[trigger] inverse_place(n, step) < 4 * n
                &&& inverse_steps(n)[inverse_place(n, step)] == step
            },
{
    assert forall|step: Step| 0 <= step.thread() < n implies {
        &&& 0 <= #[trigger] inverse_place(n, step) < 4 * n
        &&& inverse_steps(n)[inverse_place(n, step)] == step
    } by {
        let at = inverse_place(n, step);
        if step.phase() == Phase::Apply {
            assert(writes(n)[at] == step);
        }
    }
}

/// The barrier. In a tick every step of the read phase comes before every step
/// of the write phase: each thread has acknowledged its `Cycle` before any
/// thread is signalled an `Apply`.
pub proof fn lemma_reads_end_before_writes_begin(n: nat, i: int, j: int)
    requires
        0 <= i < tick_steps(n).len(),
        0 <= j < tick_steps(n).len(),
        tick_steps(n)[i].phase() == Phase::Cycle,
        tick_steps(n)[j].phase() == Phase::Apply,
    ensures
        i < j,
{
    lemma_tick_has_each_step_once(n);
}

/// In an inverse tick it is the other way round: every step of the write phase
/// comes before every step of the read phase.
pub proof fn lemma_inverse_writes_end_before_reads_begin(n: nat, i: int, j: int)
    requires
        0 <= i < inverse_steps(n).len(),
        0 <= j < inverse_steps(n).len(),
        inverse_steps(n)[i].phase() == Phase::Apply,
        inverse_steps(n)[j].phase() == Phase::Cycle,
    ensures
        i < j,
{
    lemma_inverse_has_each_step_once(n);
}

/// Within either phase a thread is signalled before it acknowledges, and in a
/// tick it has acknowledged its `Cycle` before it is signalled its `Apply`.
pub proof fn lemma_tick_order_within_thread(n: nat, thread: int)
    requires
        0 <= thread < n,
    ensures
        tick_place(n, Step::Wake { thread, phase: Phase::Cycle }) < tick_place(
            n,
            Step::Ack { thread, phase: Phase::Cycle },
        ) < tick_place(n, Step::Wake { thread, phase: Phase::Apply }) < tick_place(
            n,
            Step::Ack { thread, phase: Phase::Apply },
        ),
{
}

/// Writers take turns, in roster order. In a tick, every step of the write of
/// one thread, its signal and its acknowledgement, comes before every step of
/// the write of a thread that stands later in the roster. So the time between
/// signal and acknowledgement, in which a thread's workers write, is shared
/// with no other thread's.
pub proof fn lemma_writes_follow_the_roster(n: nat, i: int, j: int)
    requires
        0 <= i < tick_steps(n).len(),
        0 <= j < tick_steps(n).len(),
        tick_steps(n)[i].phase() == Phase::Apply,
        tick_steps(n)[j].phase() == Phase::Apply,
        tick_steps(n)[i].thread() < tick_steps(n)[j].thread(),
    ensures
        i < j,
{
    lemma_tick_has_each_step_once(n);
}

/// No two writers overlap. In a tick, of two different threads one has
/// acknowledged its `Apply` before the other is signalled its own: the one
/// that stands earlier in the roster.
pub proof fn lemma_writers_never_overlap(n: nat, one: int, other: int)
    requires
        0 <= one < n,
        0 <= other < n,
        one != other,
    ensures
        one < other ==> tick_place(n, Step::Ack { thread: one, phase: Phase::Apply }) < tick_place(
            n,
            Step::Wake { thread: other, phase: Phase::Apply },
        ),
        other < one ==> tick_place(n, Step::Ack { thread: other, phase: Phase::Apply }) < tick_place(
            n,
            Step::Wake { thread: one, phase: Phase::Apply },
        ),
{
}

/// No two writers overlap in an inverse tick either.
pub proof fn lemma_inverse_writers_never_overlap(n: nat, one: int, other: int)
    requires
        0 <= one < n,
        0 <= other < n,
        one != other,
    ensures
        one < other ==> inverse_place(n, Step::Ack { thread: one, phase: Phase::Apply }) < inverse_place(
            n,
            Step::Wake { thread: other, phase: Phase::Apply },
        ),
        other < one ==> inverse_place(n, Step::Ack { thread: other, phase: Phase::Apply }) < inverse_place(
            n,
            Step::Wake { thread: one, phase: Phase::Apply },
        ),
{
}

/// Writers take turns in roster order in an inverse tick too.
pub proof fn lemma_inverse_writes_follow_the_roster(n: nat, i: int, j: int)
    requires
        0 <= i < inverse_steps(n).len(),
        0 <= j < inverse_steps(n).len(),
        inverse_steps(n)[i].phase() == Phase::Apply,
        inverse_steps(n)[j].phase() == Phase::Apply,
        inverse_steps(n)[i].thread() < inverse_steps(n)[j].thread(),
    ensures
        i < j,
{
    lemma_inverse_has_each_step_once(n);
}

} // verus!
