use crate::event::{Event, Reply};
use crate::journal::{
    added, carried_out, lemma_inverse_reads_the_state_after,
    lemma_inverse_writes_what_the_last_writer_left, lemma_tick_reads_the_state_before,
    lemma_tick_writes_what_the_last_writer_left, state_before, steps_of, Record,
};
use crate::event::Phase;
use crate::processor::{applies, cycles, read_in_order, round, wrote_in_order, Deed, Processor};
use crate::schedule::{inverse_steps, tick_steps};
use crate::worker::Worker;
use vstd::prelude::*;

verus! {

/// Whether `after` is `before` once every worker of every thread has read
/// `state`: each worker has made one `cycle` on it.
pub open spec fn read_by_all<S, W: Worker<S>>(before: Seq<Seq<W>>, state: S, after: Seq<Seq<W>>) -> bool {
    &&& after.len() == before.len()
    &&& forall|t: int|
        #![trigger before[t]]
        #![trigger after[t]]
        0 <= t < before.len() ==> cycles(before[t], state, after[t])
}

/// Whether `chain` holds the states between one thread's write and the next:
/// the workers of thread `t` find `chain[t]` and leave `chain[t + 1]`.
pub open spec fn takes_turns<S, W: Worker<S>>(before: Seq<Seq<W>>, after: Seq<Seq<W>>, chain: Seq<S>) -> bool {
    &&& after.len() == before.len()
    &&& chain.len() == before.len() + 1
    &&& forall|t: int|
        #![trigger before[t]]
        #![trigger after[t]]
        0 <= t < before.len() ==> applies(before[t], chain[t], after[t], chain[t + 1])
}

/// Whether `after` and `end` are `before` and `start` once the threads have
/// written in roster order: each worker has made one `apply`, the workers of
/// one thread in the order of their registration, and each thread on the state
/// that the thread before it left.
pub open spec fn written_in_turn<S, W: Worker<S>>(
    before: Seq<Seq<W>>,
    start: S,
    after: Seq<Seq<W>>,
    end: S,
) -> bool {
    exists|chain: Seq<S>|
        {
            &&& #[trigger] takes_turns(before, after, chain)
            &&& chain[0] == start
            &&& chain[before.len() as int] == end
        }
}

/// What a tick comes to, for the workers of every thread and for the state:
/// every worker reads the state as it was before the tick, and after that the
/// threads write in roster order.
pub open spec fn ticked<S, W: Worker<S>>(before: Seq<Seq<W>>, start: S, after: Seq<Seq<W>>, end: S) -> bool {
    exists|between: Seq<Seq<W>>|
        {
            &&& #[trigger] read_by_all(before, start, between)
            &&& written_in_turn(between, start, after, end)
        }
}

/// What an inverse tick comes to: the threads write in roster order, and after
/// that every worker reads the state as the last writer left it.
pub open spec fn inverse_ticked<S, W: Worker<S>>(
    before: Seq<Seq<W>>,
    start: S,
    after: Seq<Seq<W>>,
    end: S,
) -> bool {
    exists|between: Seq<Seq<W>>|
        {
            &&& #[trigger] written_in_turn(before, start, between, end)
            &&& read_by_all(between, end, after)
        }
}

/// Whether a processor has answered a signal of the journal: it was `pre`,
/// served an event of the phase and on the state that the record `wake` shows,
/// and became `post`; and it answered that it is done, with the state that
/// the record `ack` shows if it was to write. Its own record has grown by that
/// one round, as `Processor::serve` leaves it.
///
/// This is what the two channels are there for, and what no contract of the
/// library can state of them: that the processor gets what the conductor
/// sent, and the conductor what the processor answered.
pub open spec fn answers<S, W: Worker<S>>(
    pre: Processor<S, W>,
    wake: Record<S>,
    post: Processor<S, W>,
    ack: Record<S>,
) -> bool {
    exists|event: Event<S>, reply: Reply<S>|
        {
            &&& #[trigger] Processor::serves(pre, event, post, reply)
            &&& post.deeds() == pre.deeds() + round(event, reply, pre@.len(), true)
            &&& event.phase() == wake.step.phase()
            &&& event.state() == wake.state
            &&& match reply {
                Reply::Cycled => true,
                Reply::Applied(next) => *next == ack.state,
                Reply::Refused(_) => false,
            }
        }
}

/// The workers that each processor hosts.
pub open spec fn hosted<S, W>(processors: Seq<Processor<S, W>>) -> Seq<Seq<W>> {
    processors.map_values(|processor: Processor<S, W>| processor@)
}

/// What one tick does, conductor and processors together.
///
/// Let a conductor have carried out a tick over `n` threads, as
/// `Conductor::cycle` does, and let the processor of every thread have
/// answered both of its signals: `first` are the processors before the tick,
/// `second` after they have read, `third` after they have written.
///
/// Then, for any number of workers on each thread: every worker has made one
/// `cycle` and then one `apply`. All of them have read the state as it was
/// before the tick, so none has read after a write. Then the threads have
/// written in roster order, the workers of a thread in the order of their
/// registration, each on what the one before it left; and what the last one
/// left is the state that the conductor ends up with.
pub proof fn lemma_tick_reads_then_writes<S, W: Worker<S>>(
    n: nat,
    before: Seq<Record<S>>,
    start: S,
    after: Seq<Record<S>>,
    end: S,
    first: Seq<Processor<S, W>>,
    second: Seq<Processor<S, W>>,
    third: Seq<Processor<S, W>>,
)
    requires
        carried_out(tick_steps(n), before, start, after, end),
        first.len() == n,
        second.len() == n,
        third.len() == n,
        forall|t: int|
            0 <= t < n ==> answers(
                #[trigger] first[t],
                added(before, after)[t],
                second[t],
                added(before, after)[n + t],
            ),
        forall|t: int|
            0 <= t < n ==> answers(
                #[trigger] second[t],
                added(before, after)[2 * n + 2 * t],
                third[t],
                added(before, after)[2 * n + 2 * t + 1],
            ),
    ensures
        ticked(hosted(first), start, hosted(third), end),
{
    let records = added(before, after);
    assert(records.len() == steps_of(records).len() == 4 * n);
    let chain = Seq::new(n + 1, |t: int| state_before(start, records, 2 * n + 2 * t));
    assert forall|t: int| 0 <= t < n implies cycles(
        #[trigger] hosted(first)[t],
        start,
        hosted(second)[t],
    ) by {
        lemma_tick_reads_the_state_before(n, start, records, t);
        assert(answers(first[t], records[t], second[t], records[n + t]));
    }
    assert forall|t: int| 0 <= t < n implies applies(
        #[trigger] hosted(second)[t],
        chain[t],
        hosted(third)[t],
        chain[t + 1],
    ) by {
        lemma_tick_writes_what_the_last_writer_left(n, start, records, t);
        assert(answers(second[t], records[2 * n + 2 * t], third[t], records[2 * n + 2 * t + 1]));
    }
    if n > 0 {
        lemma_tick_reads_the_state_before(n, start, records, 2 * n - 1);
    }
    assert(read_by_all(hosted(first), start, hosted(second)));
    assert(takes_turns(hosted(second), hosted(third), chain));
    assert(written_in_turn(hosted(second), start, hosted(third), end));
}

/// What one inverse tick does, conductor and processors together.
///
/// Let a conductor have carried out an inverse tick over `n` threads, as
/// `Conductor::inverse_cycle` does, and let the processor of every thread have
/// answered both of its signals: `first` are the processors before the tick,
/// `second` after they have written, `third` after they have read.
///
/// Then every worker has made one `apply` and then one `cycle`. The threads
/// have written first, in roster order, each on what the one before it left;
/// and every worker has read what the last of them left, which is the state
/// that the conductor ends up with.
pub proof fn lemma_inverse_tick_writes_then_reads<S, W: Worker<S>>(
    n: nat,
    before: Seq<Record<S>>,
    start: S,
    after: Seq<Record<S>>,
    end: S,
    first: Seq<Processor<S, W>>,
    second: Seq<Processor<S, W>>,
    third: Seq<Processor<S, W>>,
)
    requires
        carried_out(inverse_steps(n), before, start, after, end),
        first.len() == n,
        second.len() == n,
        third.len() == n,
        forall|t: int|
            0 <= t < n ==> answers(
                #[trigger] first[t],
                added(before, after)[2 * t],
                second[t],
                added(before, after)[2 * t + 1],
            ),
        forall|t: int|
            0 <= t < n ==> answers(
                #[trigger] second[t],
                added(before, after)[2 * n + t],
                third[t],
                added(before, after)[3 * n + t],
            ),
    ensures
        inverse_ticked(hosted(first), start, hosted(third), end),
{
    let records = added(before, after);
    assert(records.len() == steps_of(records).len() == 4 * n);
    let chain = Seq::new(n + 1, |t: int| state_before(start, records, 2 * t));
    assert forall|t: int| 0 <= t < n implies applies(
        #[trigger] hosted(first)[t],
        chain[t],
        hosted(second)[t],
        chain[t + 1],
    ) by {
        lemma_inverse_writes_what_the_last_writer_left(n, start, records, t);
        assert(answers(first[t], records[2 * t], second[t], records[2 * t + 1]));
    }
    assert forall|t: int| 0 <= t < n implies cycles(
        #[trigger] hosted(second)[t],
        end,
        hosted(third)[t],
    ) by {
        lemma_inverse_reads_the_state_after(n, start, records, 2 * n + t);
        lemma_inverse_reads_the_state_after(n, start, records, 4 * n - 1);
        assert(answers(second[t], records[2 * n + t], third[t], records[3 * n + t]));
    }
    if n > 0 {
        lemma_inverse_reads_the_state_after(n, start, records, 4 * n - 1);
    }
    assert(takes_turns(hosted(first), hosted(second), chain));
    assert(written_in_turn(hosted(first), start, hosted(second), end));
    assert(read_by_all(hosted(second), end, hosted(third)));
}

/// One round in which `workers` workers read: the event is received, each
/// worker is let read once, from the first place to the last, and then the
/// answer is handed on.
pub open spec fn read_round(workers: nat) -> Seq<Deed> {
    seq![Deed::Received] + read_in_order(workers) + seq![Deed::Answered]
}

/// One round in which `workers` workers write: the event is received, each
/// worker is let write once, from the first place to the last, and then the
/// answer is handed on.
pub open spec fn write_round(workers: nat) -> Seq<Deed> {
    seq![Deed::Received] + wrote_in_order(workers) + seq![Deed::Answered]
}

/// The calls of one tick, thread by thread.
///
/// Let a conductor have carried out a tick over `n` threads and the processor
/// of every thread have answered both of its signals, as in
/// `lemma_tick_reads_then_writes`. Then the record of every processor has
/// grown by two rounds and by nothing else: in the first every worker of the
/// thread was let read once, in the order of registration; in the second
/// every worker was let write once, in the same order; and each answer was
/// handed on behind the last call of its round. So a thread with `m` workers
/// has made `m` calls of `cycle` and after them `m` calls of `apply`, and all
/// threads together as many of each as there are workers.
pub proof fn lemma_tick_calls_every_worker_in_order<S, W: Worker<S>>(
    n: nat,
    before: Seq<Record<S>>,
    start: S,
    after: Seq<Record<S>>,
    end: S,
    first: Seq<Processor<S, W>>,
    second: Seq<Processor<S, W>>,
    third: Seq<Processor<S, W>>,
)
    requires
        carried_out(tick_steps(n), before, start, after, end),
        first.len() == n,
        second.len() == n,
        third.len() == n,
        forall|t: int|
            0 <= t < n ==> answers(
                #[trigger] first[t],
                added(before, after)[t],
                second[t],
                added(before, after)[n + t],
            ),
        forall|t: int|
            0 <= t < n ==> answers(
                #[trigger] second[t],
                added(before, after)[2 * n + 2 * t],
                third[t],
                added(before, after)[2 * n + 2 * t + 1],
            ),
    ensures
        forall|t: int|
            0 <= t < n ==> {
                &&& (#[trigger] third[t])@.len() == first[t]@.len()
                &&& third[t].deeds() == first[t].deeds() + read_round(first[t]@.len()) + write_round(
                    first[t]@.len(),
                )
            },
{
    let records = added(before, after);
    assert(records.len() == steps_of(records).len() == 4 * n);
    assert forall|t: int| 0 <= t < n implies {
        &&& (#[trigger] third[t])@.len() == first[t]@.len()
        &&& third[t].deeds() == first[t].deeds() + read_round(first[t]@.len()) + write_round(first[t]@.len())
    } by {
        lemma_tick_reads_the_state_before(n, start, records, t);
        lemma_tick_writes_what_the_last_writer_left(n, start, records, t);
        assert(answers(first[t], records[t], second[t], records[n + t]));
        assert(answers(second[t], records[2 * n + 2 * t], third[t], records[2 * n + 2 * t + 1]));
        assert(records[2 * n + 2 * t].step.phase() == Phase::Apply);
    }
}

/// The calls of one inverse tick, thread by thread: the record of every
/// processor has grown by a round of writes and then a round of reads, each
/// worker called once in each, in the order of registration.
pub proof fn lemma_inverse_tick_calls_every_worker_in_order<S, W: Worker<S>>(
    n: nat,
    before: Seq<Record<S>>,
    start: S,
    after: Seq<Record<S>>,
    end: S,
    first: Seq<Processor<S, W>>,
    second: Seq<Processor<S, W>>,
    third: Seq<Processor<S, W>>,
)
    requires
        carried_out(inverse_steps(n), before, start, after, end),
        first.len() == n,
        second.len() == n,
        third.len() == n,
        forall|t: int|
            0 <= t < n ==> answers(
                #[trigger] first[t],
                added(before, after)[2 * t],
                second[t],
                added(before, after)[2 * t + 1],
            ),
        forall|t: int|
            0 <= t < n ==> answers(
                #[trigger] second[t],
                added(before, after)[2 * n + t],
                third[t],
                added(before, after)[3 * n + t],
            ),
    ensures
        forall|t: int|
            0 <= t < n ==> {
                &&& (#[trigger] third[t])@.len() == first[t]@.len()
                &&& third[t].deeds() == first[t].deeds() + write_round(first[t]@.len()) + read_round(
                    first[t]@.len(),
                )
            },
{
    let records = added(before, after);
    assert(records.len() == steps_of(records).len() == 4 * n);
    assert forall|t: int| 0 <= t < n implies {
        &&& (#[trigger] third[t])@.len() == first[t]@.len()
        &&& third[t].deeds() == first[t].deeds() + write_round(first[t]@.len()) + read_round(first[t]@.len())
    } by {
        lemma_inverse_writes_what_the_last_writer_left(n, start, records, t);
        lemma_inverse_reads_the_state_after(n, start, records, 2 * n + t);
        assert(answers(first[t], records[2 * t], second[t], records[2 * t + 1]));
        assert(answers(second[t], records[2 * n + t], third[t], records[3 * n + t]));
        assert(records[2 * t].step.phase() == Phase::Apply);
    }
}

} // verus!
