use crate::event::Phase;
use crate::schedule::{inverse_steps, tick_steps, writes, Step};
use vstd::prelude::*;

verus! {

/// An entry of a conductor's journal: a step, and the state as the conductor
/// has it with that step. For a signal this is the state that the signal
/// gives a view of; for an acknowledgement, the state once it has arrived.
pub struct Record<S> {
    pub step: Step,
    pub state: S,
}

/// The steps of a journal, without the states.
pub open spec fn steps_of<S>(records: Seq<Record<S>>) -> Seq<Step> {
    records.map_values(|record: Record<S>| record.step)
}

/// The state before entry `i` of a journal that was begun on `start`: the
/// state of the entry before it, or `start` if there is none.
pub open spec fn state_before<S>(start: S, records: Seq<Record<S>>, i: int) -> S {
    if i <= 0 {
        start
    } else {
        records[i - 1].state
    }
}

/// Whether the state passes through a journal begun on `start` from hand to
/// hand: every step has the state that the step before it had, but for the
/// acknowledgement of an `Apply`, which brings back whatever the workers wrote.
pub open spec fn handed_on<S>(start: S, records: Seq<Record<S>>) -> bool {
    forall|i: int|
        0 <= i < records.len() && !records[i].step.brings_back() ==> (#[trigger] records[i]).state
            == state_before(start, records, i)
}

/// What a journal `after` has more than the journal `before` it grew from.
pub open spec fn added<S>(before: Seq<Record<S>>, after: Seq<Record<S>>) -> Seq<Record<S>> {
    after.skip(before.len() as int)
}

/// Whether a conductor that had the journal `before` and the state `start`
/// has carried out `plan` and come to the journal `after` and the state `end`:
/// the journal has grown by the steps of the plan, the state has passed
/// through them from hand to hand, and `end` is the state of the last step.
pub open spec fn carried_out<S>(
    plan: Seq<Step>,
    before: Seq<Record<S>>,
    start: S,
    after: Seq<Record<S>>,
    end: S,
) -> bool {
    let fresh = added(before, after);
    &&& after =~= before + fresh
    &&& steps_of(fresh) =~= plan
    &&& handed_on(start, fresh)
    &&& end == state_before(start, fresh, fresh.len() as int)
}

/// Whether a conductor that had the journal `before` and the state `start`
/// has begun `plan` and broken it off: the journal has grown by the first
/// steps of the plan, and not by all of them.
pub open spec fn broken_off<S>(plan: Seq<Step>, before: Seq<Record<S>>, start: S, after: Seq<Record<S>>) -> bool {
    let fresh = added(before, after);
    &&& after =~= before + fresh
    &&& fresh.len() < plan.len()
    &&& steps_of(fresh) =~= plan.take(fresh.len() as int)
    &&& handed_on(start, fresh)
}

/// A journal of two parts passes the state from hand to hand if the first part
/// does and the second does from where the first ends.
pub proof fn lemma_handed_on_joins<S>(start: S, first: Seq<Record<S>>, second: Seq<Record<S>>)
    requires
        handed_on(start, first),
        handed_on(state_before(start, first, first.len() as int), second),
    ensures
        handed_on(start, first + second),
        state_before(start, first + second, (first + second).len() as int) == state_before(
            state_before(start, first, first.len() as int),
            second,
            second.len() as int,
        ),
        steps_of(first + second) == steps_of(first) + steps_of(second),
{
    let whole = first + second;
    let between = state_before(start, first, first.len() as int);
    assert forall|i: int| 0 <= i < whole.len() && !whole[i].step.brings_back() implies (#[trigger] whole[i]).state
        == state_before(start, whole, i) by {
        if i < first.len() {
            assert(whole[i] == first[i]);
        } else {
            let j = i - first.len();
            assert(whole[i] == second[j]);
            assert(second[j].state == state_before(between, second, j));
        }
    }
    assert(steps_of(whole) =~= steps_of(first) + steps_of(second));
}

/// Two plans carried out one after the other are their sequence carried out.
pub proof fn lemma_carried_out_joins<S>(
    first: Seq<Step>,
    second: Seq<Step>,
    before: Seq<Record<S>>,
    start: S,
    between: Seq<Record<S>>,
    middle: S,
    after: Seq<Record<S>>,
    end: S,
)
    requires
        carried_out(first, before, start, between, middle),
        carried_out(second, between, middle, after, end),
    ensures
        carried_out(first + second, before, start, after, end),
{
    let one = added(before, between);
    let two = added(between, after);
    lemma_handed_on_joins(start, one, two);
    assert(added(before, after) =~= one + two);
}

/// A plan broken off is any longer plan broken off.
pub proof fn lemma_broken_off_early<S>(
    first: Seq<Step>,
    second: Seq<Step>,
    before: Seq<Record<S>>,
    start: S,
    after: Seq<Record<S>>,
)
    requires
        broken_off(first, before, start, after),
    ensures
        broken_off(first + second, before, start, after),
{
    let fresh = added(before, after);
    assert((first + second).take(fresh.len() as int) =~= first.take(fresh.len() as int));
}

/// A plan carried out and the next one broken off are their sequence broken
/// off.
pub proof fn lemma_broken_off_late<S>(
    first: Seq<Step>,
    second: Seq<Step>,
    before: Seq<Record<S>>,
    start: S,
    between: Seq<Record<S>>,
    middle: S,
    after: Seq<Record<S>>,
)
    requires
        carried_out(first, before, start, between, middle),
        broken_off(second, between, middle, after),
    ensures
        broken_off(first + second, before, start, after),
{
    let one = added(before, between);
    let two = added(between, after);
    lemma_handed_on_joins(start, one, two);
    assert(added(before, after) =~= one + two);
    assert((first + second).take((one + two).len() as int) =~= first + second.take(two.len() as int));
}

/// The barrier, as the state sees it. In a tick every `Cycle` is signalled on
/// the state as it was before the tick, and acknowledged with the state still
/// the same: no write of this tick has been before any of its reads.
pub proof fn lemma_tick_reads_the_state_before<S>(n: nat, start: S, records: Seq<Record<S>>, i: int)
    requires
        steps_of(records) == tick_steps(n),
        handed_on(start, records),
        0 <= i < 2 * n,
    ensures
        records[i].step.phase() == Phase::Cycle,
        records[i].state == start,
    decreases i,
{
    assert(records.len() == steps_of(records).len() == 4 * n);
    assert(steps_of(records)[i] == records[i].step);
    if i > 0 {
        lemma_tick_reads_the_state_before(n, start, records, i - 1);
    }
}

/// Writers work on what the writer before them left. In a tick the first
/// thread of the roster is signalled its `Apply` on the state from before the
/// tick, and every other thread on the state that the acknowledgement of the
/// thread before it brought back.
pub proof fn lemma_tick_writes_what_the_last_writer_left<S>(
    n: nat,
    start: S,
    records: Seq<Record<S>>,
    thread: int,
)
    requires
        steps_of(records) == tick_steps(n),
        handed_on(start, records),
        0 <= thread < n,
    ensures
        records[2 * n + 2 * thread].step == (Step::Wake { thread, phase: Phase::Apply }),
        thread == 0 ==> records[2 * n + 2 * thread].state == start,
        thread > 0 ==> {
            &&& records[2 * n + 2 * thread - 1].step == (Step::Ack { thread: thread - 1, phase: Phase::Apply })
            &&& records[2 * n + 2 * thread].state == records[2 * n + 2 * thread - 1].state
        },
{
    let at = 2 * n + 2 * thread;
    assert(records.len() == steps_of(records).len() == 4 * n);
    assert(steps_of(records)[at] == records[at].step);
    assert(steps_of(records)[at - 1] == records[at - 1].step);
    assert(writes(n)[2 * thread] == records[at].step);
    if thread == 0 {
        lemma_tick_reads_the_state_before(n, start, records, at - 1);
    } else {
        assert(writes(n)[2 * thread - 1] == records[at - 1].step);
    }
}

/// In an inverse tick the writers come first: the first thread of the roster
/// is signalled its `Apply` on the state from before the tick, and every other
/// thread on the state that the acknowledgement of the thread before it brought
/// back.
pub proof fn lemma_inverse_writes_what_the_last_writer_left<S>(
    n: nat,
    start: S,
    records: Seq<Record<S>>,
    thread: int,
)
    requires
        steps_of(records) == inverse_steps(n),
        handed_on(start, records),
        0 <= thread < n,
    ensures
        records[2 * thread].step == (Step::Wake { thread, phase: Phase::Apply }),
        thread == 0 ==> records[2 * thread].state == start,
        thread > 0 ==> {
            &&& records[2 * thread - 1].step == (Step::Ack { thread: thread - 1, phase: Phase::Apply })
            &&& records[2 * thread].state == records[2 * thread - 1].state
        },
{
    let at = 2 * thread;
    assert(records.len() == steps_of(records).len() == 4 * n);
    assert(steps_of(records)[at] == records[at].step);
    assert(writes(n)[at] == records[at].step);
    if thread > 0 {
        assert(steps_of(records)[at - 1] == records[at - 1].step);
        assert(writes(n)[at - 1] == records[at - 1].step);
    }
}

/// In an inverse tick every `Cycle` is signalled on the state that the last
/// writer brought back, and acknowledged with the state still the same: the
/// readers see what this tick wrote, all of it.
pub proof fn lemma_inverse_reads_the_state_after<S>(n: nat, start: S, records: Seq<Record<S>>, i: int)
    requires
        steps_of(records) == inverse_steps(n),
        handed_on(start, records),
        2 * n <= i < 4 * n,
    ensures
        records[i].step.phase() == Phase::Cycle,
        records[i].state == state_before(start, records, 2 * n as int),
    decreases i,
{
    assert(records.len() == steps_of(records).len() == 4 * n);
    assert(steps_of(records)[i] == records[i].step);
    if i > 2 * n {
        lemma_inverse_reads_the_state_after(n, start, records, i - 1);
    }
}

} // verus!
