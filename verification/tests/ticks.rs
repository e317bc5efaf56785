use conductor::{Conductor, Fault, Seed, Thread, Worker};
use crossbeam_utils::thread::scope;
use std::sync::atomic::{AtomicUsize, Ordering};
use std::sync::{Arc, Mutex};

/// Records what it reads, and adds one when it writes.
struct Recorder {
    seen: Arc<Mutex<Vec<u64>>>,
}

impl Worker<u64> for Recorder {
    fn cycle(&mut self, state: &u64) {
        self.seen.lock().unwrap().push(*state);
    }

    fn apply(&mut self, state: &mut u64) {
        *state += 1;
    }
}

type Maker = Box<dyn FnOnce() -> Recorder + Send>;

fn recorder(seen: &Arc<Mutex<Vec<u64>>>) -> Maker {
    let seen = Arc::clone(seen);
    Box::new(move || Recorder { seen })
}

fn host(seed: Seed<u64, Maker>) {
    let mut processor = seed.build();
    while processor.serve().is_ok() {}
}

#[test]
fn three_ticks_of_two_incrementing_workers() {
    let seen = Arc::new(Mutex::new(Vec::new()));
    let mut first: Thread<u64, Maker> = Thread::new();
    first.add(recorder(&seen));
    let mut second: Thread<u64, Maker> = Thread::new();
    second.add(recorder(&seen));
    let first_seed = first.start();
    let second_seed = second.start();
    let mut after_each_tick = Vec::new();
    scope(|s| {
        s.spawn(move |_| host(first_seed));
        s.spawn(move |_| host(second_seed));
        let mut conductor = Conductor::new(0u64);
        conductor.add(first);
        conductor.add(second);
        for _ in 0..3 {
            assert_eq!(conductor.cycle(), Ok::<(), Fault>(()));
            after_each_tick.push(*conductor.get());
        }
        drop(conductor);
    })
    .unwrap();
    assert_eq!(after_each_tick, vec![2, 4, 6]);
    assert_eq!(*seen.lock().unwrap(), vec![0, 0, 2, 2, 4, 4]);
}

#[test]
fn three_inverse_ticks_read_what_was_just_written() {
    let seen = Arc::new(Mutex::new(Vec::new()));
    let mut first: Thread<u64, Maker> = Thread::new();
    first.add(recorder(&seen));
    let mut second: Thread<u64, Maker> = Thread::new();
    second.add(recorder(&seen));
    let first_seed = first.start();
    let second_seed = second.start();
    let mut after_each_tick = Vec::new();
    scope(|s| {
        s.spawn(move |_| host(first_seed));
        s.spawn(move |_| host(second_seed));
        let mut conductor = Conductor::new(0u64);
        conductor.add(first);
        conductor.add(second);
        for _ in 0..3 {
            assert_eq!(conductor.inverse_cycle(), Ok(()));
            after_each_tick.push(*conductor.get());
        }
        drop(conductor);
    })
    .unwrap();
    assert_eq!(after_each_tick, vec![2, 4, 6]);
    assert_eq!(*seen.lock().unwrap(), vec![2, 2, 4, 4, 6, 6]);
}

#[test]
fn ticks_and_inverse_ticks_mix() {
    let seen = Arc::new(Mutex::new(Vec::new()));
    let mut only: Thread<u64, Maker> = Thread::new();
    only.add(recorder(&seen));
    let seed = only.start();
    scope(|s| {
        s.spawn(move |_| host(seed));
        let mut conductor = Conductor::new(10u64);
        conductor.add(only);
        assert_eq!(conductor.cycle(), Ok(()));
        assert_eq!(conductor.inverse_cycle(), Ok(()));
        assert_eq!(conductor.cycle(), Ok(()));
        assert_eq!(*conductor.get(), 13);
    })
    .unwrap();
    assert_eq!(*seen.lock().unwrap(), vec![10, 12, 12]);
}

#[test]
fn a_tick_over_an_empty_roster_does_nothing() {
    let mut conductor: Conductor<u64, Maker> = Conductor::new(41);
    assert_eq!(conductor.inverse_cycle(), Ok(()));
    assert_eq!(*conductor.get(), 41);
    assert_eq!(conductor.cycle(), Ok(()));
    assert_eq!(*conductor.get(), 41);
    assert!(conductor.holds_state());
}

#[test]
fn the_state_is_read_and_written_between_ticks() {
    let seen = Arc::new(Mutex::new(Vec::new()));
    let mut only: Thread<u64, Maker> = Thread::new();
    only.add(recorder(&seen));
    let seed = only.start();
    scope(|s| {
        s.spawn(move |_| host(seed));
        let mut conductor = Conductor::new(5u64);
        conductor.add(only);
        assert_eq!(*conductor.get(), 5);
        *conductor.get_mut().unwrap() = 100;
        assert_eq!(*conductor.get(), 100);
        assert_eq!(conductor.cycle(), Ok(()));
        assert_eq!(*conductor.get(), 101);
        *conductor.get_mut().unwrap() += 9;
        assert_eq!(conductor.cycle(), Ok(()));
        assert_eq!(*conductor.get(), 111);
    })
    .unwrap();
    assert_eq!(*seen.lock().unwrap(), vec![100, 110]);
}

/// One call of a worker: which worker, which phase, and the ticks of a shared
/// clock at its begin and its end.
#[derive(Clone, Debug, PartialEq)]
struct Call {
    thread: usize,
    worker: usize,
    writes: bool,
    begin: usize,
    end: usize,
}

/// Stamps every call with a shared clock. Writing appends its name to the
/// state.
struct Stamper {
    thread: usize,
    worker: usize,
    clock: Arc<AtomicUsize>,
    calls: Arc<Mutex<Vec<Call>>>,
}

impl Stamper {
    fn stamp(&self, writes: bool) {
        let begin = self.clock.fetch_add(1, Ordering::SeqCst);
        for _ in 0..5_000 {
            std::hint::spin_loop();
        }
        let end = self.clock.fetch_add(1, Ordering::SeqCst);
        self.calls.lock().unwrap().push(Call {
            thread: self.thread,
            worker: self.worker,
            writes,
            begin,
            end,
        });
    }
}

impl Worker<Vec<(usize, usize)>> for Stamper {
    fn cycle(&mut self, _state: &Vec<(usize, usize)>) {
        self.stamp(false);
    }

    fn apply(&mut self, state: &mut Vec<(usize, usize)>) {
        self.stamp(true);
        state.push((self.thread, self.worker));
    }
}

type StamperMaker = Box<dyn FnOnce() -> Stamper + Send>;

fn stamper_thread(
    thread: usize,
    workers: usize,
    clock: &Arc<AtomicUsize>,
    calls: &Arc<Mutex<Vec<Call>>>,
) -> Thread<Vec<(usize, usize)>, StamperMaker> {
    let mut handle: Thread<Vec<(usize, usize)>, StamperMaker> = Thread::new();
    for worker in 0..workers {
        let clock = Arc::clone(clock);
        let calls = Arc::clone(calls);
        handle.add(Box::new(move || Stamper { thread, worker, clock, calls }));
    }
    handle
}

fn stamper_host(seed: Seed<Vec<(usize, usize)>, StamperMaker>) {
    let mut processor = seed.build();
    while processor.serve().is_ok() {}
}

/// Runs `ticks` ticks over threads of the given sizes. Returns the calls of
/// each tick and the state at the end.
fn stamped_ticks(sizes: &[usize], ticks: usize) -> (Vec<Vec<Call>>, Vec<(usize, usize)>) {
    let clock = Arc::new(AtomicUsize::new(0));
    let calls = Arc::new(Mutex::new(Vec::new()));
    let mut handles = Vec::new();
    let mut seeds = Vec::new();
    for (thread, workers) in sizes.iter().enumerate() {
        let mut handle = stamper_thread(thread, *workers, &clock, &calls);
        seeds.push(handle.start());
        handles.push(handle);
    }
    let mut per_tick = Vec::new();
    let mut state = Vec::new();
    scope(|s| {
        for seed in seeds {
            s.spawn(move |_| stamper_host(seed));
        }
        let mut conductor = Conductor::new(Vec::new());
        for handle in handles {
            conductor.add(handle);
        }
        for _ in 0..ticks {
            assert_eq!(conductor.cycle(), Ok(()));
            per_tick.push(std::mem::take(&mut *calls.lock().unwrap()));
        }
        state = conductor.get().clone();
    })
    .unwrap();
    (per_tick, state)
}

#[test]
fn every_worker_reads_once_and_then_writes_once_in_each_tick() {
    let sizes = [2, 0, 3, 1];
    let (per_tick, _) = stamped_ticks(&sizes, 2);
    assert_eq!(per_tick.len(), 2);
    for calls in &per_tick {
        let reads: Vec<&Call> = calls.iter().filter(|c| !c.writes).collect();
        let writes: Vec<&Call> = calls.iter().filter(|c| c.writes).collect();
        assert_eq!(reads.len(), 6);
        assert_eq!(writes.len(), 6);
        for (thread, workers) in sizes.iter().enumerate() {
            let read_by: Vec<usize> =
                reads.iter().filter(|c| c.thread == thread).map(|c| c.worker).collect();
            let written_by: Vec<usize> =
                writes.iter().filter(|c| c.thread == thread).map(|c| c.worker).collect();
            let in_order: Vec<usize> = (0..*workers).collect();
            assert_eq!(read_by, in_order);
            assert_eq!(written_by, in_order);
            for read in reads.iter().filter(|c| c.thread == thread) {
                for write in writes.iter().filter(|c| c.thread == thread) {
                    assert!(read.end < write.begin);
                }
            }
        }
    }
}

#[test]
fn writers_never_overlap() {
    let (per_tick, _) = stamped_ticks(&[2, 2, 2], 3);
    for calls in &per_tick {
        let writes: Vec<&Call> = calls.iter().filter(|c| c.writes).collect();
        assert_eq!(writes.len(), 6);
        for one in &writes {
            assert_eq!(one.end, one.begin + 1);
            for other in &writes {
                if one.thread != other.thread {
                    assert!(one.end < other.begin || other.end < one.begin);
                }
            }
        }
    }
}

#[test]
fn writers_follow_the_roster() {
    let (per_tick, state) = stamped_ticks(&[1, 2, 1], 2);
    let one_tick = vec![(0, 0), (1, 0), (1, 1), (2, 0)];
    let mut two_ticks = one_tick.clone();
    two_ticks.extend(one_tick.iter().cloned());
    assert_eq!(state, two_ticks);
    for calls in &per_tick {
        let mut writes: Vec<&Call> = calls.iter().filter(|c| c.writes).collect();
        writes.sort_by_key(|c| c.begin);
        let order: Vec<(usize, usize)> = writes.iter().map(|c| (c.thread, c.worker)).collect();
        assert_eq!(order, one_tick);
    }
}

#[test]
fn all_reads_of_a_tick_end_before_its_first_write_begins() {
    let (per_tick, _) = stamped_ticks(&[3, 1, 2], 3);
    for calls in &per_tick {
        let last_read = calls.iter().filter(|c| !c.writes).map(|c| c.end).max().unwrap();
        let first_write = calls.iter().filter(|c| c.writes).map(|c| c.begin).min().unwrap();
        assert!(last_read < first_write);
    }
}

#[test]
fn a_tick_fails_once_a_processor_is_gone() {
    let seen = Arc::new(Mutex::new(Vec::new()));
    let mut gone: Thread<u64, Maker> = Thread::new();
    gone.add(recorder(&seen));
    drop(gone.start());
    let mut conductor = Conductor::new(0u64);
    conductor.add(gone);
    assert_eq!(conductor.cycle(), Err(Fault::Disconnected));
    assert!(conductor.holds_state());
    assert_eq!(*conductor.get(), 0);
    assert!(seen.lock().unwrap().is_empty());
}

#[test]
fn an_inverse_tick_fails_once_a_processor_is_gone() {
    let mut gone: Thread<u64, Maker> = Thread::new();
    drop(gone.start());
    let mut conductor = Conductor::new(0u64);
    conductor.add(gone);
    assert_eq!(conductor.inverse_cycle(), Err(Fault::Disconnected));
    assert!(!conductor.holds_state());
    assert!(conductor.get_mut().is_none());
}
