use conductor::{Conductor, Event, Fault, Phase, Processor, Reply, Seed, Thread, Worker};
use crossbeam_channel::RecvError;
use crossbeam_utils::thread::scope;
use std::sync::{Arc, Mutex};

/// Stages twice what it reads plus its own offset, and writes what it staged.
struct Doubler {
    offset: i64,
    staged: i64,
}

impl Worker<i64> for Doubler {
    fn cycle(&mut self, state: &i64) {
        self.staged = 2 * *state + self.offset;
    }

    fn apply(&mut self, state: &mut i64) {
        *state = self.staged;
    }
}

/// Multiplies or adds when it writes, so that the order of two writes shows.
enum Op {
    Times(i64),
    Plus(i64),
}

impl Worker<i64> for Op {
    fn cycle(&mut self, _state: &i64) {}

    fn apply(&mut self, state: &mut i64) {
        match self {
            Op::Times(factor) => *state *= *factor,
            Op::Plus(term) => *state += *term,
        }
    }
}

type OpMaker = Box<dyn FnOnce() -> Op + Send>;

fn ops(ops: Vec<Op>) -> (Thread<i64, OpMaker>, Processor<i64, Op>) {
    let mut handle: Thread<i64, OpMaker> = Thread::new();
    for op in ops {
        handle.add(Box::new(move || op));
    }
    let processor = handle.start().build();
    (handle, processor)
}

#[test]
fn a_new_thread_is_not_started() {
    let handle: Thread<i64, OpMaker> = Thread::new();
    assert!(!handle.is_started());
}

#[test]
fn the_channels_of_a_thread_have_one_slot() {
    let mut handle: Thread<i64, OpMaker> = Thread::new();
    assert_eq!(handle.slots(), 1);
    handle.add(Box::new(|| Op::Plus(1)));
    let mut processor = handle.start().build();
    assert_eq!(handle.slots(), 1);
    // One signal waits in its slot with nobody receiving, and so does one
    // answer.
    assert_eq!(handle.cycle(Arc::new(0)), Ok(()));
    assert_eq!(processor.serve(), Ok(Phase::Cycle));
    assert_eq!(handle.wait(), Ok(()));
}

#[test]
fn a_started_thread_stays_started() {
    let mut handle: Thread<i64, OpMaker> = Thread::new();
    handle.add(Box::new(|| Op::Plus(1)));
    assert!(!handle.is_started());
    let seed = handle.start();
    assert!(handle.is_started());
    assert!(handle.is_started());
    assert_eq!(seed.len(), 1);
    assert!(handle.is_started());
}

#[test]
fn starting_hands_over_every_constructor() {
    let mut handle: Thread<i64, OpMaker> = Thread::new();
    let empty: Thread<i64, OpMaker> = Thread::new();
    handle.add(Box::new(|| Op::Plus(1)));
    handle.add(Box::new(|| Op::Times(2)));
    handle.add(Box::new(|| Op::Plus(3)));
    let seed = handle.start();
    assert_eq!(seed.len(), 3);
    assert_eq!(seed.build().len(), 3);
    let mut empty = empty;
    assert_eq!(empty.start().build().len(), 0);
}

#[test]
fn workers_are_built_in_the_order_of_registration() {
    let built = Arc::new(Mutex::new(Vec::new()));
    let mut handle: Thread<i64, OpMaker> = Thread::new();
    for name in [7, 3, 5] {
        let built = Arc::clone(&built);
        handle.add(Box::new(move || {
            built.lock().unwrap().push(name);
            Op::Plus(name)
        }));
    }
    let seed = handle.start();
    assert!(built.lock().unwrap().is_empty());
    let mut processor = seed.build();
    assert_eq!(*built.lock().unwrap(), vec![7, 3, 5]);
    let mut state = 0;
    processor.apply(&mut state);
    assert_eq!(state, 15);
}

#[test]
fn a_processor_writes_in_the_order_of_registration() {
    let (_handle, mut processor) = ops(vec![Op::Times(2), Op::Plus(3)]);
    let mut state = 5;
    processor.apply(&mut state);
    assert_eq!(state, 13);
    let (_handle, mut processor) = ops(vec![Op::Plus(3), Op::Times(2)]);
    let mut state = 5;
    processor.apply(&mut state);
    assert_eq!(state, 16);
}

#[test]
fn a_processor_has_every_worker_read_the_same_state() {
    let mut handle: Thread<i64, Box<dyn FnOnce() -> Doubler + Send>> = Thread::new();
    handle.add(Box::new(|| Doubler { offset: 1, staged: 0 }));
    handle.add(Box::new(|| Doubler { offset: 100, staged: 0 }));
    let mut processor = handle.start().build();
    let mut state = 10;
    processor.cycle(&state);
    assert_eq!(state, 10);
    state = -1;
    processor.apply(&mut state);
    assert_eq!(state, 120);
}

#[test]
fn reading_leaves_the_state_alone() {
    let (_handle, mut processor) = ops(vec![Op::Times(2), Op::Plus(3)]);
    let state = 5;
    processor.cycle(&state);
    assert_eq!(state, 5);
}

#[test]
fn the_phase_of_an_event() {
    assert_eq!(Event::Cycle(Arc::new(1)).phase(), Phase::Cycle);
    assert_eq!(Event::Apply(Arc::new(1)).phase(), Phase::Apply);
}

#[test]
fn a_cycle_is_answered_and_the_view_released() {
    let (_handle, mut processor) = ops(vec![Op::Plus(1)]);
    let state = Arc::new(5);
    let reply = processor.dispatch(Event::Cycle(Arc::clone(&state)));
    assert!(matches!(reply, Reply::Cycled));
    assert_eq!(Arc::strong_count(&state), 1);
    assert_eq!(*state, 5);
}

#[test]
fn an_apply_on_the_only_view_is_carried_out() {
    let (_handle, mut processor) = ops(vec![Op::Times(4), Op::Plus(1)]);
    match processor.dispatch(Event::Apply(Arc::new(5))) {
        Reply::Applied(state) => assert_eq!(*state, 21),
        _ => panic!("the only view was refused"),
    }
}

#[test]
fn an_apply_on_a_shared_view_is_refused() {
    let (_handle, mut processor) = ops(vec![Op::Times(4), Op::Plus(1)]);
    let state = Arc::new(5);
    match processor.dispatch(Event::Apply(Arc::clone(&state))) {
        Reply::Refused(back) => {
            assert!(Arc::ptr_eq(&back, &state));
            assert_eq!(*back, 5);
        },
        _ => panic!("a shared view was written"),
    }
    assert_eq!(*state, 5);
}

#[test]
fn a_signal_is_served_and_acknowledged() {
    let (mut handle, mut processor) = ops(vec![Op::Plus(1)]);
    assert_eq!(handle.cycle(Arc::new(0)), Ok(()));
    assert_eq!(processor.serve(), Ok(Phase::Cycle));
    assert_eq!(handle.wait(), Ok(()));
    assert_eq!(handle.cycle(Arc::new(0)), Ok(()));
    assert_eq!(processor.serve(), Ok(Phase::Cycle));
    assert_eq!(handle.wait(), Ok(()));
}

#[test]
fn an_apply_brings_the_written_state_back() {
    let (mut handle, mut processor) = ops(vec![Op::Plus(1), Op::Times(10)]);
    scope(|s| {
        s.spawn(move |_| while processor.serve().is_ok() {});
        let state = handle.apply(Arc::new(4)).unwrap();
        assert_eq!(*state, 50);
        let state = handle.apply(state).unwrap();
        assert_eq!(*state, 510);
        drop(handle);
    })
    .unwrap();
}

#[test]
fn an_apply_on_a_shared_view_is_a_fault() {
    let (mut handle, mut processor) = ops(vec![Op::Plus(1)]);
    scope(|s| {
        s.spawn(move |_| while processor.serve().is_ok() {});
        let state = Arc::new(4);
        let kept = Arc::clone(&state);
        assert_eq!(handle.apply(state).err(), Some(Fault::Shared));
        assert_eq!(*kept, 4);
        drop(handle);
    })
    .unwrap();
}

#[test]
fn signalling_fails_once_the_processor_is_gone() {
    let (mut handle, processor) = ops(vec![Op::Plus(1)]);
    drop(processor);
    assert_eq!(handle.cycle(Arc::new(0)), Err(Fault::Disconnected));
    assert_eq!(handle.apply(Arc::new(0)).err(), Some(Fault::Disconnected));
}

#[test]
fn waiting_fails_once_the_processor_is_gone() {
    let (mut handle, processor) = ops(vec![Op::Plus(1)]);
    assert_eq!(handle.cycle(Arc::new(0)), Ok(()));
    drop(processor);
    assert_eq!(handle.wait(), Err(Fault::Disconnected));
}

#[test]
fn serving_fails_once_the_thread_is_gone() {
    let (handle, mut processor) = ops(vec![Op::Plus(1)]);
    drop(handle);
    assert_eq!(processor.serve(), Err(Fault::Disconnected));
    assert_eq!(processor.len(), 1);
}

#[test]
fn a_conductor_owns_what_it_is_given() {
    let mut conductor: Conductor<i64, OpMaker> = Conductor::new(-3);
    assert!(conductor.holds_state());
    assert_eq!(*conductor.get(), -3);
    *conductor.get_mut().unwrap() = 8;
    assert_eq!(*conductor.get(), 8);
}

#[test]
fn a_seed_can_be_hosted_anywhere() {
    fn host(seed: Seed<i64, OpMaker>) -> Processor<i64, Op> {
        seed.build()
    }
    let mut handle: Thread<i64, OpMaker> = Thread::new();
    handle.add(Box::new(|| Op::Plus(2)));
    let mut processor = host(handle.start());
    let mut state = 1;
    processor.apply(&mut state);
    assert_eq!(state, 3);
}

#[test]
fn handles_and_seeds_can_move_between_execution_contexts() {
    fn movable<T: Send>() {}
    movable::<Seed<i64, OpMaker>>();
    movable::<Thread<i64, OpMaker>>();
    movable::<Conductor<i64, OpMaker>>();
}

#[test]
fn what_is_received_settles_an_apply() {
    let applied = Thread::<i64, OpMaker>::settle(Ok(Reply::Applied(Arc::new(9))));
    assert_eq!(applied.map(|state| *state), Ok(9));
    let refused = Thread::<i64, OpMaker>::settle(Ok(Reply::Refused(Arc::new(9))));
    assert_eq!(refused.err(), Some(Fault::Shared));
    let cycled = Thread::<i64, OpMaker>::settle(Ok(Reply::Cycled));
    assert_eq!(cycled.err(), Some(Fault::Mismatch));
    let nothing = Thread::<i64, OpMaker>::settle(Err(RecvError));
    assert_eq!(nothing.err(), Some(Fault::Disconnected));
}

#[test]
fn what_is_received_ends_a_wait() {
    assert_eq!(Thread::<i64, OpMaker>::acknowledge(Ok(Reply::Cycled)), Ok(()));
    assert_eq!(
        Thread::<i64, OpMaker>::acknowledge(Ok(Reply::Applied(Arc::new(1)))),
        Err(Fault::Mismatch)
    );
    assert_eq!(
        Thread::<i64, OpMaker>::acknowledge(Ok(Reply::Refused(Arc::new(1)))),
        Err(Fault::Mismatch)
    );
    assert_eq!(Thread::<i64, OpMaker>::acknowledge(Err(RecvError)), Err(Fault::Disconnected));
}

#[test]
fn a_started_thread_refuses_every_constructor() {
    let mut handle: Thread<i64, OpMaker> = Thread::new();
    assert!(handle.try_add(Box::new(|| Op::Plus(1))).is_ok());
    assert!(handle.try_add(Box::new(|| Op::Plus(2))).is_ok());
    let mut processor = handle.start().build();
    assert_eq!(processor.len(), 2);
    for term in 0..3 {
        match handle.try_add(Box::new(move || Op::Plus(term))) {
            Ok(()) => panic!("a started thread took a constructor"),
            Err(back) => {
                let mut state = 10;
                back().apply(&mut state);
                assert_eq!(state, 10 + term);
            },
        }
        assert!(handle.is_started());
    }
    assert_eq!(handle.cycle(Arc::new(0)), Ok(()));
    assert_eq!(processor.serve(), Ok(Phase::Cycle));
    assert!(handle.try_add(Box::new(|| Op::Plus(7))).is_err());
    assert_eq!(handle.wait(), Ok(()));
    assert!(handle.try_add(Box::new(|| Op::Plus(7))).is_err());
    assert_eq!(processor.len(), 2);
}

#[test]
fn serving_fails_once_the_answer_cannot_be_delivered() {
    let (mut handle, mut processor) = ops(vec![Op::Plus(1)]);
    assert_eq!(handle.cycle(Arc::new(0)), Ok(()));
    drop(handle);
    assert_eq!(processor.serve(), Err(Fault::Undelivered));
    assert_eq!(processor.serve(), Err(Fault::Disconnected));
}

#[test]
fn a_thread_of_the_roster_is_started_in_place() {
    let mut early: Thread<i64, OpMaker> = Thread::new();
    early.add(Box::new(|| Op::Plus(1)));
    let mut late: Thread<i64, OpMaker> = Thread::new();
    late.add(Box::new(|| Op::Times(3)));
    late.add(Box::new(|| Op::Plus(2)));
    let early_seed = early.start();
    let mut conductor = Conductor::new(4);
    conductor.add(early);
    conductor.add(late);
    assert_eq!(conductor.len(), 2);
    assert!(conductor.is_started(0));
    assert!(!conductor.is_started(1));
    let late_seed = conductor.start(1);
    assert!(conductor.is_started(0));
    assert!(conductor.is_started(1));
    assert_eq!(late_seed.len(), 2);
    assert_eq!(*conductor.get(), 4);
    scope(|s| {
        s.spawn(move |_| {
            let mut processor = early_seed.build();
            while processor.serve().is_ok() {}
        });
        s.spawn(move |_| {
            let mut processor = late_seed.build();
            while processor.serve().is_ok() {}
        });
        assert_eq!(conductor.cycle(), Ok(()));
        assert_eq!(*conductor.get(), 17);
        drop(conductor);
    })
    .unwrap();
}
