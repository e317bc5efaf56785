//! A barrier-synchronised, two-phase engine for updating one shared state.
//!
//! Groups of workers, each group on an execution context of its own, first read
//! the state together and then write it one group after the other, driven by a
//! single conductor. One such round is a tick.
//!
//! The parts, leaves first:
//!
//! - [`Worker`] is what an application implements: `cycle` reads the state,
//!   `apply` writes it.
//! - [`Processor`] hosts the workers of one execution context and serves the
//!   events it is sent: every worker reads, or every worker writes in turn.
//! - [`Thread`] is the conductor's handle on one execution context. It collects
//!   the constructors of the workers, hands them over as a [`Seed`] when it is
//!   started, and from then on signals phases and waits for their end.
//! - [`Conductor`] owns the state and the roster of threads, and drives the
//!   ticks.
//!
//! The state is never copied and never locked. It lives behind an `Arc`: for a
//! read every thread gets a handle of its own, and gives it up before it
//! answers; for a write a thread gets the only handle there is, and sends it
//! back with its answer. A processor writes only through a handle that it
//! finds to be the only one.
//!
//! Spawning is left to the user of the library. A started thread yields a
//! seed; on the execution context of one's choice the seed is built into a
//! processor, which is then made to `serve` for as long as it is to live.
//!
//! What is proved: `schedule` states the order of the steps of a tick and its
//! laws, `journal` the way of the state through them, and `tick` what a tick
//! comes to for the workers and the state once every processor has answered.
//! What is taken on trust is in `link`: the channels, and the two operations
//! on an `Arc`.

pub mod conductor;
pub mod event;
pub mod journal;
pub mod link;
pub mod processor;
pub mod schedule;
pub mod thread;
pub mod tick;
pub mod worker;

pub use conductor::Conductor;
pub use event::{Event, Fault, Phase, Reply};
pub use journal::Record;
pub use processor::Processor;
pub use schedule::Step;
pub use thread::{Seed, Thread};
pub use worker::Worker;
