//! A fixed-size worker pool, verified.
//!
//! The pool's coordination logic is a sequential state machine: callers submit
//! jobs, workers ask for the next one, and shutdown closes the queue and hands
//! back the workers to join. Everything that blocks or spawns lives with the
//! caller; every decision lives here, with a contract.
//!
//! - [`queue`]: the first-in, first-out channel of jobs.
//! - [`worker`]: what the pool keeps of one worker.
//! - [`pool`]: the pool itself.
//! - [`model`]: the pool's history, and its steps as functions on it.
//! - [`guarantees`]: what holds of every pool, proved from the model.
//!
//! The crate also holds the small validated-input routine that picks a port
//! number from lines of text, in [`port`], on top of [`text`].

pub mod guarantees;
pub mod model;
pub mod pool;
pub mod port;
pub mod queue;
pub mod text;
pub mod worker;

pub use pool::ThreadPool;
pub use port::{getvalidport, PortChoice, PortError, PortNumber, Reply};
pub use queue::{Received, WorkQueue};
pub use worker::{Worker, WorkerState};
