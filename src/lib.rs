//! A small single-threaded cooperative executor.
//!
//! Tasks live in an arena and are named by their index there. The ready
//! queue is a bounded FIFO of such indices; a task is resumed each time its
//! index comes out of the queue, and it asks to be resumed again by waking
//! itself through the [`Context`] it is handed.

pub mod executor;
pub mod hello;
pub mod queue;
pub mod task;

pub use executor::{Executor, RunReport, DEFAULT_CAPACITY};
pub use hello::{Hello, StateHello};
pub use queue::{ReadyQueue, SubmitError};
pub use task::{Computation, Context, Poll, Step};
