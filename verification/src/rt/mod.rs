//! An asynchronous runtime: the table of timers, tasks and their scheduling, futures and ways to
//! combine them, and generators.

pub mod combinators;
pub mod coroutine;
pub mod executor;
pub mod future;
pub mod reactor;
pub mod runtime;
pub mod task;

pub use crate::pool::oneshot;
pub use executor::block_on;
pub use future::select;
pub use future::Delay;
pub use future::SelectOutput;
pub use reactor::Reactor;
pub use runtime::JoinHandle;
pub use runtime::Runtime;
