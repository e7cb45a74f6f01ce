//! Synchronisation primitives, a work-stealing scheduler and an async runtime,
//! written as verified protocol cores.

pub mod counting;
pub mod lockfree;
pub mod pool;
pub mod rt;
pub mod sched;
pub mod word;
