//! Lock-free structures and locks.

pub mod clh;
pub mod deque;
pub mod epoch;
pub mod hazard;
pub mod latch;
pub mod mcs;
pub mod parking_lot;
pub mod queue;
pub mod rcu;
pub mod reuse;
pub mod semaphore;
pub mod seqlock;
pub mod stack;
