//! Thread pools: the channel on which a task hands back its result, a pool with one shared
//! queue, a work-stealing pool, and parallel algorithms on top of it.

pub mod apply;
pub mod jobs;
pub mod oneshot;
pub mod order;
pub mod par;
pub mod par_sort;
pub mod task;
pub mod v1_shared_queue;
pub mod v3_stealing;
pub mod work;

pub use task::FnOnceOnce;
pub use task::JoinHandle;
pub use task::Task;
pub use v1_shared_queue::SharedQueuePool;
pub use v3_stealing::StealingPool;
