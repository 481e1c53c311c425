//! The task-count protocol of a non-blocking mutex: the first caller to raise the
//! shared task count from zero runs its own task and then drains the queue of
//! tasks that later callers scheduled; every other caller only enqueues.

pub mod decisions;
pub mod protocol;
pub mod task_queue;
pub mod interleaving;
