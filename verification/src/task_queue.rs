//! The queue of scheduled tasks, kept in a `sharded_queue::ShardedQueue` that this
//! library holds exclusively (through `&mut`), so that its contents are a function of
//! the calls made on it.

use vstd::prelude::*;
use vstd::multiset::Multiset;
use sharded_queue::ShardedQueue;
use crate::protocol::Job;

verus! {

/// Declares `sharded_queue::ShardedQueue` to Verus, as an opaque type.
#[verifier::external_type_specification]
#[verifier::external_body]
#[verifier::reject_recursive_types(Item)]
pub struct ExShardedQueue<Item>(ShardedQueue<Item>);

/// The jobs that a queue holds, as a multiset: the queue promises no order of retrieval.
pub uninterp spec fn queued_jobs(queue: ShardedQueue<Job>) -> Multiset<Job>;

/// The largest `max_concurrent_thread_count` handed to `ShardedQueue::new` here. The
/// parameter counts the threads that can reach the mutex at the same time, which
/// hardware keeps far below this; the queue allocates one shard per such thread, rounded
/// up to a power of two, and the bound keeps that allocation small.
pub const MAX_SHARD_THREADS: usize = 1048576;

/// Calls `ShardedQueue::new`, which allocates its shards, all empty: the new queue
/// holds no job. The bound keeps the shard count (a power of two at least
/// `max_concurrent_thread_count`) small enough to allocate.
#[verifier::external_body]
pub(crate) fn new_task_queue(max_concurrent_thread_count: usize) -> (queue: ShardedQueue<Job>)
    requires
        max_concurrent_thread_count <= MAX_SHARD_THREADS,
    ensures
        queued_jobs(queue) =~= Multiset::<Job>::empty(),
{
    ShardedQueue::new(max_concurrent_thread_count)
}

/// Calls `ShardedQueue::push_back`, which appends the job to one shard under that
/// shard's spin lock: the queue then holds one more copy of `job`.
#[verifier::external_body]
pub(crate) fn push_job(queue: &mut ShardedQueue<Job>, job: Job)
    ensures
        queued_jobs(*final(queue)) =~= queued_jobs(*old(queue)).insert(job),
{
    queue.push_back(job)
}

/// Calls `ShardedQueue::pop_front_or_spin_wait_item`, which spins until the shard that
/// its head index selects holds a job and removes that job. With exclusive access and a
/// non-empty queue the selected shard holds one (each completed pop and push moved the
/// head or tail index by one), so the call returns; which of the held jobs comes out is
/// left unsaid: only that it was held and is held no more.
#[verifier::external_body]
pub(crate) fn pop_job(queue: &mut ShardedQueue<Job>) -> (job: Job)
    requires
        queued_jobs(*old(queue)).len() > 0,
    ensures
        queued_jobs(*old(queue)).contains(job),
        queued_jobs(*final(queue)) =~= queued_jobs(*old(queue)).remove(job),
{
    queue.pop_front_or_spin_wait_item()
}

} // verus!
