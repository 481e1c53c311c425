//! What a caller of the mutex does with each value it reads from the shared task count.

use vstd::prelude::*;

verus! {

/// What a caller does after raising the task count by one.
#[derive(PartialEq, Eq, Structural, Clone, Copy, Debug)]
pub enum Submission {
    /// The count was zero: this caller now holds the mutex and runs its task at once.
    RunNow,
    /// Another caller holds the mutex: the task goes to the queue, to be run by that caller.
    Enqueue,
}

/// What the holder of the mutex does after lowering the task count by one, once a task has run.
#[derive(PartialEq, Eq, Structural, Clone, Copy, Debug)]
pub enum Release {
    /// The count was one: no task is outstanding, the holder leaves the mutex.
    Finished,
    /// Other tasks are outstanding: the holder takes the next one from the queue and runs it.
    TakeNext,
}

/// What a task that must run last does when the holder runs it, after raising the count by one.
#[derive(PartialEq, Eq, Structural, Clone, Copy, Debug)]
pub enum LastTurn {
    /// Nothing else is outstanding: the task runs at once.
    RunNow,
    /// Other tasks are outstanding: the task goes back to the queue.
    Reschedule,
}

/// The decision of a caller that read `previous_task_count` while raising the count.
pub open spec fn submission_for(previous_task_count: nat) -> Submission {
    if previous_task_count == 0 {
        Submission::RunNow
    } else {
        Submission::Enqueue
    }
}

/// The decision of the holder that read `previous_task_count` while lowering the count.
pub open spec fn release_for(previous_task_count: nat) -> Release {
    if previous_task_count == 1 {
        Release::Finished
    } else {
        Release::TakeNext
    }
}

/// The decision of a run-last task that read `previous_task_count` while raising the count.
pub open spec fn last_turn_for(previous_task_count: nat) -> LastTurn {
    if previous_task_count == 1 {
        LastTurn::RunNow
    } else {
        LastTurn::Reschedule
    }
}

/// Decides, from the value that the increment of the task count returned, whether the
/// caller runs its task now (it was the first) or schedules it on the holder.
pub fn decide_submission(previous_task_count: usize) -> (submission: Submission)
    ensures
        submission == submission_for(previous_task_count as nat),
        (submission == Submission::RunNow) <==> previous_task_count == 0,
{
    if previous_task_count != 0 {
        Submission::Enqueue
    } else {
        Submission::RunNow
    }
}

/// Decides, from the value that the decrement of the task count returned after a task
/// ran, whether the holder is done or must take the next task from the queue.
pub fn decide_release(previous_task_count: usize) -> (release: Release)
    ensures
        release == release_for(previous_task_count as nat),
        (release == Release::Finished) <==> previous_task_count == 1,
{
    if previous_task_count != 1 {
        Release::TakeNext
    } else {
        Release::Finished
    }
}

/// Decides, for a task that must run last, from the value that its increment of the
/// task count returned, whether it runs now or goes back to the queue.
pub fn decide_last_turn(previous_task_count: usize) -> (turn: LastTurn)
    ensures
        turn == last_turn_for(previous_task_count as nat),
        (turn == LastTurn::RunNow) <==> previous_task_count == 1,
{
    if previous_task_count == 1 {
        LastTurn::RunNow
    } else {
        LastTurn::Reschedule
    }
}

/// Whether a task count read from the mutex shows a task running or scheduled.
pub fn has_running_tasks(task_count: usize) -> (running: bool)
    ensures
        running <==> task_count != 0,
{
    task_count != 0
}

/// Whether a task count read from the mutex shows no task running or scheduled.
pub fn has_no_running_tasks(task_count: usize) -> (idle: bool)
    ensures
        idle <==> task_count == 0,
{
    task_count == 0
}

} // verus!
