use non_blocking_mutex::decisions::{Release, Submission};
use non_blocking_mutex::interleaving::Interleaving;
use non_blocking_mutex::protocol::{Holding, Job};

fn plain(id: u64) -> Job {
    Job { id, runs_last: false, delta: 0 }
}

fn adding(id: u64, delta: u64) -> Job {
    Job { id, runs_last: false, delta }
}

fn last(id: u64) -> Job {
    Job { id, runs_last: true, delta: 0 }
}

fn ran_ids(mutex: &Interleaving) -> Vec<u64> {
    mutex.ran_jobs().iter().map(|job| job.id).collect()
}

/// Runs one uncontended call: submit, run, release.
fn call(mutex: &mut Interleaving, job: Job) {
    assert_eq!(mutex.submit(job), Submission::RunNow);
    assert_eq!(mutex.run(), Some(job));
    assert_eq!(mutex.release(), Some(Release::Finished));
}

#[test]
fn fresh_mutex_is_idle() {
    let mutex = Interleaving::new(4, 0);
    assert_eq!(mutex.task_count(), 0);
    assert!(mutex.has_no_running_tasks());
    assert!(!mutex.has_running_tasks());
    assert_eq!(mutex.holder(), None);
    assert!(mutex.pending_jobs().is_empty());
    assert!(mutex.ran_jobs().is_empty());
}

#[test]
fn uncontended_call_runs_at_once_and_leaves_mutex_idle() {
    let mut mutex = Interleaving::new(4, 0);
    assert_eq!(mutex.submit(plain(1)), Submission::RunNow);
    assert_eq!(mutex.holder(), Some(Holding::Running(plain(1))));
    assert_eq!(mutex.task_count(), 1);
    assert!(mutex.has_running_tasks());
    assert_eq!(mutex.run(), Some(plain(1)));
    assert_eq!(mutex.holder(), Some(Holding::Releasing));
    assert_eq!(mutex.release(), Some(Release::Finished));
    assert_eq!(mutex.holder(), None);
    assert_eq!(mutex.task_count(), 0);
    assert_eq!(ran_ids(&mutex), vec![1]);
}

/// The `can_use_Fn` scenario: two calls each add the next two numbers of calls (3 + 4,
/// then 5 + 6), and a third call reads the state.
#[test]
fn sequential_calls_run_in_call_order() {
    let mut mutex = Interleaving::new(4, 0);
    call(&mut mutex, adding(1, 3 + 4));
    call(&mut mutex, adding(2, 5 + 6));
    call(&mut mutex, plain(3));
    assert_eq!(ran_ids(&mutex), vec![1, 2, 3]);
    assert_eq!(mutex.seen_states(), &vec![0, 7, 18]);
    assert_eq!(mutex.state(), 18);
}

/// The `can_use_Fn_recursively` scenario: each outer task schedules an inner task on the
/// same mutex while it holds it; the inner task runs once the outer one ended. Each task
/// adds the next two numbers of calls.
#[test]
fn task_scheduled_from_inside_runs_after_the_holder_task() {
    let mut mutex = Interleaving::new(4, 0);
    // outer task 1 (3 + 4), inner task 11 (5 + 6)
    assert_eq!(mutex.submit(adding(1, 7)), Submission::RunNow);
    assert_eq!(mutex.submit(adding(11, 11)), Submission::Enqueue);
    assert_eq!(mutex.push(0), Some(adding(11, 11)));
    assert_eq!(mutex.run(), Some(adding(1, 7)));
    assert_eq!(mutex.release(), Some(Release::TakeNext));
    assert_eq!(mutex.take(), Some(adding(11, 11)));
    assert_eq!(mutex.run(), Some(adding(11, 11)));
    assert_eq!(mutex.release(), Some(Release::Finished));
    let state_1 = mutex.state();
    // outer task 2 (7 + 8), inner task 12 (9 + 10)
    assert_eq!(mutex.submit(adding(2, 15)), Submission::RunNow);
    assert_eq!(mutex.submit(adding(12, 19)), Submission::Enqueue);
    assert_eq!(mutex.push(0), Some(adding(12, 19)));
    assert_eq!(mutex.run(), Some(adding(2, 15)));
    assert_eq!(mutex.release(), Some(Release::TakeNext));
    assert_eq!(mutex.take(), Some(adding(12, 19)));
    assert_eq!(mutex.run(), Some(adding(12, 19)));
    assert_eq!(mutex.release(), Some(Release::Finished));
    let state_2 = mutex.state();
    // the task that reads the state
    call(&mut mutex, plain(3));
    assert_eq!(ran_ids(&mutex), vec![1, 11, 2, 12, 3]);
    assert!(mutex.has_no_running_tasks());
    assert_eq!(state_1, 18);
    assert_eq!(state_2, 52);
    assert_eq!(mutex.seen_states(), &vec![0, 7, 18, 33, 52]);
    assert_eq!(mutex.state(), 52);
}

#[test]
fn state_wraps_around() {
    let mut mutex = Interleaving::new(1, u64::MAX);
    call(&mut mutex, adding(1, 2));
    assert_eq!(mutex.state(), 1);
    assert_eq!(mutex.seen_states(), &vec![u64::MAX]);
}

#[test]
fn only_one_caller_holds_the_mutex() {
    let mut mutex = Interleaving::new(2, 0);
    assert_eq!(mutex.submit(plain(1)), Submission::RunNow);
    assert_eq!(mutex.submit(plain(2)), Submission::Enqueue);
    assert_eq!(mutex.submit(plain(3)), Submission::Enqueue);
    assert_eq!(mutex.holder(), Some(Holding::Running(plain(1))));
    assert_eq!(mutex.pending_jobs(), &vec![plain(2), plain(3)]);
    assert_eq!(mutex.task_count(), 3);
}

#[test]
fn holder_waits_for_a_pending_push() {
    let mut mutex = Interleaving::new(2, 0);
    mutex.submit(plain(1));
    mutex.submit(plain(2));
    assert_eq!(mutex.run(), Some(plain(1)));
    assert_eq!(mutex.release(), Some(Release::TakeNext));
    assert_eq!(mutex.holder(), Some(Holding::Taking));
    // the queue is still empty: the pending call has not pushed yet
    assert_eq!(mutex.take(), None);
    assert_eq!(mutex.holder(), Some(Holding::Taking));
    assert_eq!(mutex.push(0), Some(plain(2)));
    assert_eq!(mutex.take(), Some(plain(2)));
    assert_eq!(mutex.run(), Some(plain(2)));
    assert_eq!(mutex.release(), Some(Release::Finished));
    assert_eq!(mutex.task_count(), 0);
}

#[test]
fn queue_hands_back_the_pushed_jobs() {
    let mut mutex = Interleaving::new(8, 0);
    mutex.submit(plain(1));
    mutex.submit(plain(20));
    mutex.submit(plain(30));
    assert_eq!(mutex.push(1), Some(plain(30)));
    assert_eq!(mutex.push(0), Some(plain(20)));
    mutex.run();
    mutex.release();
    let first = mutex.take().unwrap();
    mutex.run();
    assert_eq!(mutex.release(), Some(Release::TakeNext));
    let second = mutex.take().unwrap();
    mutex.run();
    assert_eq!(mutex.release(), Some(Release::Finished));
    let mut taken = vec![first.id, second.id];
    taken.sort();
    assert_eq!(taken, vec![20, 30]);
    let mut ran = ran_ids(&mutex);
    ran.sort();
    assert_eq!(ran, vec![1, 20, 30]);
}

#[test]
fn steps_that_cannot_be_taken_change_nothing() {
    let mut mutex = Interleaving::new(1, 0);
    assert_eq!(mutex.push(0), None);
    assert_eq!(mutex.run(), None);
    assert_eq!(mutex.release(), None);
    assert_eq!(mutex.take(), None);
    mutex.submit(plain(1));
    assert_eq!(mutex.release(), None);
    assert_eq!(mutex.take(), None);
    assert_eq!(mutex.push(3), None);
    assert_eq!(mutex.task_count(), 1);
    assert_eq!(mutex.holder(), Some(Holding::Running(plain(1))));
}

#[test]
fn holder_runs_every_scheduled_task_until_idle() {
    let mut mutex = Interleaving::new(4, 0);
    mutex.submit(plain(1));
    for id in 2..=6 {
        assert_eq!(mutex.submit(plain(id)), Submission::Enqueue);
    }
    while mutex.push(0).is_some() {}
    assert_eq!(mutex.task_count(), 6);
    mutex.run_holder_until_idle();
    assert_eq!(mutex.task_count(), 0);
    assert_eq!(mutex.holder(), None);
    let mut ran = ran_ids(&mutex);
    assert_eq!(ran[0], 1);
    ran.sort();
    assert_eq!(ran, vec![1, 2, 3, 4, 5, 6]);
}

#[test]
fn run_last_task_on_idle_mutex_runs_and_keeps_count_raised() {
    let mut mutex = Interleaving::new(1, 0);
    assert_eq!(mutex.submit(last(9)), Submission::RunNow);
    assert_eq!(mutex.holder(), Some(Holding::RunningToEnd(last(9))));
    assert_eq!(mutex.run(), Some(last(9)));
    assert_eq!(mutex.holder(), None);
    assert_eq!(mutex.task_count(), 1);
    assert!(mutex.has_running_tasks());
    // a later call is only scheduled, and nothing will run it
    assert_eq!(mutex.submit(plain(1)), Submission::Enqueue);
    assert_eq!(mutex.holder(), None);
}

#[test]
fn run_last_task_reschedules_until_it_is_alone() {
    let mut mutex = Interleaving::new(1, 0);
    mutex.submit(plain(1));
    assert_eq!(mutex.submit(last(9)), Submission::Enqueue);
    assert_eq!(mutex.push(0), Some(last(9)));
    assert_eq!(mutex.submit(plain(2)), Submission::Enqueue);
    assert_eq!(mutex.push(0), Some(plain(2)));
    assert_eq!(mutex.run(), Some(plain(1)));
    assert_eq!(mutex.release(), Some(Release::TakeNext));
    let mut taken = mutex.take().unwrap();
    if taken == last(9) {
        // another task is outstanding: the run-last task goes back to the queue
        assert_eq!(mutex.run(), None);
        assert_eq!(mutex.pending_jobs(), &vec![last(9)]);
        assert_eq!(mutex.push(0), Some(last(9)));
        assert_eq!(mutex.release(), Some(Release::TakeNext));
        taken = mutex.take().unwrap();
    }
    assert_eq!(taken, plain(2));
    assert_eq!(mutex.run(), Some(plain(2)));
    assert_eq!(mutex.release(), Some(Release::TakeNext));
    assert_eq!(mutex.take(), Some(last(9)));
    // now it is the only outstanding task: it runs
    assert_eq!(mutex.run(), Some(last(9)));
    assert_eq!(ran_ids(&mutex), vec![1, 2, 9]);
    // it gave its unit of the count back: the holder reads one and leaves
    assert_eq!(mutex.task_count(), 1);
    assert_eq!(mutex.release(), Some(Release::Finished));
    assert_eq!(mutex.task_count(), 0);
    assert_eq!(mutex.holder(), None);
    assert!(mutex.has_no_running_tasks());
}
