use non_blocking_mutex::decisions::{
    decide_last_turn, decide_release, decide_submission, has_no_running_tasks,
    has_running_tasks, LastTurn, Release, Submission,
};

#[test]
fn first_caller_runs_now() {
    assert_eq!(decide_submission(0), Submission::RunNow);
}

#[test]
fn later_callers_enqueue() {
    assert_eq!(decide_submission(1), Submission::Enqueue);
    assert_eq!(decide_submission(7), Submission::Enqueue);
    assert_eq!(decide_submission(usize::MAX), Submission::Enqueue);
}

#[test]
fn holder_finishes_when_count_was_one() {
    assert_eq!(decide_release(1), Release::Finished);
}

#[test]
fn holder_takes_next_when_other_tasks_are_outstanding() {
    assert_eq!(decide_release(2), Release::TakeNext);
    assert_eq!(decide_release(100), Release::TakeNext);
    assert_eq!(decide_release(0), Release::TakeNext);
}

#[test]
fn run_last_task_runs_only_when_alone() {
    assert_eq!(decide_last_turn(1), LastTurn::RunNow);
    assert_eq!(decide_last_turn(0), LastTurn::Reschedule);
    assert_eq!(decide_last_turn(2), LastTurn::Reschedule);
    assert_eq!(decide_last_turn(usize::MAX), LastTurn::Reschedule);
}

#[test]
fn running_tasks_follow_the_count() {
    assert!(!has_running_tasks(0));
    assert!(has_running_tasks(1));
    assert!(has_running_tasks(42));
    assert!(has_no_running_tasks(0));
    assert!(!has_no_running_tasks(1));
    assert!(!has_no_running_tasks(42));
}
