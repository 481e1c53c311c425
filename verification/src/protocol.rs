//! A model of the whole mutex as a transition system: the shared task count, the
//! queue, the calls that still have to push their task, the calls that hold the mutex,
//! and the order in which tasks ran. Each transition is one atomic step of one call,
//! and each decision in it is the one that `decisions` makes.

use vstd::prelude::*;
use vstd::multiset::Multiset;
use crate::decisions::{
    Submission, Release, LastTurn, submission_for, release_for, last_turn_for,
};

verus! {

broadcast use vstd::multiset::group_multiset_axioms;

/// A task handed to the mutex, named by an identifier. `runs_last` marks a task given to
/// the run-last operation, which reschedules itself until it is the only one left.
/// `delta` is what the task adds to a counter state; the model itself lets a task do
/// anything to the state (see `MutexModel<S>::effect`).
#[derive(PartialEq, Eq, Structural, Clone, Copy, Debug)]
pub struct Job {
    pub id: u64,
    pub runs_last: bool,
    pub delta: u64,
}

/// A counter state after `job` added its `delta` to it (wrapping).
pub open spec fn add_delta(state: u64, job: Job) -> u64 {
    if state + job.delta > u64::MAX {
        (state + job.delta - 0x1_0000_0000_0000_0000) as u64
    } else {
        (state + job.delta) as u64
    }
}

/// Each job adds its `delta` to a counter state.
pub open spec fn delta_effect() -> spec_fn(u64, Job) -> u64 {
    |state: u64, job: Job| add_delta(state, job)
}

/// The state after `jobs` ran on `state`, one at a time, in order, each doing `effect`.
pub open spec fn run_in_order<S>(effect: spec_fn(S, Job) -> S, state: S, jobs: Seq<Job>) -> S
    decreases jobs.len(),
{
    if jobs.len() == 0 {
        state
    } else {
        effect(run_in_order(effect, state, jobs.drop_last()), jobs.last())
    }
}

/// Where a call that holds the mutex stands.
#[derive(PartialEq, Eq, Structural, Clone, Copy, Debug)]
pub enum Holding {
    /// It runs a job (its own or one taken from the queue), then lowers the count.
    Running(Job),
    /// It runs its own run-last job, taken at a count of zero, and leaves without
    /// lowering the count.
    RunningToEnd(Job),
    /// A job has run; it lowers the count next.
    Releasing,
    /// The count showed outstanding jobs; it takes one from the queue next.
    Taking,
}

/// The state of the mutex and of the calls in progress on it.
#[verifier::reject_recursive_types(S)]
pub struct MutexModel<S> {
    /// The shared task count.
    pub task_count: nat,
    /// The jobs in the queue.
    pub queue: Multiset<Job>,
    /// The jobs of calls that raised the count and still have to push them.
    pub pushing: Seq<Job>,
    /// The calls that hold the mutex.
    pub holders: Seq<Holding>,
    /// The jobs that ran, in the order they ran.
    pub ran: Seq<Job>,
    /// Every job handed to the mutex so far.
    pub submitted: Multiset<Job>,
    /// The state that the mutex protects.
    pub state: S,
    /// The state the mutex was made with.
    pub initial_state: S,
    /// The state each task that ran found, in the order they ran.
    pub seen: Seq<S>,
    /// What a task does to the state: running `job` on `state` leaves `effect(state, job)`.
    pub effect: spec_fn(S, Job) -> S,
    /// Units of the count that no call will give back (run-last jobs that ran on an idle
    /// mutex, whose call keeps the count raised on purpose).
    pub abandoned: nat,
}

/// One atomic step of one call.
pub enum Step {
    /// A call hands `job` to the mutex and raises the count.
    Submit(Job),
    /// The pending call at this index pushes its job to the queue.
    Push(nat),
    /// The holder at this index runs its job.
    Run(nat),
    /// The holder at this index lowers the count.
    Release(nat),
    /// The holder at this index takes `job` from the queue.
    Take(nat, Job),
}

/// The mutex as `new` leaves it, made with `state`, its tasks doing `effect`.
pub open spec fn initial<S>(state: S, effect: spec_fn(S, Job) -> S) -> MutexModel<S> {
    MutexModel {
        effect,
        state,
        initial_state: state,
        seen: Seq::empty(),
        task_count: 0,
        queue: Multiset::empty(),
        pushing: Seq::empty(),
        holders: Seq::empty(),
        ran: Seq::empty(),
        submitted: Multiset::empty(),
        abandoned: 0,
    }
}

/// Whether `step` can be taken in `s`.
pub open spec fn enabled<S>(s: MutexModel<S>, step: Step) -> bool {
    match step {
        Step::Submit(_) => true,
        Step::Push(i) => i < s.pushing.len(),
        Step::Run(i) => i < s.holders.len() && (s.holders[i as int] is Running
            || s.holders[i as int] is RunningToEnd),
        Step::Release(i) => i < s.holders.len() && s.holders[i as int] is Releasing,
        Step::Take(i, job) => i < s.holders.len() && s.holders[i as int] is Taking
            && s.queue.contains(job),
    }
}

/// A call raises the count and, by what it read, holds the mutex or becomes pending.
pub open spec fn submit<S>(s: MutexModel<S>, job: Job) -> MutexModel<S> {
    let raised = MutexModel {
        task_count: s.task_count + 1,
        submitted: s.submitted.insert(job),
        ..s
    };
    match submission_for(s.task_count) {
        Submission::RunNow => if job.runs_last {
            MutexModel {
                holders: s.holders.push(Holding::RunningToEnd(job)),
                abandoned: s.abandoned + 1,
                ..raised
            }
        } else {
            MutexModel { holders: s.holders.push(Holding::Running(job)), ..raised }
        },
        Submission::Enqueue => MutexModel { pushing: s.pushing.push(job), ..raised },
    }
}

/// The pending call at index `i` pushes its job.
pub open spec fn push<S>(s: MutexModel<S>, i: nat) -> MutexModel<S> {
    MutexModel {
        pushing: s.pushing.remove(i as int),
        queue: s.queue.insert(s.pushing[i as int]),
        ..s
    }
}

/// The holder at index `i` runs its job. A run-last job first raises the count: if it
/// read one, it runs and then lowers the count again (so the count is as before: other
/// calls in between only read a larger non-zero count, and enqueue either way); otherwise
/// it becomes pending again, its raise standing for its own new place in the queue.
pub open spec fn run<S>(s: MutexModel<S>, i: nat) -> MutexModel<S> {
    match s.holders[i as int] {
        Holding::Running(job) => if !job.runs_last {
            MutexModel {
                holders: s.holders.update(i as int, Holding::Releasing),
                ran: s.ran.push(job),
                seen: s.seen.push(s.state),
                state: (s.effect)(s.state, job),
                ..s
            }
        } else {
            match last_turn_for(s.task_count) {
                LastTurn::RunNow => MutexModel {
                    holders: s.holders.update(i as int, Holding::Releasing),
                    ran: s.ran.push(job),
                    seen: s.seen.push(s.state),
                    state: (s.effect)(s.state, job),
                    ..s
                },
                LastTurn::Reschedule => MutexModel {
                    task_count: s.task_count + 1,
                    holders: s.holders.update(i as int, Holding::Releasing),
                    pushing: s.pushing.push(job),
                    ..s
                },
            }
        },
        Holding::RunningToEnd(job) => MutexModel {
            holders: s.holders.remove(i as int),
            ran: s.ran.push(job),
            seen: s.seen.push(s.state),
            state: (s.effect)(s.state, job),
            ..s
        },
        _ => s,
    }
}

/// The holder at index `i` lowers the count and, by what it read, leaves or goes on.
pub open spec fn release<S>(s: MutexModel<S>, i: nat) -> MutexModel<S> {
    let lowered = MutexModel { task_count: (s.task_count - 1) as nat, ..s };
    match release_for(s.task_count) {
        Release::Finished => MutexModel { holders: s.holders.remove(i as int), ..lowered },
        Release::TakeNext => MutexModel {
            holders: s.holders.update(i as int, Holding::Taking),
            ..lowered
        },
    }
}

/// The holder at index `i` takes `job` from the queue and will run it.
pub open spec fn take<S>(s: MutexModel<S>, i: nat, job: Job) -> MutexModel<S> {
    MutexModel {
        holders: s.holders.update(i as int, Holding::Running(job)),
        queue: s.queue.remove(job),
        ..s
    }
}

/// The state after `step`.
pub open spec fn next<S>(s: MutexModel<S>, step: Step) -> MutexModel<S> {
    match step {
        Step::Submit(job) => submit(s, job),
        Step::Push(i) => push(s, i),
        Step::Run(i) => run(s, i),
        Step::Release(i) => release(s, i),
        Step::Take(i, job) => take(s, i, job),
    }
}

/// The count units that the holder keeps: one while it runs a releasing job or releases.
pub open spec fn active<S>(s: MutexModel<S>) -> nat {
    if s.holders.len() == 1 && (s.holders[0] is Running || s.holders[0] is Releasing) {
        1
    } else {
        0
    }
}

/// The job in the hands of the holder.
pub open spec fn held<S>(s: MutexModel<S>) -> Multiset<Job> {
    if s.holders.len() == 1 {
        match s.holders[0] {
            Holding::Running(job) => Multiset::singleton(job),
            Holding::RunningToEnd(job) => Multiset::singleton(job),
            _ => Multiset::empty(),
        }
    } else {
        Multiset::empty()
    }
}

/// Every job handed to the mutex is, once and only once, queued, pending, held or run.
pub open spec fn accounted<S>(s: MutexModel<S>) -> bool {
    s.submitted =~= s.queue.add(s.pushing.to_multiset()).add(held(s)).add(s.ran.to_multiset())
}

/// What every reachable state keeps.
pub open spec fn inv<S>(s: MutexModel<S>) -> bool {
    &&& s.holders.len() <= 1
    &&& s.task_count == s.queue.len() + s.pushing.len() + active(s) + s.abandoned
    &&& (s.holders.len() == 1 && s.holders[0] is Taking ==> s.task_count >= 1)
    &&& (s.holders.len() == 1 && s.holders[0] is RunningToEnd ==> s.abandoned >= 1)
    &&& (s.abandoned == 0 && s.task_count > 0 ==> s.holders.len() == 1)
    &&& accounted(s)
    &&& (s.abandoned > 0 ==> exists|j: Job| #[trigger] s.submitted.count(j) > 0 && j.runs_last)
    &&& one_at_a_time(s)
}

/// The tasks ran one at a time on the state: the state is what running them in the order
/// they ran makes of the initial state, and each found what the ones before it left.
pub open spec fn one_at_a_time<S>(s: MutexModel<S>) -> bool {
    &&& s.state == run_in_order(s.effect, s.initial_state, s.ran)
    &&& s.seen.len() == s.ran.len()
    &&& forall|k: int| 0 <= k < s.seen.len() ==> #[trigger] s.seen[k] == run_in_order(
        s.effect,
        s.initial_state,
        s.ran.take(k),
    )
}


proof fn lemma_submit_inv<S>(s: MutexModel<S>, job: Job)
    requires
        inv(s),
    ensures
        inv(submit(s, job)),
{
    broadcast use vstd::seq_lib::group_to_multiset_ensures;
    let t = submit(s, job);
    if s.abandoned > 0 {
        let w = choose|j: Job| #[trigger] s.submitted.count(j) > 0 && j.runs_last;
        assert(t.submitted.count(w) > 0);
    }
    if t.abandoned > 0 && s.abandoned == 0 {
        assert(t.submitted.count(job) > 0);
    }
    if s.task_count == 0 {
        assert(s.holders.len() == 0);
        assert(s.queue.len() == 0 && s.pushing.len() == 0);
        assert(s.pushing.to_multiset() =~= Multiset::empty());
        assert(s.queue =~= Multiset::empty());
        assert(t.pushing == s.pushing);
        assert(held(s) =~= Multiset::empty());
        assert(held(t) =~= Multiset::singleton(job));
        assert(t.submitted =~= t.queue.add(t.pushing.to_multiset()).add(held(t)).add(
            t.ran.to_multiset(),
        ));
    } else {
        assert(t.holders == s.holders);
        assert(held(t) == held(s));
        assert(t.pushing.to_multiset() =~= s.pushing.to_multiset().insert(job));
        assert(t.submitted =~= t.queue.add(t.pushing.to_multiset()).add(held(t)).add(
            t.ran.to_multiset(),
        ));
    }
}

proof fn lemma_push_inv<S>(s: MutexModel<S>, i: nat)
    requires
        inv(s),
        i < s.pushing.len(),
    ensures
        inv(push(s, i)),
{
    broadcast use vstd::seq_lib::group_to_multiset_ensures;
    let t = push(s, i);
    let job = s.pushing[i as int];
    assert(t.pushing.to_multiset() =~= s.pushing.to_multiset().remove(job));
    assert(s.pushing.to_multiset().count(job) > 0) by {
        assert(s.pushing.contains(job));
    }
    assert(held(t) == held(s));
    assert(t.submitted =~= t.queue.add(t.pushing.to_multiset()).add(held(t)).add(
        t.ran.to_multiset(),
    ));
}

proof fn lemma_run_keeps_order<S>(s: MutexModel<S>, t: MutexModel<S>, job: Job)
    requires
        one_at_a_time(s),
        t.ran == s.ran.push(job),
        t.seen == s.seen.push(s.state),
        t.state == (s.effect)(s.state, job),
        t.initial_state == s.initial_state,
        t.effect == s.effect,
    ensures
        one_at_a_time(t),
{
    assert(t.ran.drop_last() =~= s.ran);
    assert forall|k: int| 0 <= k < t.seen.len() implies #[trigger] t.seen[k] == run_in_order(
        t.effect,
        t.initial_state,
        t.ran.take(k),
    ) by {
        if k < s.seen.len() {
            assert(t.ran.take(k) =~= s.ran.take(k));
        } else {
            assert(t.ran.take(k) =~= s.ran);
        }
    }
}

proof fn lemma_run_inv<S>(s: MutexModel<S>, i: nat)
    requires
        inv(s),
        enabled(s, Step::Run(i)),
    ensures
        inv(run(s, i)),
{
    broadcast use vstd::seq_lib::group_to_multiset_ensures;
    let t = run(s, i);
    assert(i == 0);
    match s.holders[0] {
        Holding::Running(job) => {
            assert(held(s) =~= Multiset::singleton(job));
            assert(s.submitted.count(job) > 0);
            assert(held(t) =~= Multiset::empty());
            if job.runs_last && last_turn_for(s.task_count) == LastTurn::Reschedule {
                assert(t.pushing.to_multiset() =~= s.pushing.to_multiset().insert(job));
                assert(t.ran == s.ran);
            } else {
                assert(t.pushing == s.pushing);
                assert(t.ran.to_multiset() =~= s.ran.to_multiset().insert(job));
                lemma_run_keeps_order(s, t, job);
            }
            assert(t.submitted =~= t.queue.add(t.pushing.to_multiset()).add(held(t)).add(
                t.ran.to_multiset(),
            ));
        },
        Holding::RunningToEnd(job) => {
            assert(held(s) =~= Multiset::singleton(job));
            assert(t.holders.len() == 0);
            assert(held(t) =~= Multiset::empty());
            assert(t.ran.to_multiset() =~= s.ran.to_multiset().insert(job));
            lemma_run_keeps_order(s, t, job);
            assert(t.submitted =~= t.queue.add(t.pushing.to_multiset()).add(held(t)).add(
                t.ran.to_multiset(),
            ));
        },
        _ => {},
    }
}

proof fn lemma_release_inv<S>(s: MutexModel<S>, i: nat)
    requires
        inv(s),
        enabled(s, Step::Release(i)),
    ensures
        inv(release(s, i)),
{
    let t = release(s, i);
    assert(i == 0);
    assert(held(s) =~= Multiset::empty());
    assert(held(t) =~= Multiset::empty());
    assert(t.submitted =~= t.queue.add(t.pushing.to_multiset()).add(held(t)).add(
        t.ran.to_multiset(),
    ));
}

proof fn lemma_take_inv<S>(s: MutexModel<S>, i: nat, job: Job)
    requires
        inv(s),
        enabled(s, Step::Take(i, job)),
    ensures
        inv(take(s, i, job)),
{
    let t = take(s, i, job);
    assert(i == 0);
    assert(held(s) =~= Multiset::empty());
    assert(held(t) =~= Multiset::singleton(job));
    assert(t.queue.len() + 1 == s.queue.len());
    assert(t.submitted =~= t.queue.add(t.pushing.to_multiset()).add(held(t)).add(
        t.ran.to_multiset(),
    ));
}

/// The mutex as `new` leaves it keeps the invariant.
pub proof fn lemma_initial_inv<S>(state: S, effect: spec_fn(S, Job) -> S)
    ensures
        inv(initial(state, effect)),
{
    broadcast use vstd::seq_lib::group_to_multiset_ensures;
    let s = initial(state, effect);
    assert(s.pushing.to_multiset() =~= Multiset::empty());
    assert(s.ran.to_multiset() =~= Multiset::empty());
    assert(held(s) =~= Multiset::empty());
    assert(accounted(s));
}

/// Every step that can be taken keeps the invariant.
pub proof fn lemma_next_inv<S>(s: MutexModel<S>, step: Step)
    requires
        inv(s),
        enabled(s, step),
    ensures
        inv(next(s, step)),
{
    match step {
        Step::Submit(job) => lemma_submit_inv(s, job),
        Step::Push(i) => lemma_push_inv(s, i),
        Step::Run(i) => lemma_run_inv(s, i),
        Step::Release(i) => lemma_release_inv(s, i),
        Step::Take(i, job) => lemma_take_inv(s, i, job),
    }
}


/// The state reached from `s` by taking `steps` in order, or `None` where one of them
/// cannot be taken.
pub open spec fn after<S>(s: MutexModel<S>, steps: Seq<Step>) -> Option<MutexModel<S>>
    decreases steps.len(),
{
    if steps.len() == 0 {
        Some(s)
    } else if enabled(s, steps[0]) {
        after(next(s, steps[0]), steps.drop_first())
    } else {
        None
    }
}

proof fn lemma_after_inv<S>(s: MutexModel<S>, steps: Seq<Step>)
    requires
        inv(s),
        after(s, steps) is Some,
    ensures
        inv(after(s, steps)->0),
    decreases steps.len(),
{
    if steps.len() > 0 {
        lemma_next_inv(s, steps[0]);
        lemma_after_inv(next(s, steps[0]), steps.drop_first());
    }
}

/// Every state that steps from a fresh mutex reach keeps the invariant.
pub proof fn lemma_reached_inv<S>(steps: Seq<Step>, s: MutexModel<S>)
    requires
        after(initial(s.initial_state, s.effect), steps) == Some(s),
    ensures
        inv(s),
{
    lemma_initial_inv(s.initial_state, s.effect);
    lemma_after_inv(initial(s.initial_state, s.effect), steps);
}

/// Atomicity: however the steps of concurrent calls interleave, at most one call holds
/// the mutex, so tasks run one at a time.
pub proof fn law_at_most_one_holder<S>(steps: Seq<Step>, s: MutexModel<S>)
    requires
        after(initial(s.initial_state, s.effect), steps) == Some(s),
    ensures
        s.holders.len() <= 1,
{
    lemma_reached_inv(steps, s);
}

/// Tasks run one at a time on the state, whatever each does to it (`effect`): the state
/// is what running the tasks that ran, one after another in the order they ran, makes of
/// the state the mutex was made with; and each task found exactly what the tasks before
/// it left.
pub proof fn law_tasks_run_one_at_a_time<S>(steps: Seq<Step>, s: MutexModel<S>)
    requires
        after(initial(s.initial_state, s.effect), steps) == Some(s),
    ensures
        s.state == run_in_order(s.effect, s.initial_state, s.ran),
        s.seen.len() == s.ran.len(),
        forall|k: int| 0 <= k < s.ran.len() ==> #[trigger] s.seen[k] == run_in_order(
            s.effect,
            s.initial_state,
            s.ran.take(k),
        ),
{
    lemma_reached_inv(steps, s);
}

/// A call that reads a count of zero finds no call holding the mutex, and becomes its
/// only holder, running its own task at once.
pub proof fn law_first_caller_runs_at_once<S>(steps: Seq<Step>, s: MutexModel<S>, job: Job)
    requires
        after(initial(s.initial_state, s.effect), steps) == Some(s),
        s.task_count == 0,
    ensures
        s.holders.len() == 0,
        submit(s, job).holders == seq![
            if job.runs_last { Holding::RunningToEnd(job) } else { Holding::Running(job) }
        ],
{
    lemma_reached_inv(steps, s);
    assert(submit(s, job).holders =~= seq![
        if job.runs_last { Holding::RunningToEnd(job) } else { Holding::Running(job) }
    ]);
}

/// A call that reads a non-zero count leaves the holders as they are: its task is
/// scheduled on the call that holds the mutex.
pub proof fn law_later_caller_schedules_on_holder<S>(steps: Seq<Step>, s: MutexModel<S>, job: Job)
    requires
        after(initial(s.initial_state, s.effect), steps) == Some(s),
        s.task_count > 0,
    ensures
        submit(s, job).holders == s.holders,
        submit(s, job).pushing == s.pushing.push(job),
        s.abandoned == 0 ==> s.holders.len() == 1,
{
    lemma_reached_inv(steps, s);
}

/// When the holder reads a count other than one after a task ran, a job is queued or a
/// call is about to push one, so its spinning pop ends (unless a run-last task ran on an
/// idle mutex, whose call keeps the count raised as no call may follow it).
pub proof fn law_take_next_finds_a_job<S>(steps: Seq<Step>, s: MutexModel<S>)
    requires
        after(initial(s.initial_state, s.effect), steps) == Some(s),
        s.abandoned == 0,
        s.holders.len() == 1,
        s.holders[0] is Taking,
    ensures
        s.queue.len() + s.pushing.len() >= 1,
        s.pushing.len() == 0 ==> s.queue.len() > 0,
{
    lemma_reached_inv(steps, s);
}

/// Every job handed to the mutex is at every moment exactly once queued, pending, in the
/// hands of the holder, or run: no job is lost and none runs twice.
pub proof fn law_every_job_accounted_once<S>(steps: Seq<Step>, s: MutexModel<S>)
    requires
        after(initial(s.initial_state, s.effect), steps) == Some(s),
    ensures
        s.submitted =~= s.queue.add(s.pushing.to_multiset()).add(held(s)).add(
            s.ran.to_multiset(),
        ),
{
    lemma_reached_inv(steps, s);
}

/// The count reads zero exactly when no job is outstanding; then every job handed to the
/// mutex has run, each once.
pub proof fn law_zero_count_means_all_ran<S>(steps: Seq<Step>, s: MutexModel<S>)
    requires
        after(initial(s.initial_state, s.effect), steps) == Some(s),
    ensures
        (s.task_count == 0) <==> (s.holders.len() == 0 && s.queue.len() == 0
            && s.pushing.len() == 0 && s.abandoned == 0),
        s.task_count == 0 ==> s.submitted =~= s.ran.to_multiset(),
{
    broadcast use vstd::seq_lib::group_to_multiset_ensures;
    lemma_reached_inv(steps, s);
    if s.task_count == 0 {
        assert(s.queue =~= Multiset::empty());
        assert(s.pushing.to_multiset() =~= Multiset::empty());
        assert(held(s) =~= Multiset::empty());
    }
}

/// A run-last task runs only when no other task is outstanding: when its call reads a
/// count of zero, or when the holder runs it and it reads a count of one.
pub proof fn law_run_last_runs_alone<S>(steps: Seq<Step>, s: MutexModel<S>)
    requires
        after(initial(s.initial_state, s.effect), steps) == Some(s),
    ensures
        s.task_count == 0 ==> s.holders.len() == 0 && s.queue.len() == 0
            && s.pushing.len() == 0,
        (s.holders.len() == 1 && s.holders[0] is Running && s.holders[0]->Running_0.runs_last
            && last_turn_for(s.task_count) == LastTurn::RunNow) ==> (s.queue.len() == 0
            && s.pushing.len() == 0 && s.abandoned == 0),
{
    lemma_reached_inv(steps, s);
}

/// On an idle mutex a call runs its task at once and, once it lowered the count, leaves
/// the mutex idle again.
pub proof fn law_uncontended_call<S>(steps: Seq<Step>, s: MutexModel<S>, job: Job)
    requires
        after(initial(s.initial_state, s.effect), steps) == Some(s),
        s.task_count == 0,
        !job.runs_last,
    ensures
        after(s, seq![Step::Submit(job), Step::Run(0), Step::Release(0)]) == Some(
            MutexModel {
                ran: s.ran.push(job),
                seen: s.seen.push(s.state),
                state: (s.effect)(s.state, job),
                submitted: s.submitted.insert(job),
                ..s
            },
        ),
{
    lemma_reached_inv(steps, s);
    let calls = seq![Step::Submit(job), Step::Run(0), Step::Release(0)];
    let s1 = next(s, Step::Submit(job));
    let s2 = next(s1, Step::Run(0));
    let s3 = next(s2, Step::Release(0));
    assert(s.holders.len() == 0);
    assert(calls.drop_first() =~= seq![Step::Run(0), Step::Release(0)]);
    assert(calls.drop_first().drop_first() =~= seq![Step::Release(0)]);
    assert(calls.drop_first().drop_first().drop_first() =~= Seq::<Step>::empty());
    assert(s3.holders =~= s.holders);
    assert(after(s3, Seq::<Step>::empty()) == Some(s3));
    assert(enabled(s2, Step::Release(0)));
    assert(after(s2, calls.drop_first().drop_first()) == Some(s3));
    assert(enabled(s1, Step::Run(0)));
    assert(after(s1, calls.drop_first()) == Some(s3));
    assert(after(s, calls) == Some(s3));
    assert(s3 == MutexModel {
        ran: s.ran.push(job),
        seen: s.seen.push(s.state),
        state: (s.effect)(s.state, job),
        submitted: s.submitted.insert(job),
        ..s
    });
}


/// Whether `step` is a step of the call that holds the mutex.
pub open spec fn is_holder_step(step: Step) -> bool {
    step is Run || step is Release || step is Take
}

/// Whether no run-last task was handed to the mutex.
pub open spec fn no_run_last_jobs<S>(s: MutexModel<S>) -> bool {
    forall|j: Job| #[trigger] s.submitted.count(j) > 0 ==> !j.runs_last
}

/// How far the holder is from having drained `s`.
pub open spec fn drain_measure<S>(s: MutexModel<S>) -> nat {
    3 * s.queue.len() + if s.holders.len() == 1 {
        match s.holders[0] {
            Holding::Running(_) => 2nat,
            Holding::RunningToEnd(_) => 2nat,
            Holding::Releasing => 1nat,
            Holding::Taking => 0nat,
        }
    } else {
        0nat
    }
}

proof fn lemma_after_first<S>(s: MutexModel<S>, step: Step, rest: Seq<Step>)
    requires
        enabled(s, step),
    ensures
        after(s, seq![step] + rest) == after(next(s, step), rest),
{
    let steps = seq![step] + rest;
    assert(steps[0] == step);
    assert(steps.drop_first() =~= rest);
}

proof fn lemma_drain<S>(s: MutexModel<S>) -> (drain: Seq<Step>)
    requires
        inv(s),
        s.abandoned == 0,
        s.pushing.len() == 0,
        no_run_last_jobs(s),
    ensures
        forall|k: int| 0 <= k < drain.len() ==> is_holder_step(#[trigger] drain[k]),
        after(s, drain) is Some,
        after(s, drain)->0.task_count == 0,
        after(s, drain)->0.submitted == s.submitted,
    decreases drain_measure(s),
{
    broadcast use vstd::seq_lib::group_to_multiset_ensures;
    if s.holders.len() == 0 {
        assert(after(s, Seq::<Step>::empty()) == Some(s));
        Seq::empty()
    } else {
        let step = match s.holders[0] {
            Holding::Taking => Step::Take(0, s.queue.choose()),
            Holding::Releasing => Step::Release(0),
            _ => Step::Run(0),
        };
        if s.holders[0] is Taking {
            assert(s.queue.len() > 0);
            assert(s.queue.count(s.queue.choose()) > 0);
        }
        if s.holders[0] is RunningToEnd {
            assert(false);
        }
        if let Holding::Running(j) = s.holders[0] {
            assert(held(s).count(j) > 0);
            assert(s.submitted.count(j) > 0);
        }
        assert(enabled(s, step));
        let t = next(s, step);
        lemma_next_inv(s, step);
        if let Step::Take(_, j) = step {
            assert(t.queue.len() + 1 == s.queue.len());
        }
        assert(drain_measure(t) < drain_measure(s));
        assert(no_run_last_jobs(t));
        let rest = lemma_drain(t);
        lemma_after_first(s, step, rest);
        let drain = seq![step] + rest;
        assert forall|k: int| 0 <= k < drain.len() implies is_holder_step(#[trigger] drain[k]) by {
            if k > 0 {
                assert(drain[k] == rest[k - 1]);
            }
        }
        drain
    }
}

/// The call that holds the mutex runs every task scheduled on it: once no call is about
/// to push a task, its own steps alone bring the count back to zero, and then every task
/// handed to the mutex has run exactly once (for tasks other than run-last ones).
pub proof fn law_holder_drains_every_task<S>(steps: Seq<Step>, s: MutexModel<S>) -> (drain: Seq<Step>)
    requires
        after(initial(s.initial_state, s.effect), steps) == Some(s),
        s.pushing.len() == 0,
        no_run_last_jobs(s),
    ensures
        forall|k: int| 0 <= k < drain.len() ==> is_holder_step(#[trigger] drain[k]),
        after(s, drain) is Some,
        after(s, drain)->0.task_count == 0,
        after(s, drain)->0.submitted =~= after(s, drain)->0.ran.to_multiset(),
{
    lemma_reached_inv(steps, s);
    assert(s.abandoned == 0) by {
        if s.abandoned > 0 {
            let w = choose|j: Job| #[trigger] s.submitted.count(j) > 0 && j.runs_last;
            assert(!w.runs_last);
        }
    }
    let drain = lemma_drain(s);
    let t = after(s, drain)->0;
    lemma_after_inv(s, drain);
    broadcast use vstd::seq_lib::group_to_multiset_ensures;
    assert(t.queue =~= Multiset::empty());
    assert(t.pushing.to_multiset() =~= Multiset::empty());
    assert(held(t) =~= Multiset::empty());
    drain
}


/// A run-last task that the holder takes from the queue and runs (having read a count of
/// one) gives its unit of the count back: once the holder releases, it reads one and
/// leaves, with the count at zero and every task handed to the mutex run exactly once.
pub proof fn law_holder_leaves_after_run_last_task<S>(steps: Seq<Step>, s: MutexModel<S>)
    requires
        after(initial(s.initial_state, s.effect), steps) == Some(s),
        s.holders.len() == 1,
        s.holders[0] is Running,
        s.holders[0]->Running_0.runs_last,
        last_turn_for(s.task_count) == LastTurn::RunNow,
    ensures
        ({
            let t = next(next(s, Step::Run(0)), Step::Release(0));
            &&& t.holders.len() == 0
            &&& t.task_count == 0
            &&& t.ran == s.ran.push(s.holders[0]->Running_0)
            &&& t.submitted =~= t.ran.to_multiset()
        }),
{
    broadcast use vstd::seq_lib::group_to_multiset_ensures;
    lemma_reached_inv(steps, s);
    let job = s.holders[0]->Running_0;
    let t = next(next(s, Step::Run(0)), Step::Release(0));
    lemma_next_inv(s, Step::Run(0));
    lemma_next_inv(next(s, Step::Run(0)), Step::Release(0));
    assert(t.holders.len() == 0);
    assert(t.queue =~= Multiset::empty());
    assert(t.pushing.to_multiset() =~= Multiset::empty());
    assert(held(t) =~= Multiset::empty());
}

proof fn lemma_after_ran_grows<S>(s: MutexModel<S>, steps: Seq<Step>)
    requires
        after(s, steps) is Some,
    ensures
        s.ran.is_prefix_of(after(s, steps)->0.ran),
    decreases steps.len(),
{
    if steps.len() > 0 {
        let x = next(s, steps[0]);
        assert(s.ran.is_prefix_of(x.ran));
        lemma_after_ran_grows(x, steps.drop_first());
    }
}

proof fn lemma_holder_job_runs_first<S>(s: MutexModel<S>, job: Job, steps: Seq<Step>)
    requires
        inv(s),
        s.holders == seq![Holding::Running(job)],
        !job.runs_last,
        after(s, steps) is Some,
    ensures
        after(s, steps)->0.ran.len() > s.ran.len() ==> after(s, steps)->0.ran[s.ran.len() as int]
            == job,
    decreases steps.len(),
{
    if steps.len() > 0 {
        let x = next(s, steps[0]);
        let rest = steps.drop_first();
        lemma_next_inv(s, steps[0]);
        match steps[0] {
            Step::Run(_) => {
                assert(x.ran == s.ran.push(job));
                lemma_after_ran_grows(x, rest);
                assert(after(s, steps)->0.ran[s.ran.len() as int] == x.ran[s.ran.len() as int]);
            },
            Step::Submit(_) => {
                assert(s.task_count >= 1);
                assert(x.holders == s.holders);
                lemma_holder_job_runs_first(x, job, rest);
            },
            Step::Push(_) => {
                lemma_holder_job_runs_first(x, job, rest);
            },
            _ => {},
        }
    }
}

/// While the holder runs a task, no other task runs: whatever the steps that follow (a
/// task submitted from inside the running one included, which only enqueues), the next
/// task to run is the holder's. So a task submitted from inside a running task runs
/// after that task ended, and (by the laws on a zero count) before the holder leaves.
pub proof fn law_running_task_ends_before_any_other_runs<S>(
    steps: Seq<Step>,
    s: MutexModel<S>,
    job: Job,
    later: Seq<Step>,
)
    requires
        after(initial(s.initial_state, s.effect), steps) == Some(s),
        s.holders == seq![Holding::Running(job)],
        !job.runs_last,
        after(s, later) is Some,
    ensures
        s.ran.is_prefix_of(after(s, later)->0.ran),
        after(s, later)->0.ran.len() > s.ran.len() ==> after(s, later)->0.ran[s.ran.len() as int]
            == job,
{
    lemma_reached_inv(steps, s);
    lemma_after_ran_grows(s, later);
    lemma_holder_job_runs_first(s, job, later);
}

/// Whether no run-last task other than `last` is queued or held, and `last` at most once.
pub open spec fn only_run_last_outstanding<S>(s: MutexModel<S>, last: Job) -> bool {
    &&& last.runs_last
    &&& s.queue.count(last) + held(s).count(last) <= 1
    &&& forall|j: Job| j.runs_last && j != last ==> #[trigger] s.queue.count(j) == 0
    &&& forall|j: Job| j.runs_last && j != last ==> #[trigger] held(s).count(j) == 0
}

/// Whether `step` is one of the holder's or the push of a rescheduled task.
pub open spec fn is_holder_or_push_step(step: Step) -> bool {
    is_holder_step(step) || step is Push
}

spec fn others_queued<S>(s: MutexModel<S>, last: Job) -> nat {
    (s.queue.len() - s.queue.count(last)) as nat
}

spec fn last_drain_rest<S>(s: MutexModel<S>, last: Job) -> nat {
    (if s.queue.count(last) > 0 { 4nat } else { 0nat }) + if s.holders.len() == 1 {
        match s.holders[0] {
            Holding::Running(_) => 3nat,
            Holding::RunningToEnd(_) => 3nat,
            Holding::Releasing => 1nat,
            Holding::Taking => 0nat,
        }
    } else {
        0nat
    }
}

spec fn drain_with_last_ok<S>(s: MutexModel<S>, last: Job) -> bool {
    &&& inv(s)
    &&& s.abandoned == 0
    &&& s.pushing.len() == 0
    &&& only_run_last_outstanding(s, last)
}

proof fn lemma_drain_with_last<S>(s: MutexModel<S>, last: Job) -> (drain: Seq<Step>)
    requires
        drain_with_last_ok(s, last),
    ensures
        forall|k: int| 0 <= k < drain.len() ==> is_holder_or_push_step(#[trigger] drain[k]),
        after(s, drain) is Some,
        after(s, drain)->0.task_count == 0,
        after(s, drain)->0.submitted == s.submitted,
        s.queue.count(last) + held(s).count(last) == 1 ==> after(s, drain)->0.ran.len() > 0
            && after(s, drain)->0.ran.last() == last,
        s.holders == seq![Holding::Releasing] && s.task_count == 1 ==> after(s, drain)->0.ran
            == s.ran,
    decreases others_queued(s, last), last_drain_rest(s, last),
{
    broadcast use vstd::seq_lib::group_to_multiset_ensures;
    if s.holders.len() == 0 {
        assert(after(s, Seq::<Step>::empty()) == Some(s));
        assert(s.task_count == 0);
        assert(s.queue.count(last) <= s.queue.len());
        return Seq::empty();
    }
    let h = s.holders[0];
    if h is RunningToEnd {
        assert(false);
    }
    if let Holding::Running(job) = h {
        assert(held(s).count(job) == 1);
        if job.runs_last && job != last {
            assert(held(s).count(job) == 0);
        }
        assert(s.queue.count(last) == 0 || job != last);
        if job == last && last_turn_for(s.task_count) == LastTurn::Reschedule {
            // the run-last task goes back to the queue; another task is queued, and the
            // holder takes that one next
            let x1 = next(s, Step::Run(0));
            lemma_next_inv(s, Step::Run(0));
            assert(x1.pushing == seq![last]);
            let x2 = next(x1, Step::Push(0));
            lemma_next_inv(x1, Step::Push(0));
            assert(enabled(x2, Step::Release(0)));
            let x3 = next(x2, Step::Release(0));
            lemma_next_inv(x2, Step::Release(0));
            assert(s.task_count >= 2);
            assert(x3.holders == seq![Holding::Taking]);
            assert(x3.queue =~= s.queue.insert(last));
            assert(s.queue.count(last) == 0);
            assert(s.queue.len() == s.task_count - 1);
            assert(s.queue.len() >= 1);
            let p = s.queue.choose();
            assert(s.queue.count(p) > 0);
            assert(p != last);
            assert(x3.queue.count(p) > 0);
            assert(enabled(x3, Step::Take(0, p)));
            let y = next(x3, Step::Take(0, p));
            lemma_next_inv(x3, Step::Take(0, p));
            assert(y.queue =~= s.queue.insert(last).remove(p));
            assert(y.queue.count(last) == 1);
            assert(y.queue.len() == s.queue.len());
            assert(others_queued(y, last) < others_queued(s, last));
            assert(held(y) =~= Multiset::singleton(p));
            if p.runs_last {
                assert(s.queue.count(p) == 0);
            }
            assert(only_run_last_outstanding(y, last)) by {
                assert forall|j: Job| j.runs_last && j != last implies #[trigger] y.queue.count(j)
                    == 0 by {
                    assert(s.queue.count(j) == 0);
                }
                assert forall|j: Job| j.runs_last && j != last implies #[trigger] held(y).count(j)
                    == 0 by {
                    assert(j != p);
                }
            }
            let rest = lemma_drain_with_last(y, last);
            lemma_after_first(x3, Step::Take(0, p), rest);
            let d3 = seq![Step::Take(0, p)] + rest;
            lemma_after_first(x2, Step::Release(0), d3);
            let d2 = seq![Step::Release(0)] + d3;
            lemma_after_first(x1, Step::Push(0), d2);
            let d1 = seq![Step::Push(0)] + d2;
            lemma_after_first(s, Step::Run(0), d1);
            let drain = seq![Step::Run(0)] + d1;
            assert forall|k: int| 0 <= k < drain.len() implies is_holder_or_push_step(
                #[trigger] drain[k],
            ) by {
                if k >= 4 {
                    assert(drain[k] == rest[k - 4]);
                }
            }
            return drain;
        }
    }
    // a single step of the holder; taking, it prefers a task other than `last`
    let others = s.queue.remove(last);
    let step = match h {
        Holding::Taking => if others.len() > 0 {
            Step::Take(0, others.choose())
        } else {
            Step::Take(0, last)
        },
        Holding::Releasing => Step::Release(0),
        _ => Step::Run(0),
    };
    assert(others.count(last) == 0);
    if s.queue.count(last) > 0 {
        assert(others.len() + 1 == s.queue.len());
    } else {
        assert(others =~= s.queue);
    }
    if h is Taking {
        assert(s.queue.len() >= 1);
        if others.len() > 0 {
            assert(others.count(others.choose()) > 0);
            assert(s.queue.count(others.choose()) > 0);
        } else {
            assert(s.queue.count(last) > 0);
        }
    }
    assert(enabled(s, step));
    let t = next(s, step);
    lemma_next_inv(s, step);
    match step {
        Step::Take(_, job) => {
            assert(t.queue =~= s.queue.remove(job));
            assert(held(t) =~= Multiset::singleton(job));
            if job != last {
                assert(t.queue.count(last) == s.queue.count(last));
                assert(others_queued(t, last) < others_queued(s, last));
                if job.runs_last {
                    assert(s.queue.count(job) == 0);
                }
            } else {
                assert(t.queue.count(last) == 0);
                assert(others_queued(t, last) == others_queued(s, last));
                assert(last_drain_rest(t, last) < last_drain_rest(s, last));
            }
            assert forall|j: Job| j.runs_last && j != last implies #[trigger] t.queue.count(j)
                == 0 by {
                assert(s.queue.count(j) == 0);
            }
            assert forall|j: Job| j.runs_last && j != last implies #[trigger] held(t).count(j)
                == 0 by {
                if j == job {
                    assert(s.queue.count(j) == 0);
                }
            }
        },
        Step::Release(_) => {
            assert(held(t) =~= Multiset::empty());
            assert(held(s) =~= Multiset::empty());
            assert(t.queue == s.queue);
            assert(others_queued(t, last) == others_queued(s, last));
            assert(last_drain_rest(t, last) < last_drain_rest(s, last));
        },
        _ => {
            let job = h->Running_0;
            assert(held(s) =~= Multiset::singleton(job));
            assert(held(t) =~= Multiset::empty());
            assert(t.queue == s.queue);
            assert(t.pushing.len() == 0);
            assert(others_queued(t, last) == others_queued(s, last));
            assert(last_drain_rest(t, last) < last_drain_rest(s, last));
            if job == last {
                assert(t.ran == s.ran.push(last));
                assert(t.task_count == s.task_count);
                assert(s.task_count == 1);
                assert(t.holders == seq![Holding::Releasing]);
            }
        },
    }
    if !(h is Running && h->Running_0 == last) {
        assert(t.queue.count(last) + held(t).count(last) == s.queue.count(last) + held(
            s,
        ).count(last));
    }
    assert(drain_with_last_ok(t, last));
    let rest = lemma_drain_with_last(t, last);
    if h is Releasing && s.task_count == 1 {
        assert(t.holders.len() == 0);
        assert(rest.len() == 0);
    }
    lemma_after_first(s, step, rest);
    let drain = seq![step] + rest;
    assert forall|k: int| 0 <= k < drain.len() implies is_holder_or_push_step(#[trigger] drain[k]) by {
        if k > 0 {
            assert(drain[k] == rest[k - 1]);
        }
    }
    lemma_after_ran_grows(t, rest);
    drain
}

/// Progress of a run-last task: once it is queued or in the holder's hands, with no other
/// run-last task outstanding, no call about to push and no run-last task kept the count
/// raised, the holder's steps and the pushes of the task's own rescheduling run every task
/// handed to the mutex exactly once, the run-last task after all the others, and the
/// holder leaves with the count at zero. The steps returned pop the queue in one order
/// that a fair queue can take (any other queued task before the run-last one); the queue
/// itself promises no order, so this is the law for such an order, not for every one.
pub proof fn law_run_last_task_runs_after_all_others<S>(
    steps: Seq<Step>,
    s: MutexModel<S>,
    last: Job,
) -> (drain: Seq<Step>)
    requires
        after(initial(s.initial_state, s.effect), steps) == Some(s),
        s.pushing.len() == 0,
        s.abandoned == 0,
        only_run_last_outstanding(s, last),
    ensures
        forall|k: int| 0 <= k < drain.len() ==> is_holder_or_push_step(#[trigger] drain[k]),
        after(s, drain) is Some,
        after(s, drain)->0.task_count == 0,
        after(s, drain)->0.holders.len() == 0,
        after(s, drain)->0.submitted =~= after(s, drain)->0.ran.to_multiset(),
        s.queue.count(last) + held(s).count(last) == 1 ==> after(s, drain)->0.ran.last()
            == last,
{
    lemma_reached_inv(steps, s);
    let drain = lemma_drain_with_last(s, last);
    let t = after(s, drain)->0;
    lemma_after_inv(s, drain);
    broadcast use vstd::seq_lib::group_to_multiset_ensures;
    assert(t.queue =~= Multiset::empty());
    assert(t.pushing.to_multiset() =~= Multiset::empty());
    assert(held(t) =~= Multiset::empty());
    drain
}

/// The tasks handed to the mutex that have not run yet: queued, pending or held.
pub open spec fn outstanding<S>(s: MutexModel<S>) -> Multiset<Job> {
    s.queue.add(s.pushing.to_multiset()).add(held(s))
}

proof fn lemma_after_without_submit<S>(s: MutexModel<S>, steps: Seq<Step>)
    requires
        after(s, steps) is Some,
        forall|k: int| 0 <= k < steps.len() ==> !(#[trigger] steps[k] is Submit),
    ensures
        after(s, steps)->0.submitted == s.submitted,
        after(s, steps)->0.abandoned == s.abandoned,
        s.ran.is_prefix_of(after(s, steps)->0.ran),
    decreases steps.len(),
{
    if steps.len() > 0 {
        assert(!(steps[0] is Submit));
        let x = next(s, steps[0]);
        assert(s.ran.is_prefix_of(x.ran));
        let rest = steps.drop_first();
        assert forall|k: int| 0 <= k < rest.len() implies !(#[trigger] rest[k] is Submit) by {
            assert(rest[k] == steps[k + 1]);
        }
        lemma_after_without_submit(x, rest);
    }
}

/// A run-last task waits only for other tasks, under any order of pops: once no call
/// comes any more, whatever steps the holder and the pending pushes take, no task becomes
/// outstanding that was not, none more often; the run-last task runs at most once more; and
/// when the holder runs it with no other task left, it runs (it reschedules only while
/// another task is outstanding). So with a queue that yields every pushed item in time,
/// each other task is taken and run once, after which the run-last task runs.
pub proof fn law_run_last_task_waits_only_for_others<S>(
    steps: Seq<Step>,
    s: MutexModel<S>,
    last: Job,
    later: Seq<Step>,
)
    requires
        after(initial(s.initial_state, s.effect), steps) == Some(s),
        s.abandoned == 0,
        outstanding(s).count(last) <= 1,
        forall|k: int| 0 <= k < later.len() ==> is_holder_or_push_step(#[trigger] later[k]),
        after(s, later) is Some,
    ensures
        ({
            let r = after(s, later)->0;
            &&& forall|j: Job| #[trigger] outstanding(r).count(j) <= outstanding(s).count(j)
            &&& r.ran.to_multiset().count(last) <= s.ran.to_multiset().count(last) + 1
            &&& (r.holders == seq![Holding::Running(last)] && (forall|j: Job|
                j != last ==> #[trigger] outstanding(r).count(j) == 0)) ==> last_turn_for(
                r.task_count,
            ) == LastTurn::RunNow
        }),
{
    broadcast use vstd::seq_lib::group_to_multiset_ensures;
    lemma_reached_inv(steps, s);
    assert forall|k: int| 0 <= k < later.len() implies !(#[trigger] later[k] is Submit) by {
        assert(is_holder_or_push_step(later[k]));
    }
    lemma_after_without_submit(s, later);
    lemma_after_inv(s, later);
    let r = after(s, later)->0;
    let suffix = r.ran.subrange(s.ran.len() as int, r.ran.len() as int);
    assert(r.ran =~= s.ran + suffix);
    vstd::seq_lib::lemma_multiset_commutative(s.ran, suffix);
    assert(r.ran.to_multiset() =~= s.ran.to_multiset().add(suffix.to_multiset()));
    assert forall|j: Job| #[trigger] outstanding(r).count(j) <= outstanding(s).count(j) by {
        assert(r.submitted.count(j) == outstanding(r).count(j) + r.ran.to_multiset().count(j));
        assert(s.submitted.count(j) == outstanding(s).count(j) + s.ran.to_multiset().count(j));
    }
    assert(s.submitted.count(last) <= 1 + s.ran.to_multiset().count(last));
    assert(r.submitted.count(last) == outstanding(r).count(last) + r.ran.to_multiset().count(
        last,
    ));
    if r.holders == seq![Holding::Running(last)] && (forall|j: Job|
        j != last ==> #[trigger] outstanding(r).count(j) == 0) {
        assert(held(r) =~= Multiset::singleton(last));
        assert(outstanding(r) =~= Multiset::singleton(last)) by {
            assert forall|j: Job| #[trigger] outstanding(r).count(j) == Multiset::singleton(
                last,
            ).count(j) by {
                if j == last {
                    assert(held(r).count(last) == 1);
                    assert(outstanding(s).count(last) <= 1);
                }
            }
        }
        assert(r.queue.len() + r.pushing.len() + 1 == outstanding(r).len());
        assert(r.task_count == 1);
    }
}

/// A task adds its `delta` to a counter state, wrapping only at 2^64, whether or not it
/// is a run-last task.
pub proof fn law_task_adds_its_delta(state: u64, job: Job)
    ensures
        (delta_effect())(state, job) as int == (state + job.delta) % 0x1_0000_0000_0000_0000,
        (delta_effect())(state, job) == (delta_effect())(state, Job { runs_last: false, ..job }),
{
    let sum = state + job.delta;
    assert(0 <= sum < 2 * 0x1_0000_0000_0000_0000);
    if sum > u64::MAX {
        assert(sum % 0x1_0000_0000_0000_0000 == sum - 0x1_0000_0000_0000_0000);
    } else {
        assert(sum % 0x1_0000_0000_0000_0000 == sum);
    }
}

/// When the holder runs a task on a counter state (a plain task, a run-last task taken
/// at a count of one, or a run-last task run on an idle mutex), the task finds the state
/// as it was, and the state it leaves is that state plus the task's `delta`, wrapping
/// only at 2^64; when a run-last task is rescheduled instead, the state is untouched.
pub proof fn law_running_a_task_adds_its_delta(s: MutexModel<u64>, job: Job)
    requires
        s.effect == delta_effect(),
        s.holders == seq![Holding::Running(job)] || s.holders == seq![Holding::RunningToEnd(job)],
    ensures
        ({
            let t = next(s, Step::Run(0));
            &&& t.ran.len() == s.ran.len() + 1 ==> {
                &&& t.state as int == (s.state + job.delta) % 0x1_0000_0000_0000_0000
                &&& t.seen == s.seen.push(s.state)
                &&& t.ran.last() == job
            }
            &&& t.ran.len() == s.ran.len() ==> t.state == s.state
            &&& (!job.runs_last || s.holders == seq![Holding::RunningToEnd(job)]
                || last_turn_for(s.task_count) == LastTurn::RunNow) ==> t.ran.len() == s.ran.len()
                + 1
        }),
{
    law_task_adds_its_delta(s.state, job);
}

/// A pending call pushes its own job: the queue gains one copy of exactly the job at
/// index `i`, and the pending list loses that one copy, the other pending calls keeping
/// their order.
pub proof fn law_push_moves_the_calls_own_job<S>(s: MutexModel<S>, i: nat)
    requires
        i < s.pushing.len(),
    ensures
        forall|j: Job| #[trigger] push(s, i).queue.count(j) == s.queue.count(j) + if j
            == s.pushing[i as int] {
            1nat
        } else {
            0nat
        },
        push(s, i).pushing.len() + 1 == s.pushing.len(),
        forall|k: int| 0 <= k < i ==> #[trigger] push(s, i).pushing[k] == s.pushing[k],
        forall|k: int| i <= k < push(s, i).pushing.len() ==> #[trigger] push(s, i).pushing[k]
            == s.pushing[k + 1],
        push(s, i).pushing.to_multiset().count(s.pushing[i as int]) + 1
            == s.pushing.to_multiset().count(s.pushing[i as int]),
{
    broadcast use vstd::seq_lib::group_to_multiset_ensures;
    assert(s.pushing.to_multiset().count(s.pushing[i as int]) > 0) by {
        assert(s.pushing.contains(s.pushing[i as int]));
    }
}

/// Taking one more step extends the run by that step.
pub proof fn lemma_after_push<S>(s: MutexModel<S>, steps: Seq<Step>, step: Step)
    requires
        after(s, steps) is Some,
        enabled(after(s, steps)->0, step),
    ensures
        after(s, steps.push(step)) == Some(next(after(s, steps)->0, step)),
    decreases steps.len(),
{
    let longer = steps.push(step);
    if steps.len() == 0 {
        assert(longer =~= seq![step]);
        assert(longer.drop_first() =~= Seq::<Step>::empty());
        assert(after(s, steps) == Some(s));
        assert(longer[0] == step);
        assert(after(next(s, step), longer.drop_first()) == Some(next(s, step)));
    } else {
        assert(enabled(s, steps[0]));
        assert(longer[0] == steps[0]);
        assert(longer.drop_first() =~= steps.drop_first().push(step));
        lemma_after_push(next(s, steps[0]), steps.drop_first(), step);
    }
}

} // verus!
