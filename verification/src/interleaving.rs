//! An executable run of the protocol in which the caller picks the order of the atomic
//! steps of concurrent calls. The task count is a plain integer and the queue a
//! `ShardedQueue` held exclusively; each step changes the state exactly as the model's
//! transition does, so every law of `protocol` holds of every state it reaches.

use vstd::prelude::*;
use vstd::multiset::Multiset;
use sharded_queue::ShardedQueue;
use crate::decisions::{
    Submission, Release, LastTurn, decide_submission, decide_release, decide_last_turn,
    submission_for, release_for, has_running_tasks, has_no_running_tasks,
};
use crate::protocol::{
    Job, Holding, MutexModel, delta_effect, law_running_a_task_adds_its_delta,
    law_push_moves_the_calls_own_job, Step, initial, enabled, next, after, inv, lemma_after_push,
    lemma_reached_inv, is_holder_step, no_run_last_jobs, drain_measure, held,
};
use crate::task_queue::{queued_jobs, new_task_queue, push_job, pop_job, MAX_SHARD_THREADS};

verus! {

/// A mutex together with the calls in progress on it, stepped one atomic step at a time.
pub struct Interleaving {
    task_count: usize,
    task_queue: ShardedQueue<Job>,
    pending: Vec<Job>,
    holders: Vec<Holding>,
    ran: Vec<Job>,
    abandoned: usize,
    state: u64,
    initial_state: u64,
    seen: Vec<u64>,
    submitted: Ghost<Multiset<Job>>,
    history: Ghost<Seq<Step>>,
}

impl View for Interleaving {
    type V = MutexModel<u64>;

    closed spec fn view(&self) -> MutexModel<u64> {
        MutexModel {
            task_count: self.task_count as nat,
            queue: queued_jobs(self.task_queue),
            pushing: self.pending@,
            holders: self.holders@,
            ran: self.ran@,
            submitted: self.submitted@,
            abandoned: self.abandoned as nat,
            state: self.state,
            initial_state: self.initial_state,
            seen: self.seen@,
            effect: delta_effect(),
        }
    }
}

impl Interleaving {
    /// The steps taken so far, from a fresh mutex.
    pub closed spec fn steps(&self) -> Seq<Step> {
        self.history@
    }

    /// The steps taken so far lead from a fresh mutex to the current state.
    pub open spec fn wf(&self) -> bool {
        after(initial(self@.initial_state, delta_effect()), self.steps()) == Some(self@)
    }

    proof fn lemma_wf_inv(&self)
        requires
            self.wf(),
        ensures
            inv(self@),
    {
        lemma_reached_inv(self.steps(), self@);
    }

    /// A fresh mutex holding `state`, whose queue is sized for
    /// `max_concurrent_thread_count` threads.
    pub fn new(max_concurrent_thread_count: usize, state: u64) -> (fresh: Self)
        requires
            max_concurrent_thread_count <= MAX_SHARD_THREADS,
        ensures
            fresh.wf(),
            fresh@ == initial(state, delta_effect()),
            fresh.steps() == Seq::<Step>::empty(),
    {
        let fresh = Interleaving {
            task_count: 0,
            task_queue: new_task_queue(max_concurrent_thread_count),
            pending: Vec::new(),
            holders: Vec::new(),
            ran: Vec::new(),
            abandoned: 0,
            state,
            initial_state: state,
            seen: Vec::new(),
            submitted: Ghost(Multiset::empty()),
            history: Ghost(Seq::empty()),
        };
        assert(fresh@ =~= initial(state, delta_effect()));
        fresh
    }

    /// The shared task count.
    pub fn task_count(&self) -> (count: usize)
        ensures
            count == self@.task_count,
    {
        self.task_count
    }

    /// Whether a task runs or is scheduled, as the task count shows.
    pub fn has_running_tasks(&self) -> (running: bool)
        ensures
            running <==> self@.task_count != 0,
    {
        has_running_tasks(self.task_count)
    }

    /// Whether no task runs or is scheduled, as the task count shows.
    pub fn has_no_running_tasks(&self) -> (idle: bool)
        ensures
            idle <==> self@.task_count == 0,
    {
        has_no_running_tasks(self.task_count)
    }

    /// The jobs of the calls that still have to push them, by index.
    pub fn pending_jobs(&self) -> (pending: &Vec<Job>)
        ensures
            pending@ == self@.pushing,
    {
        &self.pending
    }

    /// The state that the mutex protects.
    pub fn state(&self) -> (state: u64)
        ensures
            state == self@.state,
    {
        self.state
    }

    /// The state each task that ran found, in the order they ran.
    pub fn seen_states(&self) -> (seen: &Vec<u64>)
        ensures
            seen@ == self@.seen,
    {
        &self.seen
    }

    /// The jobs that ran, in the order they ran.
    pub fn ran_jobs(&self) -> (ran: &Vec<Job>)
        ensures
            ran@ == self@.ran,
    {
        &self.ran
    }

    /// Where the call that holds the mutex stands, if one does.
    pub fn holder(&self) -> (holding: Option<Holding>)
        requires
            self.wf(),
        ensures
            holding is None <==> self@.holders.len() == 0,
            holding matches Some(h) ==> self@.holders == seq![h],
    {
        proof {
            self.lemma_wf_inv();
        }
        if self.holders.len() == 0 {
            None
        } else {
            proof {
                assert(self@.holders =~= seq![self.holders@[0]]);
            }
            Some(self.holders[0])
        }
    }

    /// A new call hands `job` to the mutex: it raises the task count and, by the value it
    /// read, holds the mutex (and runs `job` next) or has still to push `job`.
    pub fn submit(&mut self, job: Job) -> (submission: Submission)
        requires
            old(self).wf(),
            old(self)@.task_count < usize::MAX,
        ensures
            final(self).wf(),
            final(self)@ == next(old(self)@, Step::Submit(job)),
            final(self).steps() == old(self).steps().push(Step::Submit(job)),
            submission == submission_for(old(self)@.task_count),
    {
        proof {
            self.lemma_wf_inv();
            lemma_after_push(initial(self@.initial_state, delta_effect()), self.history@, Step::Submit(job));
        }
        let previous = self.task_count;
        self.task_count = previous + 1;
        let submission = decide_submission(previous);
        match submission {
            Submission::RunNow => {
                if job.runs_last {
                    self.holders.push(Holding::RunningToEnd(job));
                    self.abandoned = self.abandoned + 1;
                } else {
                    self.holders.push(Holding::Running(job));
                }
            },
            Submission::Enqueue => {
                self.pending.push(job);
            },
        }
        self.submitted = Ghost(self.submitted@.insert(job));
        self.history = Ghost(self.history@.push(Step::Submit(job)));
        proof {
            assert(self@ =~= next(old(self)@, Step::Submit(job)));
        }
        submission
    }

    /// The pending call at `index` pushes its job to the queue; `None`, and nothing
    /// changes, where no call is pending at `index`.
    pub fn push(&mut self, index: usize) -> (pushed: Option<Job>)
        requires
            old(self).wf(),
        ensures
            final(self).wf(),
            index < old(self)@.pushing.len() ==> {
                &&& pushed == Some(old(self)@.pushing[index as int])
                &&& forall|j: Job| #[trigger] final(self)@.queue.count(j) == old(self)@.queue.count(
                    j,
                ) + if j == old(self)@.pushing[index as int] {
                    1nat
                } else {
                    0nat
                }
                &&& final(self)@.pushing.len() + 1 == old(self)@.pushing.len()
                &&& forall|k: int|
                    0 <= k < index ==> #[trigger] final(self)@.pushing[k] == old(self)@.pushing[k]
                &&& forall|k: int|
                    index <= k < final(self)@.pushing.len() ==> #[trigger] final(self)@.pushing[k]
                        == old(self)@.pushing[k + 1]
                &&& final(self)@ == next(old(self)@, Step::Push(index as nat))
                &&& final(self).steps() == old(self).steps().push(Step::Push(index as nat))
            },
            index >= old(self)@.pushing.len() ==> {
                &&& pushed is None
                &&& final(self)@ == old(self)@
                &&& final(self).steps() == old(self).steps()
            },
    {
        if index >= self.pending.len() {
            return None;
        }
        proof {
            lemma_after_push(initial(self@.initial_state, delta_effect()), self.history@, Step::Push(index as nat));
            law_push_moves_the_calls_own_job(self@, index as nat);
        }
        let job = self.pending.remove(index);
        push_job(&mut self.task_queue, job);
        self.history = Ghost(self.history@.push(Step::Push(index as nat)));
        proof {
            assert(self@ =~= next(old(self)@, Step::Push(index as nat)));
        }
        Some(job)
    }

    /// The holder runs the job in its hands. A run-last job first raises the count, and
    /// runs only if it read one (then lowers the count again); otherwise it becomes a
    /// pending push again. Returns the job
    /// that ran, if one did; nothing changes where the holder has no job in hand.
    pub fn run(&mut self) -> (ran: Option<Job>)
        requires
            old(self).wf(),
            old(self)@.holders.len() == 1 && old(self)@.holders[0] is Running
                && old(self)@.holders[0]->Running_0.runs_last ==> old(self)@.task_count
                < usize::MAX,
        ensures
            final(self).wf(),
            enabled(old(self)@, Step::Run(0)) ==> {
                &&& final(self)@ == next(old(self)@, Step::Run(0))
                &&& final(self).steps() == old(self).steps().push(Step::Run(0))
            },
            !enabled(old(self)@, Step::Run(0)) ==> {
                &&& final(self)@ == old(self)@
                &&& final(self).steps() == old(self).steps()
            },
            ran matches Some(job) ==> final(self)@.ran == old(self)@.ran.push(job),
            ran is None ==> final(self)@.ran == old(self)@.ran,
            ran matches Some(job) ==> {
                &&& final(self)@.state as int == (old(self)@.state + job.delta)
                    % 0x1_0000_0000_0000_0000
                &&& final(self)@.seen == old(self)@.seen.push(old(self)@.state)
            },
            ran is None ==> final(self)@.state == old(self)@.state,
    {
        proof {
            self.lemma_wf_inv();
            if enabled(self@, Step::Run(0)) {
                assert(self@.holders =~= seq![self@.holders[0]]);
                match self@.holders[0] {
                    Holding::Running(job) => law_running_a_task_adds_its_delta(self@, job),
                    Holding::RunningToEnd(job) => law_running_a_task_adds_its_delta(self@, job),
                    _ => {},
                }
            }
        }
        if self.holders.len() != 1 {
            return None;
        }
        let holding = self.holders[0];
        match holding {
            Holding::Running(job) => {
                proof {
                    lemma_after_push(initial(self@.initial_state, delta_effect()), self.history@, Step::Run(0));
                }
                let ran = if !job.runs_last {
                    self.seen.push(self.state);
                    self.state = self.state.wrapping_add(job.delta);
                    self.ran.push(job);
                    Some(job)
                } else {
                    let previous = self.task_count;
                    self.task_count = previous + 1;
                    match decide_last_turn(previous) {
                        LastTurn::RunNow => {
                            self.seen.push(self.state);
                            self.state = self.state.wrapping_add(job.delta);
                            self.ran.push(job);
                            // the job gives its unit of the count back once it ran
                            self.task_count = previous;
                            Some(job)
                        },
                        LastTurn::Reschedule => {
                            self.pending.push(job);
                            None
                        },
                    }
                };
                self.holders.set(0, Holding::Releasing);
                self.history = Ghost(self.history@.push(Step::Run(0)));
                proof {
                    assert(self@ =~= next(old(self)@, Step::Run(0)));
                }
                ran
            },
            Holding::RunningToEnd(job) => {
                proof {
                    lemma_after_push(initial(self@.initial_state, delta_effect()), self.history@, Step::Run(0));
                }
                self.seen.push(self.state);
                self.state = self.state.wrapping_add(job.delta);
                self.ran.push(job);
                self.holders.pop();
                self.history = Ghost(self.history@.push(Step::Run(0)));
                proof {
                    assert(self.holders@ =~= old(self).holders@.remove(0));
                    assert(self@ =~= next(old(self)@, Step::Run(0)));
                }
                Some(job)
            },
            _ => None,
        }
    }

    /// The holder, once a job ran, lowers the task count and, by the value it read,
    /// leaves the mutex or goes on to take a job from the queue. `None`, and nothing
    /// changes, where the holder is not releasing.
    pub fn release(&mut self) -> (release: Option<Release>)
        requires
            old(self).wf(),
        ensures
            final(self).wf(),
            enabled(old(self)@, Step::Release(0)) ==> {
                &&& release == Some(release_for(old(self)@.task_count))
                &&& final(self)@ == next(old(self)@, Step::Release(0))
                &&& final(self).steps() == old(self).steps().push(Step::Release(0))
            },
            !enabled(old(self)@, Step::Release(0)) ==> {
                &&& release is None
                &&& final(self)@ == old(self)@
                &&& final(self).steps() == old(self).steps()
            },
    {
        proof {
            self.lemma_wf_inv();
        }
        if self.holders.len() != 1 {
            return None;
        }
        match self.holders[0] {
            Holding::Releasing => {},
            _ => {
                return None;
            },
        }
        proof {
            lemma_after_push(initial(self@.initial_state, delta_effect()), self.history@, Step::Release(0));
        }
        let previous = self.task_count;
        self.task_count = previous - 1;
        let release = decide_release(previous);
        match release {
            Release::Finished => {
                self.holders.pop();
            },
            Release::TakeNext => {
                self.holders.set(0, Holding::Taking);
            },
        }
        self.history = Ghost(self.history@.push(Step::Release(0)));
        proof {
            assert(self.holders@ =~= next(old(self)@, Step::Release(0)).holders);
            assert(self@ =~= next(old(self)@, Step::Release(0)));
        }
        Some(release)
    }

    /// The holder takes a job from the queue, to run it next. `None`, and nothing changes,
    /// where the holder is not taking or the queue is empty (the holder would spin until
    /// a pending call pushes).
    pub fn take(&mut self) -> (taken: Option<Job>)
        requires
            old(self).wf(),
        ensures
            final(self).wf(),
            taken matches Some(job) ==> {
                &&& enabled(old(self)@, Step::Take(0, job))
                &&& final(self)@ == next(old(self)@, Step::Take(0, job))
                &&& final(self).steps() == old(self).steps().push(Step::Take(0, job))
            },
            taken is None ==> {
                &&& !(old(self)@.holders.len() == 1 && old(self)@.holders[0] is Taking
                    && old(self)@.queue.len() > 0)
                &&& final(self)@ == old(self)@
                &&& final(self).steps() == old(self).steps()
            },
    {
        proof {
            self.lemma_wf_inv();
        }
        if self.holders.len() != 1 {
            return None;
        }
        match self.holders[0] {
            Holding::Taking => {},
            _ => {
                return None;
            },
        }
        // With the holder taking, the count is the queued jobs, the pending pushes and
        // the units that run-last tasks run on an idle mutex keep raised.
        let queued = self.task_count - self.pending.len() - self.abandoned;
        if queued == 0 {
            return None;
        }
        let job = pop_job(&mut self.task_queue);
        proof {
            assert(enabled(old(self)@, Step::Take(0, job)));
            lemma_after_push(initial(self@.initial_state, delta_effect()), self.history@, Step::Take(0, job));
        }
        self.holders.set(0, Holding::Running(job));
        self.history = Ghost(self.history@.push(Step::Take(0, job)));
        proof {
            assert(self@ =~= next(old(self)@, Step::Take(0, job)));
        }
        Some(job)
    }

    /// The holder runs, releases and takes until it leaves the mutex: the loop of the
    /// first caller, once no call is about to push and no run-last task was handed. It
    /// ends with the count at zero and every task handed to the mutex run exactly once.
    pub fn run_holder_until_idle(&mut self)
        requires
            old(self).wf(),
            old(self)@.pushing.len() == 0,
            no_run_last_jobs(old(self)@),
        ensures
            final(self).wf(),
            final(self)@.task_count == 0,
            final(self)@.submitted == old(self)@.submitted,
            final(self)@.submitted =~= final(self)@.ran.to_multiset(),
            old(self).steps().is_prefix_of(final(self).steps()),
            forall|k: int|
                old(self).steps().len() <= k < final(self).steps().len() ==> is_holder_step(
                    #[trigger] final(self).steps()[k],
                ),
    {
        proof {
            self.lemma_wf_inv();
            if self@.abandoned > 0 {
                let w = choose|j: Job| #[trigger] self@.submitted.count(j) > 0 && j.runs_last;
                assert(!w.runs_last);
            }
        }
        while self.holders.len() == 1
            invariant
                self.wf(),
                self@.pushing.len() == 0,
                self@.abandoned == 0,
                no_run_last_jobs(self@),
                self@.submitted == old(self)@.submitted,
                old(self).steps().is_prefix_of(self.steps()),
                forall|k: int|
                    old(self).steps().len() <= k < self.steps().len() ==> is_holder_step(
                        #[trigger] self.steps()[k],
                    ),
            decreases drain_measure(self@),
        {
            proof {
                self.lemma_wf_inv();
            }
            let ghost before = self.steps();
            let ghost measure = drain_measure(self@);
            let holding = self.holders[0];
            match holding {
                Holding::Running(job) => {
                    proof {
                        assert(held(self@).count(job) > 0);
                        assert(self@.submitted.count(job) > 0);
                    }
                    self.run();
                },
                Holding::Releasing => {
                    self.release();
                },
                Holding::Taking => {
                    self.take();
                },
                Holding::RunningToEnd(_) => {
                    proof {
                        assert(false);
                    }
                },
            }
            proof {
                assert(self.steps().len() == before.len() + 1);
                assert(before.is_prefix_of(self.steps()));
                assert(drain_measure(self@) < measure);
            }
        }
        proof {
            self.lemma_wf_inv();
            broadcast use vstd::seq_lib::group_to_multiset_ensures;
            broadcast use vstd::multiset::group_multiset_axioms;
            assert(self@.queue =~= Multiset::empty());
            assert(self@.pushing.to_multiset() =~= Multiset::empty());
            assert(held(self@) =~= Multiset::empty());
        }
    }
}

} // verus!
