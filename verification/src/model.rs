//! The pool as a state machine over its history.
//!
//! A [`PoolView`] records what has happened to a pool: the jobs submitted, to
//! which worker each dispatched job went, which jobs are known to have run to
//! completion, and the state of every worker. The three steps of a pool's
//! life are functions on that record: a caller submits a job, a worker asks
//! for work, the owner shuts the pool down.
//!
//! A worker runs a job synchronously and only then asks again. So the job a
//! worker received counts as completed when that worker next asks, and not
//! before.

use crate::queue::Received;
use vstd::prelude::*;

verus! {

/// What the history records of one worker.
pub struct WorkerView {
    /// Whether the worker's loop is still going.
    pub running: bool,
    /// Whether the worker's thread has not been taken for joining yet.
    pub joinable: bool,
    /// The job that the worker received last and has not been seen to
    /// complete, as an index into the submitted jobs.
    pub current: Option<int>,
}

/// The history of a pool.
pub struct PoolView<J> {
    /// The workers, by id.
    pub workers: Seq<WorkerView>,
    /// Whether jobs can still be submitted.
    pub open: bool,
    /// Every job submitted so far, in submission order.
    pub submitted: Seq<J>,
    /// For each job dispatched so far, in submission order, the id of the
    /// worker that received it.
    pub assigned: Seq<int>,
    /// The jobs that have run to completion, as indices into the submitted
    /// jobs, in the order in which their completion became known.
    pub completed: Seq<int>,
}

/// One step in the life of a pool.
pub enum PoolStep<J> {
    /// A caller submits a job.
    Execute(J),
    /// The worker with this id asks for work.
    Receive(int),
    /// The owner begins shutdown.
    Shutdown,
}

/// How many of `workers` have a loop that is still going.
pub open spec fn running_count(workers: Seq<WorkerView>) -> nat
    decreases workers.len(),
{
    if workers.len() == 0 {
        0
    } else if workers.last().running {
        running_count(workers.drop_last()) + 1
    } else {
        running_count(workers.drop_last())
    }
}

impl<J> PoolView<J> {
    /// The number of workers.
    pub open spec fn size(self) -> nat {
        self.workers.len()
    }

    /// How many jobs have been handed to workers.
    pub open spec fn dispatched(self) -> nat {
        self.assigned.len()
    }

    /// The jobs that wait for a worker, oldest first.
    pub open spec fn pending(self) -> Seq<J> {
        self.submitted.skip(self.assigned.len() as int)
    }

    /// The jobs that have run to completion, in the order in which their
    /// completion became known.
    pub open spec fn completed_jobs(self) -> Seq<J> {
        Seq::new(self.completed.len(), |k: int| self.submitted[self.completed[k]])
    }

    /// Whether every worker's loop has ended.
    pub open spec fn finished(self) -> bool {
        forall|w: int| 0 <= w < self.workers.len() ==> !(#[trigger] self.workers[w]).running
    }

    /// Whether job `i` is the one that its worker is running.
    pub open spec fn is_current(self, i: int) -> bool {
        self.workers[self.assigned[i]].current == Some(i)
    }

    /// Whether job `i` is either running on its worker or completed.
    pub open spec fn accounted(self, i: int) -> bool {
        self.is_current(i) || self.completed.contains(i)
    }

    /// The job that worker `w` is running, if any, was dispatched to `w`, and
    /// nothing was dispatched to `w` after it.
    pub open spec fn current_is_latest(self, w: int) -> bool {
        match self.workers[w].current {
            Some(i) => {
                &&& 0 <= i < self.assigned.len()
                &&& self.assigned[i] == w
                &&& forall|j: int| i < j < self.assigned.len() ==> #[trigger] self.assigned[j] != w
            },
            None => true,
        }
    }

    /// A worker whose loop has ended saw the queue closed and empty, and is
    /// running nothing.
    pub open spec fn exit_was_clean(self, w: int) -> bool {
        !self.workers[w].running ==> {
            &&& !self.open
            &&& self.assigned.len() == self.submitted.len()
            &&& self.workers[w].current is None
        }
    }

    /// Threads are taken for joining only once the pool is closed.
    pub open spec fn joined_after_close(self, w: int) -> bool {
        !self.workers[w].joinable ==> !self.open
    }

    /// What holds of every pool, whatever was done with it.
    pub open spec fn wf(self) -> bool {
        &&& self.workers.len() > 0
        &&& self.assigned.len() <= self.submitted.len()
        &&& forall|i: int|
            0 <= i < self.assigned.len() ==> 0 <= #[trigger] self.assigned[i] < self.workers.len()
        &&& forall|w: int| 0 <= w < self.workers.len() ==> #[trigger] self.current_is_latest(w)
        &&& forall|w: int| 0 <= w < self.workers.len() ==> #[trigger] self.exit_was_clean(w)
        &&& forall|w: int| 0 <= w < self.workers.len() ==> #[trigger] self.joined_after_close(w)
        &&& self.completed.no_duplicates()
        &&& forall|k: int|
            0 <= k < self.completed.len() ==> 0 <= #[trigger] self.completed[k]
                < self.assigned.len()
        &&& forall|k: int|
            0 <= k < self.completed.len() ==> !self.is_current(#[trigger] self.completed[k])
        &&& forall|i: int| 0 <= i < self.assigned.len() ==> #[trigger] self.accounted(i)
        &&& forall|a: int, b: int|
            0 <= a < b < self.completed.len() && self.assigned[#[trigger] self.completed[a]]
                == self.assigned[#[trigger] self.completed[b]] ==> self.completed[a]
                < self.completed[b]
    }

    /// A new pool of `n` workers: open, every worker running and joinable,
    /// nothing submitted.
    pub open spec fn init(n: nat) -> Self {
        PoolView {
            workers: Seq::new(
                n,
                |w: int| WorkerView { running: true, joinable: true, current: None },
            ),
            open: true,
            submitted: Seq::empty(),
            assigned: Seq::empty(),
            completed: Seq::empty(),
        }
    }

    /// The pool after `job` is submitted.
    pub open spec fn execute(self, job: J) -> Self {
        PoolView { submitted: self.submitted.push(job), ..self }
    }

    /// What a worker that asks for work gets: the oldest pending job; where
    /// none is pending, word to wait while the pool is open, and word that
    /// nothing more will come once it is closed.
    pub open spec fn outcome(self) -> Received<J> {
        if self.assigned.len() < self.submitted.len() {
            Received::Job(self.submitted[self.assigned.len() as int])
        } else if self.open {
            Received::Empty
        } else {
            Received::Disconnected
        }
    }

    /// The completed jobs once worker `w` asks again: the job it was running
    /// is now known to be complete.
    pub open spec fn completed_when_asking(self, w: int) -> Seq<int> {
        match self.workers[w].current {
            Some(i) => self.completed.push(i),
            None => self.completed,
        }
    }

    /// The pool after worker `w` has asked for work.
    pub open spec fn receive(self, w: int) -> Self {
        let completed = self.completed_when_asking(w);
        let worker = self.workers[w];
        if self.assigned.len() < self.submitted.len() {
            PoolView {
                workers: self.workers.update(
                    w,
                    WorkerView { current: Some(self.assigned.len() as int), ..worker },
                ),
                assigned: self.assigned.push(w),
                completed,
                ..self
            }
        } else if self.open {
            PoolView {
                workers: self.workers.update(w, WorkerView { current: None, ..worker }),
                completed,
                ..self
            }
        } else {
            PoolView {
                workers: self.workers.update(
                    w,
                    WorkerView { current: None, running: false, ..worker },
                ),
                completed,
                ..self
            }
        }
    }

    /// The pool after shutdown has begun: closed to submissions, and every
    /// worker's thread taken for joining.
    pub open spec fn shutdown(self) -> Self {
        PoolView {
            workers: Seq::new(
                self.workers.len(),
                |w: int| WorkerView { joinable: false, ..self.workers[w] },
            ),
            open: false,
            ..self
        }
    }

    /// The ids below `n` of the workers whose thread is still to be joined,
    /// in ascending order.
    pub open spec fn joinable_below(self, n: int) -> Seq<int>
        decreases n,
    {
        if n <= 0 {
            Seq::empty()
        } else if self.workers[n - 1].joinable {
            self.joinable_below(n - 1).push(n - 1)
        } else {
            self.joinable_below(n - 1)
        }
    }

    /// The workers that shutdown joins, in the order in which it joins them:
    /// those whose thread is still to be joined, by ascending id.
    pub open spec fn to_join(self) -> Seq<int> {
        self.joinable_below(self.workers.len() as int)
    }

    /// Whether `step` may be taken: jobs are submitted to an open pool only,
    /// and only the pool's own workers ask it for work.
    pub open spec fn permits(self, step: PoolStep<J>) -> bool {
        match step {
            PoolStep::Execute(_) => self.open,
            PoolStep::Receive(w) => 0 <= w < self.workers.len(),
            PoolStep::Shutdown => true,
        }
    }

    /// The pool after `step`.
    pub open spec fn step(self, step: PoolStep<J>) -> Self {
        match step {
            PoolStep::Execute(job) => self.execute(job),
            PoolStep::Receive(w) => self.receive(w),
            PoolStep::Shutdown => self.shutdown(),
        }
    }

    /// The pool after `steps`, taken in order.
    pub open spec fn run(self, steps: Seq<PoolStep<J>>) -> Self
        decreases steps.len(),
    {
        if steps.len() == 0 {
            self
        } else {
            self.run(steps.drop_last()).step(steps.last())
        }
    }

    /// Whether each of `steps` may be taken when its turn comes.
    pub open spec fn permits_all(self, steps: Seq<PoolStep<J>>) -> bool
        decreases steps.len(),
    {
        steps.len() == 0 || (self.permits_all(steps.drop_last()) && self.run(
            steps.drop_last(),
        ).permits(steps.last()))
    }

    /// What is left to do before every worker's loop has ended: the pending
    /// jobs to hand out, and the running workers to tell that nothing will
    /// come.
    pub open spec fn work_left(self) -> nat {
        self.pending().len() + running_count(self.workers)
    }

    /// A new pool with at least one worker is well formed.
    pub proof fn lemma_init_wf(n: nat)
        requires
            n > 0,
        ensures
            Self::init(n).wf(),
    {
        let v = Self::init(n);
        assert forall|w: int| 0 <= w < v.workers.len() implies #[trigger] v.current_is_latest(w) by {}
    }

    /// Submitting a job to an open pool keeps it well formed.
    pub proof fn lemma_execute_wf(self, job: J)
        requires
            self.wf(),
            self.open,
        ensures
            self.execute(job).wf(),
    {
        let v = self.execute(job);
        assert forall|w: int| 0 <= w < v.workers.len() implies #[trigger] v.current_is_latest(w) by {
            assert(self.current_is_latest(w));
        }
        assert forall|w: int| 0 <= w < v.workers.len() implies #[trigger] v.exit_was_clean(w) by {
            assert(self.exit_was_clean(w));
        }
        assert forall|w: int| 0 <= w < v.workers.len() implies #[trigger] v.joined_after_close(
            w,
        ) by {
            assert(self.joined_after_close(w));
        }
        assert forall|i: int| 0 <= i < v.assigned.len() implies #[trigger] v.accounted(i) by {
            assert(self.accounted(i));
        }
    }

    /// A worker's asking for work keeps the pool well formed.
    pub proof fn lemma_receive_wf(self, w: int)
        requires
            self.wf(),
            0 <= w < self.workers.len(),
        ensures
            self.receive(w).wf(),
    {
        let v = self.receive(w);
        let d = self.assigned.len() as int;
        let took = self.assigned.len() < self.submitted.len();
        assert(self.current_is_latest(w));
        assert(self.exit_was_clean(w));
        assert(self.joined_after_close(w));
        assert(v.workers.len() == self.workers.len());
        // What is known of the job that `w` was running.
        if let Some(p) = self.workers[w].current {
            assert(self.is_current(p));
            assert(!self.completed.contains(p)) by {
                if self.completed.contains(p) {
                    let k = choose|k: int| 0 <= k < self.completed.len() && self.completed[k] == p;
                    assert(!self.is_current(self.completed[k]));
                }
            }
            assert(v.completed == self.completed.push(p));
        } else {
            assert(v.completed == self.completed);
        }
        assert forall|k: int| 0 <= k < self.completed.len() implies v.completed[k]
            == self.completed[k] by {}
        assert forall|i: int| 0 <= i < self.assigned.len() implies v.assigned[i]
            == self.assigned[i] by {}
        assert forall|i: int| 0 <= i < v.assigned.len() implies 0 <= #[trigger] v.assigned[i]
            < v.workers.len() by {
            if i < d {
                assert(v.assigned[i] == self.assigned[i]);
            }
        }
        assert forall|u: int| 0 <= u < v.workers.len() implies #[trigger] v.current_is_latest(u) by {
            assert(self.current_is_latest(u));
            if u != w {
                assert(v.workers[u] == self.workers[u]);
            }
        }
        assert forall|u: int| 0 <= u < v.workers.len() implies #[trigger] v.exit_was_clean(u) by {
            assert(self.exit_was_clean(u));
        }
        assert forall|u: int| 0 <= u < v.workers.len() implies #[trigger] v.joined_after_close(
            u,
        ) by {
            assert(self.joined_after_close(u));
        }
        assert(v.completed.no_duplicates()) by {
            assert forall|a: int, b: int|
                0 <= a < v.completed.len() && 0 <= b < v.completed.len() && a != b implies v.completed[a]
                != v.completed[b] by {
                if a < self.completed.len() && b < self.completed.len() {
                    assert(self.completed[a] != self.completed[b]);
                } else if a < self.completed.len() {
                    assert(self.completed.contains(self.completed[a]));
                } else {
                    assert(self.completed.contains(self.completed[b]));
                }
            }
        }
        assert forall|k: int| 0 <= k < v.completed.len() implies 0 <= #[trigger] v.completed[k]
            < v.assigned.len() by {
            if k < self.completed.len() {
                assert(v.completed[k] == self.completed[k]);
            }
        }
        assert forall|k: int| 0 <= k < v.completed.len() implies !v.is_current(
            #[trigger] v.completed[k],
        ) by {
            let i = v.completed[k];
            if k < self.completed.len() {
                assert(i == self.completed[k]);
                assert(!self.is_current(self.completed[k]));
                assert(v.assigned[i] == self.assigned[i]);
            }
        }
        assert forall|i: int| 0 <= i < v.assigned.len() implies #[trigger] v.accounted(i) by {
            if i < d {
                assert(self.accounted(i));
                assert(v.assigned[i] == self.assigned[i]);
                if self.completed.contains(i) {
                    let k = choose|k: int| 0 <= k < self.completed.len() && self.completed[k] == i;
                    assert(v.completed[k] == i);
                } else if self.assigned[i] == w {
                    assert(v.completed[v.completed.len() - 1] == i);
                }
            }
        }
        assert forall|a: int, b: int|
            0 <= a < b < v.completed.len() && v.assigned[#[trigger] v.completed[a]]
                == v.assigned[#[trigger] v.completed[b]] implies v.completed[a]
            < v.completed[b] by {
            let x = v.completed[a];
            let y = v.completed[b];
            assert(x == self.completed[a]);
            assert(v.assigned[x] == self.assigned[x]);
            if b < self.completed.len() {
                assert(y == self.completed[b]);
                assert(v.assigned[y] == self.assigned[y]);
            } else {
                assert(self.completed.contains(x));
                assert(v.assigned[y] == self.assigned[y]);
            }
        }
    }

    /// Beginning shutdown keeps the pool well formed.
    pub proof fn lemma_shutdown_wf(self)
        requires
            self.wf(),
        ensures
            self.shutdown().wf(),
    {
        let v = self.shutdown();
        assert forall|w: int| 0 <= w < v.workers.len() implies #[trigger] v.current_is_latest(w) by {
            assert(self.current_is_latest(w));
        }
        assert forall|w: int| 0 <= w < v.workers.len() implies #[trigger] v.exit_was_clean(w) by {
            assert(self.exit_was_clean(w));
        }
        assert forall|i: int| 0 <= i < v.assigned.len() implies #[trigger] v.accounted(i) by {
            assert(self.accounted(i));
        }
        assert forall|k: int| 0 <= k < v.completed.len() implies !v.is_current(
            #[trigger] v.completed[k],
        ) by {
            assert(!self.is_current(self.completed[k]));
        }
    }
}

} // verus!
