//! What a well-formed pool guarantees.
//!
//! Each statement here follows from [`PoolView::wf`], which every step of a
//! pool's life keeps. None of them depends on how the workers' requests
//! interleave.

use crate::model::{running_count, PoolStep, PoolView, WorkerView};
use crate::queue::Received;
use vstd::multiset::*;
use vstd::prelude::*;
use vstd::seq_lib::*;
use vstd::set_lib::*;

verus! {

/// Distinct numbers below `n` are at most `n` many, and exactly `n` many
/// where every number below `n` is among them.
proof fn lemma_distinct_below(s: Seq<int>, n: int)
    requires
        0 <= n,
        s.no_duplicates(),
        forall|k: int| 0 <= k < s.len() ==> 0 <= #[trigger] s[k] < n,
    ensures
        s.len() <= n,
        (forall|i: int| 0 <= i < n ==> s.contains(i)) ==> s.len() == n,
{
    s.unique_seq_to_set();
    lemma_int_range(0, n);
    assert(s.to_set().subset_of(set_int_range(0, n)));
    lemma_len_subset(s.to_set(), set_int_range(0, n));
    if forall|i: int| 0 <= i < n ==> s.contains(i) {
        assert(s.to_set() =~= set_int_range(0, n));
    }
}

/// Taking the items of `s` in the order of `p`, which names every position
/// of `s` once, gives the same items as many times as `s` has them.
proof fn lemma_rearranged<J>(p: Seq<int>, s: Seq<J>)
    requires
        p.no_duplicates(),
        p.len() == s.len(),
        forall|k: int| 0 <= k < p.len() ==> 0 <= #[trigger] p[k] < s.len(),
    ensures
        Seq::new(p.len(), |k: int| s[p[k]]).to_multiset() == s.to_multiset(),
    decreases s.len(),
{
    broadcast use group_multiset_axioms;

    let jobs = Seq::new(p.len(), |k: int| s[p[k]]);
    if s.len() == 0 {
        assert(jobs =~= s);
    } else {
        let last = s.len() - 1;
        assert(p.contains(last)) by {
            if !p.contains(last) {
                assert forall|k: int| 0 <= k < p.len() implies 0 <= #[trigger] p[k] < last by {
                    assert(p.contains(p[k]));
                }
                lemma_distinct_below(p, last);
            }
        }
        let pos = choose|k: int| 0 <= k < p.len() && p[k] == last;
        let rest = p.remove(pos);
        let front = s.drop_last();
        p.remove_ensures(pos);
        assert forall|k: int| 0 <= k < rest.len() implies 0 <= #[trigger] rest[k] < front.len() by {
            if k < pos {
                assert(rest[k] == p[k]);
            } else {
                assert(rest[k] == p[k + 1]);
            }
        }
        assert(rest.no_duplicates()) by {
            assert forall|a: int, b: int|
                0 <= a < rest.len() && 0 <= b < rest.len() && a != b implies rest[a]
                != rest[b] by {
                let a0 = if a < pos { a } else { a + 1 };
                let b0 = if b < pos { b } else { b + 1 };
                assert(rest[a] == p[a0] && rest[b] == p[b0]);
            }
        }
        lemma_rearranged(rest, front);
        let fewer = Seq::new(rest.len(), |k: int| front[rest[k]]);
        assert(jobs.remove(pos) =~= fewer);
        to_multiset_remove(jobs, pos);
        to_multiset_build(front, s[last]);
        assert(front.push(s[last]) =~= s);
        to_multiset_contains(jobs, s[last]);
        assert(jobs[pos] == s[last]);
        assert(jobs.contains(s[last]));
        assert(jobs.to_multiset() =~= jobs.to_multiset().remove(s[last]).insert(s[last]));
    }
}

/// The jobs that `steps` submit, in order.
pub open spec fn submissions<J>(steps: Seq<PoolStep<J>>) -> Seq<J>
    decreases steps.len(),
{
    if steps.len() == 0 {
        Seq::empty()
    } else {
        match steps.last() {
            PoolStep::Execute(job) => submissions(steps.drop_last()).push(job),
            _ => submissions(steps.drop_last()),
        }
    }
}

/// Changing one worker changes the number of running workers by that
/// worker alone.
proof fn lemma_running_count_update(workers: Seq<WorkerView>, w: int, worker: WorkerView)
    requires
        0 <= w < workers.len(),
    ensures
        running_count(workers.update(w, worker)) + (if workers[w].running {
            1nat
        } else {
            0nat
        }) == running_count(workers) + (if worker.running {
            1nat
        } else {
            0nat
        }),
    decreases workers.len(),
{
    let changed = workers.update(w, worker);
    if w == workers.len() - 1 {
        assert(changed.drop_last() =~= workers.drop_last());
    } else {
        assert(changed.drop_last() =~= workers.drop_last().update(w, worker));
        lemma_running_count_update(workers.drop_last(), w, worker);
    }
}

/// No worker is counted as running exactly when every worker's loop has
/// ended.
proof fn lemma_running_count_zero(workers: Seq<WorkerView>)
    ensures
        running_count(workers) == 0 <==> forall|w: int|
            0 <= w < workers.len() ==> !(#[trigger] workers[w]).running,
    decreases workers.len(),
{
    if workers.len() > 0 {
        let front = workers.drop_last();
        lemma_running_count_zero(front);
        if running_count(workers) == 0 {
            assert forall|w: int| 0 <= w < workers.len() implies !(#[trigger] workers[w]).running by {
                if w < front.len() {
                    assert(!front[w].running);
                }
            }
        } else if !workers.last().running {
            let w = choose|w: int| 0 <= w < front.len() && (#[trigger] front[w]).running;
            assert(workers[w].running);
        }
    }
}

/// Taking a thread leaves the number of running workers as it is.
proof fn lemma_running_count_same(a: Seq<WorkerView>, b: Seq<WorkerView>)
    requires
        a.len() == b.len(),
        forall|w: int| 0 <= w < a.len() ==> (#[trigger] a[w]).running == b[w].running,
    ensures
        running_count(a) == running_count(b),
    decreases a.len(),
{
    if a.len() > 0 {
        assert(a.last().running == b.last().running);
        assert forall|w: int| 0 <= w < a.drop_last().len() implies (#[trigger] a.drop_last()[w]).running
            == b.drop_last()[w].running by {
            assert(a[w].running == b[w].running);
        }
        lemma_running_count_same(a.drop_last(), b.drop_last());
    }
}

impl<J> PoolView<J> {
    /// No job completes twice, and only dispatched jobs complete: there are
    /// never more completed jobs than dispatched ones, nor more dispatched
    /// than submitted.
    pub proof fn lemma_jobs_run_at_most_once(self)
        requires
            self.wf(),
        ensures
            self.completed.no_duplicates(),
            self.completed.len() <= self.dispatched() <= self.submitted.len(),
    {
        lemma_distinct_below(self.completed, self.assigned.len() as int);
    }

    /// Once every worker's loop has ended, every submitted job has run to
    /// completion, exactly once: as many jobs completed as were submitted,
    /// each of them is among the completed ones, and the completed jobs are
    /// the submitted jobs up to their order. Nothing is pending, and the pool
    /// is closed.
    pub proof fn lemma_finished_pool_ran_every_job(self)
        requires
            self.wf(),
            self.finished(),
        ensures
            !self.open,
            self.pending() == Seq::<J>::empty(),
            self.dispatched() == self.submitted.len(),
            self.completed.len() == self.submitted.len(),
            forall|i: int| 0 <= i < self.submitted.len() ==> self.completed.contains(i),
            self.completed_jobs().to_multiset() == self.submitted.to_multiset(),
    {
        assert(!self.workers[0].running);
        assert(self.exit_was_clean(0));
        assert forall|i: int| 0 <= i < self.submitted.len() implies self.completed.contains(i) by {
            assert(self.accounted(i));
            let w = self.assigned[i];
            assert(!self.workers[w].running);
            assert(self.exit_was_clean(w));
        }
        lemma_distinct_below(self.completed, self.submitted.len() as int);
        lemma_rearranged(self.completed, self.submitted);
        assert(self.pending() =~= Seq::<J>::empty());
    }

    /// With one worker, jobs complete in the order in which they were
    /// submitted: the completed jobs are the first of the submitted ones, in
    /// order, and all of them once the worker's loop has ended.
    pub proof fn lemma_single_worker_keeps_order(self)
        requires
            self.wf(),
            self.size() == 1,
        ensures
            forall|k: int| 0 <= k < self.completed.len() ==> self.completed[k] == k,
            self.completed_jobs() == self.submitted.take(self.completed.len() as int),
            self.finished() ==> self.completed_jobs() == self.submitted,
    {
        assert forall|k: int| 0 <= k < self.completed.len() implies self.completed[k] == k by {
            self.lemma_single_worker_position(k);
        }
        self.lemma_jobs_run_at_most_once();
        assert(self.completed_jobs() =~= self.submitted.take(self.completed.len() as int));
        if self.finished() {
            self.lemma_finished_pool_ran_every_job();
            assert(self.submitted.take(self.submitted.len() as int) =~= self.submitted);
        }
    }

    /// Each worker runs the jobs it is handed in the order in which they were
    /// submitted: of two completed jobs that went to the same worker, the one
    /// submitted first completed first. And jobs are handed out first come,
    /// first served: the next job to be handed out is the oldest one pending.
    pub proof fn lemma_each_worker_keeps_order(self, a: int, b: int)
        requires
            self.wf(),
            0 <= a < self.completed.len(),
            0 <= b < self.completed.len(),
            self.assigned[self.completed[a]] == self.assigned[self.completed[b]],
        ensures
            a < b <==> self.completed[a] < self.completed[b],
            self.pending().len() > 0 ==> self.outcome() == Received::Job(self.pending()[0]),
    {
        if b < a {
            assert(self.completed[b] < self.completed[a]);
        }
    }

    /// With one worker, the job that completes in place `k` is the job that
    /// was submitted in place `k`.
    proof fn lemma_single_worker_position(self, k: int)
        requires
            self.wf(),
            self.size() == 1,
            0 <= k < self.completed.len(),
        ensures
            self.completed[k] == k,
        decreases k,
    {
        let c = self.completed[k];
        assert forall|m: int| 0 <= m < k implies self.completed[m] == m by {
            self.lemma_single_worker_position(m);
        }
        if c < k {
            assert(self.completed[c] == c);
        } else if c > k {
            assert(self.accounted(k));
            assert(self.assigned[c] == 0 && self.assigned[k] == 0);
            if self.is_current(k) {
                assert(self.current_is_latest(0));
            } else {
                let m = choose|m: int| 0 <= m < self.completed.len() && self.completed[m] == k;
                if m < k {
                    assert(self.completed[m] == m);
                } else {
                    assert(self.assigned[self.completed[k]] == self.assigned[self.completed[m]]);
                }
            }
        }
    }

    /// A pool to which nothing was submitted dispatches nothing and runs
    /// nothing: no worker is ever handed a job. Once it is closed, a worker
    /// that asks is told at once that nothing will come, and its loop ends.
    pub proof fn lemma_idle_pool_runs_nothing(self, w: int)
        requires
            self.wf(),
            self.submitted.len() == 0,
            0 <= w < self.size(),
        ensures
            self.dispatched() == 0,
            self.completed.len() == 0,
            !(self.outcome() is Job),
            self.receive(w).completed.len() == 0,
            !self.open ==> self.outcome() == Received::<J>::Disconnected && !self.receive(
                w,
            ).workers[w].running,
    {
        self.lemma_jobs_run_at_most_once();
        assert(self.current_is_latest(w));
    }

    /// A worker whose loop has ended stays so, whatever happens next, and is
    /// never handed a job again: when it asks it is told that nothing will
    /// come, and nothing changes.
    pub proof fn lemma_termination_is_final(self, w: int, u: int, job: J)
        requires
            self.wf(),
            0 <= w < self.size(),
            0 <= u < self.size(),
            !self.workers[w].running,
        ensures
            !self.receive(u).workers[w].running,
            !self.execute(job).workers[w].running,
            !self.shutdown().workers[w].running,
            self.outcome() == Received::<J>::Disconnected,
            self.receive(w) == self,
    {
        assert(self.exit_was_clean(w));
        assert(self.exit_was_clean(u));
        assert(self.receive(w).workers =~= self.workers);
    }

    /// Shutdown joins the workers by ascending id: the ids it hands out are
    /// those of the workers whose thread is still there, each once, smaller
    /// ids first. For a pool that was never shut down these are all the
    /// workers, `0` to `size - 1`. A second shutdown has nobody left to join.
    pub proof fn lemma_join_order(self)
        requires
            self.wf(),
        ensures
            forall|a: int, b: int|
                0 <= a < b < self.to_join().len() ==> self.to_join()[a] < self.to_join()[b],
            forall|w: int|
                self.to_join().contains(w) <==> 0 <= w < self.size() && self.workers[w].joinable,
            (forall|w: int| 0 <= w < self.size() ==> (#[trigger] self.workers[w]).joinable)
                ==> self.to_join() == Seq::new(self.size(), |w: int| w),
            self.open ==> self.to_join() == Seq::new(self.size(), |w: int| w),
            self.shutdown().to_join() == Seq::<int>::empty(),
    {
        let n = self.workers.len() as int;
        self.lemma_joinable_below(n);
        self.shutdown().lemma_joinable_below(n);
        if self.open {
            assert forall|w: int| 0 <= w < self.size() implies (#[trigger] self.workers[w]).joinable by {
                assert(self.joined_after_close(w));
            }
        }
        assert(self.shutdown().to_join() =~= Seq::<int>::empty());
    }

    /// What the ids of the joinable workers below `n` are.
    proof fn lemma_joinable_below(self, n: int)
        requires
            0 <= n <= self.workers.len(),
        ensures
            forall|a: int, b: int|
                0 <= a < b < self.joinable_below(n).len() ==> self.joinable_below(n)[a]
                    < self.joinable_below(n)[b],
            forall|w: int|
                self.joinable_below(n).contains(w) <==> 0 <= w < n && self.workers[w].joinable,
            (forall|w: int| 0 <= w < n ==> (#[trigger] self.workers[w]).joinable)
                ==> self.joinable_below(n) == Seq::new(n as nat, |w: int| w),
            (forall|w: int| 0 <= w < n ==> !(#[trigger] self.workers[w]).joinable)
                ==> self.joinable_below(n).len() == 0,
        decreases n,
    {
        let ids = self.joinable_below(n);
        if n > 0 {
            let fewer = self.joinable_below(n - 1);
            self.lemma_joinable_below(n - 1);
            assert forall|w: int| ids.contains(w) <==> 0 <= w < n && self.workers[w].joinable by {
                if ids.contains(w) {
                    let k = choose|k: int| 0 <= k < ids.len() && ids[k] == w;
                    if k < fewer.len() {
                        assert(fewer[k] == w);
                        assert(fewer.contains(w));
                    }
                }
                if 0 <= w < n && self.workers[w].joinable {
                    if w < n - 1 {
                        assert(fewer.contains(w));
                        let k = choose|k: int| 0 <= k < fewer.len() && fewer[k] == w;
                        assert(ids[k] == w);
                    } else {
                        assert(ids[ids.len() - 1] == w);
                    }
                }
            }
            assert forall|a: int, b: int| 0 <= a < b < ids.len() implies ids[a] < ids[b] by {
                assert(fewer.contains(ids[a]));
                if b < fewer.len() {
                    assert(ids[b] == fewer[b]);
                }
            }
            if forall|w: int| 0 <= w < n ==> (#[trigger] self.workers[w]).joinable {
                assert(ids =~= Seq::new(n as nat, |w: int| w));
            }
        } else {
            assert(ids =~= Seq::new(0nat, |w: int| w));
        }
    }

    /// A closed pool never tells a worker to wait, and every request of a
    /// running worker brings the end nearer: either a pending job is handed
    /// out or the worker's loop ends. So a closed pool whose running workers
    /// keep asking is finished after as many requests as there is work left,
    /// whatever their order: shutdown does not deadlock.
    pub proof fn lemma_closed_pool_makes_progress(self, w: int)
        requires
            self.wf(),
            !self.open,
            0 <= w < self.size(),
            self.workers[w].running,
        ensures
            !(self.outcome() is Empty),
            self.receive(w).work_left() + 1 == self.work_left(),
    {
        let v = self.receive(w);
        if self.assigned.len() < self.submitted.len() {
            lemma_running_count_update(
                self.workers,
                w,
                WorkerView { current: Some(self.assigned.len() as int), ..self.workers[w] },
            );
        } else {
            lemma_running_count_update(
                self.workers,
                w,
                WorkerView { current: None, running: false, ..self.workers[w] },
            );
        }
    }

    /// Beginning shutdown loses nothing: the submitted, pending and completed
    /// jobs are as they were, every worker is in the state it was in, and as
    /// much work is left as before.
    pub proof fn lemma_shutdown_keeps_the_backlog(self)
        requires
            self.wf(),
        ensures
            !self.shutdown().open,
            self.shutdown().submitted == self.submitted,
            self.shutdown().pending() == self.pending(),
            self.shutdown().completed == self.completed,
            self.shutdown().outcome() is Job <==> self.outcome() is Job,
            forall|w: int|
                0 <= w < self.size() ==> (#[trigger] self.shutdown().workers[w]).running
                    == self.workers[w].running,
            self.shutdown().work_left() == self.work_left(),
    {
        lemma_running_count_same(self.workers, self.shutdown().workers);
    }

    /// Nothing is left to do exactly when every worker's loop has ended.
    pub proof fn lemma_no_work_left(self)
        requires
            self.wf(),
        ensures
            self.work_left() == 0 <==> self.finished(),
    {
        lemma_running_count_zero(self.workers);
        if self.finished() {
            self.lemma_finished_pool_ran_every_job();
        }
    }

    /// Every step that may be taken keeps the pool well formed, keeps the
    /// number of workers, and adds to the submitted jobs what it submits.
    pub proof fn lemma_step(self, step: PoolStep<J>)
        requires
            self.wf(),
            self.permits(step),
        ensures
            self.step(step).wf(),
            self.step(step).size() == self.size(),
            self.step(step).submitted == self.submitted + submissions(seq![step]),
    {
        reveal_with_fuel(submissions, 2);
        assert(seq![step].drop_last() =~= Seq::<PoolStep<J>>::empty());
        match step {
            PoolStep::Execute(job) => {
                self.lemma_execute_wf(job);
                assert(self.submitted.push(job) =~= self.submitted + seq![job]);
                assert(Seq::<J>::empty().push(job) =~= seq![job]);
            },
            PoolStep::Receive(w) => {
                self.lemma_receive_wf(w);
                assert(self.submitted =~= self.submitted + Seq::<J>::empty());
            },
            PoolStep::Shutdown => {
                self.lemma_shutdown_wf();
                assert(self.submitted =~= self.submitted + Seq::<J>::empty());
            },
        }
    }

    /// Whatever is done with a pool, in whatever order, it stays well formed
    /// and its submitted jobs are those it had and those submitted since.
    pub proof fn lemma_run(self, steps: Seq<PoolStep<J>>)
        requires
            self.wf(),
            self.permits_all(steps),
        ensures
            self.run(steps).wf(),
            self.run(steps).size() == self.size(),
            self.run(steps).submitted == self.submitted + submissions(steps),
        decreases steps.len(),
    {
        if steps.len() == 0 {
            assert(self.submitted =~= self.submitted + Seq::<J>::empty());
        } else {
            let before = self.run(steps.drop_last());
            self.lemma_run(steps.drop_last());
            before.lemma_step(steps.last());
            reveal_with_fuel(submissions, 2);
            assert(seq![steps.last()].drop_last() =~= Seq::<PoolStep<J>>::empty());
            assert(before.step(steps.last()).submitted =~= self.submitted + submissions(steps));
        }
    }

    /// A pool of any positive number of workers, used in any permitted way,
    /// has run every job submitted to it, each exactly once, by the time all
    /// its workers' loops have ended: as many jobs have completed as were
    /// submitted, and they are the submitted jobs up to their order.
    pub proof fn lemma_every_job_runs_once(n: nat, steps: Seq<PoolStep<J>>)
        requires
            n > 0,
            Self::init(n).permits_all(steps),
            Self::init(n).run(steps).finished(),
        ensures
            Self::init(n).run(steps).submitted == submissions(steps),
            Self::init(n).run(steps).completed.len() == submissions(steps).len(),
            Self::init(n).run(steps).completed_jobs().to_multiset() == submissions(
                steps,
            ).to_multiset(),
            n == 1 ==> Self::init(n).run(steps).completed_jobs() == submissions(steps),
    {
        let pool = Self::init(n);
        Self::lemma_init_wf(n);
        pool.lemma_run(steps);
        let end = pool.run(steps);
        assert(end.submitted =~= submissions(steps));
        end.lemma_finished_pool_ran_every_job();
        if n == 1 {
            end.lemma_single_worker_keeps_order();
        }
    }
}

} // verus!
