//! The pool: a fixed set of workers and the queue that feeds them.
//!
//! The pool decides; its owner acts. A worker's thread calls
//! [`ThreadPool::receive`] under mutual exclusion, runs the job it is handed
//! and calls again, waits when told to wait, and ends its loop when told that
//! nothing will come. The owner calls [`ThreadPool::shutdown`] and joins the
//! workers it names, in the order given.

use crate::model::{PoolView, WorkerView};
use crate::queue::{Received, WorkQueue};
use crate::worker::Worker;
use vstd::prelude::*;

verus! {

/// A pool of a fixed, positive number of workers that run jobs of type `J`.
pub struct ThreadPool<J> {
    workers: Vec<Worker>,
    queue: WorkQueue<J>,
    current: Ghost<Seq<Option<int>>>,
    assigned: Ghost<Seq<int>>,
    completed: Ghost<Seq<int>>,
}

impl<J> View for ThreadPool<J> {
    type V = PoolView<J>;

    closed spec fn view(&self) -> PoolView<J> {
        PoolView {
            workers: Seq::new(
                self.workers@.len(),
                |w: int|
                    WorkerView {
                        running: self.workers@[w].running(),
                        joinable: self.workers@[w].joinable(),
                        current: self.current@[w],
                    },
            ),
            open: self.queue@.open,
            submitted: self.queue@.sent,
            assigned: self.assigned@,
            completed: self.completed@,
        }
    }
}

impl<J> ThreadPool<J> {
    /// The pool holds what its history says: the queue holds the pending
    /// jobs, and worker `w` has the id `w`.
    pub closed spec fn well_formed(&self) -> bool {
        &&& self.queue.well_formed()
        &&& self.queue@.taken == self.assigned@.len()
        &&& self.current@.len() == self.workers@.len()
        &&& forall|w: int| 0 <= w < self.workers@.len() ==> (#[trigger] self.workers@[w]).spec_id() == w
        &&& self@.wf()
    }

    /// The history of a well-formed pool is well formed.
    pub proof fn lemma_well_formed(&self)
        requires
            self.well_formed(),
        ensures
            self@.wf(),
    {
    }

    /// Creates a pool of `size` workers, with the ids `0` to `size - 1`. The
    /// pool is open, every worker is running, and nothing is submitted.
    pub fn new(size: usize) -> (pool: Self)
        requires
            size > 0,
        ensures
            pool.well_formed(),
            pool@ == PoolView::<J>::init(size as nat),
    {
        let mut workers: Vec<Worker> = Vec::new();
        let mut id: usize = 0;
        while id < size
            invariant
                id <= size,
                workers@.len() == id,
                forall|w: int|
                    0 <= w < id ==> {
                        &&& (#[trigger] workers@[w]).spec_id() == w
                        &&& workers@[w].running()
                        &&& workers@[w].joinable()
                    },
            decreases size - id,
        {
            workers.push(Worker::new(id));
            id += 1;
        }
        let pool = ThreadPool {
            workers,
            queue: WorkQueue::new(),
            current: Ghost(Seq::new(size as nat, |w: int| None)),
            assigned: Ghost(Seq::empty()),
            completed: Ghost(Seq::empty()),
        };
        proof {
            assert(pool@.workers =~= PoolView::<J>::init(size as nat).workers);
            PoolView::<J>::lemma_init_wf(size as nat);
        }
        pool
    }

    /// The number of workers.
    pub fn size(&self) -> (n: usize)
        ensures
            n == self@.size(),
    {
        self.workers.len()
    }

    /// Whether jobs can still be submitted.
    pub fn is_open(&self) -> (open: bool)
        ensures
            open == self@.open,
    {
        self.queue.is_open()
    }

    /// How many jobs wait for a worker.
    pub fn pending_jobs(&self) -> (n: usize)
        requires
            self.well_formed(),
        ensures
            n == self@.pending().len(),
    {
        self.queue.len()
    }

    /// Whether the loop of worker `worker` is still going.
    pub fn is_running(&self, worker: usize) -> (running: bool)
        requires
            worker < self@.size(),
        ensures
            running == self@.workers[worker as int].running,
    {
        self.workers[worker].is_running()
    }

    /// Whether the thread of worker `worker` has not been taken for joining.
    pub fn has_thread(&self, worker: usize) -> (joinable: bool)
        requires
            worker < self@.size(),
        ensures
            joinable == self@.workers[worker as int].joinable,
    {
        self.workers[worker].has_thread()
    }

    /// Whether every worker's loop has ended.
    pub fn is_finished(&self) -> (finished: bool)
        ensures
            finished == self@.finished(),
    {
        let mut w: usize = 0;
        while w < self.workers.len()
            invariant
                w <= self.workers@.len(),
                forall|u: int| 0 <= u < w ==> !(#[trigger] self@.workers[u]).running,
            decreases self.workers@.len() - w,
        {
            if self.workers[w].is_running() {
                assert(self@.workers[w as int].running);
                return false;
            }
            w += 1;
        }
        true
    }

    /// Submits `job`: it goes behind every job submitted before it and will
    /// be handed to whichever worker asks when its turn has come.
    pub fn execute(&mut self, job: J)
        requires
            old(self).well_formed(),
            old(self)@.open,
        ensures
            final(self).well_formed(),
            final(self)@ == old(self)@.execute(job),
    {
        proof {
            self@.lemma_execute_wf(job);
        }
        self.queue.send(job);
        assert(self@.workers =~= old(self)@.workers);
    }

    /// Answers worker `worker`, which asks for work. Having asked, the worker
    /// has completed the job it was handed before. It is handed the oldest
    /// pending job; where none is pending it is told to wait while the pool
    /// is open, and that nothing will come once the pool is closed, which
    /// ends its loop.
    pub fn receive(&mut self, worker: usize) -> (received: Received<J>)
        requires
            old(self).well_formed(),
            worker < old(self)@.size(),
        ensures
            final(self).well_formed(),
            final(self)@ == old(self)@.receive(worker as int),
            received == old(self)@.outcome(),
    {
        proof {
            self@.lemma_receive_wf(worker as int);
        }
        let ghost before = self@;
        let ghost w = worker as int;
        let ghost done = before.completed_when_asking(w);
        let received = self.queue.recv();
        match &received {
            Received::Job(_) => {
                proof {
                    self.current@ = self.current@.update(w, Some(self.assigned@.len() as int));
                    self.assigned@ = self.assigned@.push(w);
                    self.completed@ = done;
                }
            },
            Received::Empty => {
                proof {
                    self.current@ = self.current@.update(w, None);
                    self.completed@ = done;
                }
            },
            Received::Disconnected => {
                self.workers[worker].terminate();
                proof {
                    self.current@ = self.current@.update(w, None);
                    self.completed@ = done;
                }
            },
        }
        assert(self@.workers =~= before.receive(w).workers);
        received
    }

    /// Begins shutdown. The pool is closed: from now on workers drain the
    /// backlog and are then told that nothing will come. Every worker's
    /// thread is taken, and the ids of the workers to join are handed back in
    /// the order in which to join them, which is by ascending id.
    pub fn shutdown(&mut self) -> (ids: Vec<usize>)
        requires
            old(self).well_formed(),
        ensures
            final(self).well_formed(),
            final(self)@ == old(self)@.shutdown(),
            ids@.map_values(|id: usize| id as int) == old(self)@.to_join(),
    {
        proof {
            self@.lemma_shutdown_wf();
        }
        let ghost before = self@;
        self.queue.close();
        let ghost closed = *self;
        let mut ids: Vec<usize> = Vec::new();
        let mut w: usize = 0;
        while w < self.workers.len()
            invariant
                w <= self.workers@.len() == closed.workers@.len(),
                self.queue == closed.queue,
                self.current == closed.current,
                self.assigned == closed.assigned,
                self.completed == closed.completed,
                forall|u: int|
                    0 <= u < self.workers@.len() ==> {
                        &&& (#[trigger] self.workers@[u]).spec_id() == closed.workers@[u].spec_id()
                        &&& self.workers@[u].running() == closed.workers@[u].running()
                        &&& self.workers@[u].joinable() == (u >= w && closed.workers@[u].joinable())
                    },
                forall|u: int|
                    0 <= u < before.workers.len() ==> (#[trigger] before.workers[u]).joinable
                        == closed.workers@[u].joinable(),
                before.workers.len() == closed.workers@.len(),
                ids@.map_values(|id: usize| id as int) == before.joinable_below(w as int),
            decreases self.workers@.len() - w,
        {
            let ghost seen = ids@.map_values(|id: usize| id as int);
            if self.workers[w].take_thread() {
                ids.push(w);
                assert(ids@.map_values(|id: usize| id as int) =~= seen.push(w as int));
            }
            w += 1;
        }
        assert(self@.workers =~= before.shutdown().workers);
        ids
    }
}

} // verus!
