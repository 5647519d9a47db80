//! A worker: one long-running loop with an id and a thread to join.

use vstd::prelude::*;

verus! {

/// The two states of a worker's loop. A worker never leaves `Terminated`.
#[derive(Clone, Copy, Debug, PartialEq, Eq, Structural)]
pub enum WorkerState {
    /// The loop asks for work, runs it, and asks again.
    Running,
    /// The loop has seen the queue closed and empty, and has ended.
    Terminated,
}

/// What the pool keeps of one worker.
#[derive(Debug)]
pub struct Worker {
    id: usize,
    state: WorkerState,
    thread: bool,
}

impl Worker {
    /// The worker's id.
    pub closed spec fn spec_id(&self) -> usize {
        self.id
    }

    /// Whether the worker's loop is still going.
    pub closed spec fn running(&self) -> bool {
        self.state == WorkerState::Running
    }

    /// Whether the worker's thread has not been taken for joining yet.
    pub closed spec fn joinable(&self) -> bool {
        self.thread
    }

    /// A running worker with the id `id`, whose thread is still to be joined.
    pub fn new(id: usize) -> (worker: Worker)
        ensures
            worker.spec_id() == id,
            worker.running(),
            worker.joinable(),
    {
        Worker { id, state: WorkerState::Running, thread: true }
    }

    /// The worker's id.
    pub fn id(&self) -> (id: usize)
        ensures
            id == self.spec_id(),
    {
        self.id
    }

    /// The state of the worker's loop.
    pub fn state(&self) -> (state: WorkerState)
        ensures
            state == (if self.running() {
                WorkerState::Running
            } else {
                WorkerState::Terminated
            }),
    {
        self.state
    }

    /// Whether the worker's loop is still going.
    pub fn is_running(&self) -> (running: bool)
        ensures
            running == self.running(),
    {
        match self.state {
            WorkerState::Running => true,
            WorkerState::Terminated => false,
        }
    }

    /// Whether the worker's thread has not been taken yet.
    pub fn has_thread(&self) -> (joinable: bool)
        ensures
            joinable == self.joinable(),
    {
        self.thread
    }

    /// Ends the worker's loop. A terminated worker stays terminated.
    pub fn terminate(&mut self)
        ensures
            !final(self).running(),
            final(self).spec_id() == old(self).spec_id(),
            final(self).joinable() == old(self).joinable(),
    {
        self.state = WorkerState::Terminated;
    }

    /// Takes the worker's thread for joining, and says whether it was still
    /// there. It can be taken once.
    pub fn take_thread(&mut self) -> (taken: bool)
        ensures
            taken == old(self).joinable(),
            !final(self).joinable(),
            final(self).spec_id() == old(self).spec_id(),
            final(self).running() == old(self).running(),
    {
        let taken = self.thread;
        self.thread = false;
        taken
    }
}

} // verus!
