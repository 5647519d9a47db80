//! The work queue: an unbounded first-in, first-out channel of jobs.
//!
//! Submitters send jobs at one end while the queue is open. Workers, one at
//! a time, take them from the other end in the order they were sent. Closing
//! the queue lets the backlog drain and then tells every worker that nothing
//! more will come.

use std::collections::VecDeque;
use vstd::prelude::*;

verus! {

/// What a worker gets when it asks the queue for work.
#[derive(Debug, PartialEq, Eq)]
pub enum Received<J> {
    /// The oldest pending job, now owned by the worker.
    Job(J),
    /// Nothing is pending, but more may come: wait and ask again.
    Empty,
    /// Nothing is pending and nothing more will come.
    Disconnected,
}

/// The history of a queue: every job ever sent, how many of them have been
/// handed out, and whether more may be sent.
pub struct QueueView<J> {
    /// Every job sent so far, oldest first.
    pub sent: Seq<J>,
    /// How many of them have been handed to workers.
    pub taken: nat,
    /// Whether the sending end still exists.
    pub open: bool,
}

impl<J> QueueView<J> {
    /// No more jobs were handed out than were sent.
    pub open spec fn wf(self) -> bool {
        self.taken <= self.sent.len()
    }

    /// The queue of a new channel: open, with no history.
    pub open spec fn fresh() -> Self {
        QueueView { sent: Seq::empty(), taken: 0, open: true }
    }

    /// The jobs that wait to be handed out, oldest first.
    pub open spec fn pending(self) -> Seq<J> {
        self.sent.skip(self.taken as int)
    }

    /// The jobs handed out so far, in the order they were handed out.
    pub open spec fn delivered(self) -> Seq<J> {
        self.sent.take(self.taken as int)
    }

    /// The queue after `job` is sent.
    pub open spec fn send(self, job: J) -> Self {
        QueueView { sent: self.sent.push(job), ..self }
    }

    /// What the next worker to ask gets.
    pub open spec fn next(self) -> Received<J> {
        if self.taken < self.sent.len() {
            Received::Job(self.sent[self.taken as int])
        } else if self.open {
            Received::Empty
        } else {
            Received::Disconnected
        }
    }

    /// The queue after a worker has asked.
    pub open spec fn recv(self) -> Self {
        if self.taken < self.sent.len() {
            QueueView { taken: self.taken + 1, ..self }
        } else {
            self
        }
    }

    /// The queue after its sending end is dropped.
    pub open spec fn close(self) -> Self {
        QueueView { open: false, ..self }
    }
}

/// A first-in, first-out queue of jobs with a sending end that can be closed.
pub struct WorkQueue<J> {
    pending: VecDeque<J>,
    open: bool,
    sent: Ghost<Seq<J>>,
    taken: Ghost<nat>,
}

impl<J> View for WorkQueue<J> {
    type V = QueueView<J>;

    closed spec fn view(&self) -> QueueView<J> {
        QueueView { sent: self.sent@, taken: self.taken@, open: self.open }
    }
}

impl<J> WorkQueue<J> {
    /// The jobs held are exactly those sent and not yet handed out.
    pub closed spec fn well_formed(&self) -> bool {
        &&& self.taken@ <= self.sent@.len()
        &&& self.pending@ == self.sent@.skip(self.taken@ as int)
    }

    /// A well-formed queue has a well-formed history and holds its pending
    /// jobs.
    pub proof fn lemma_well_formed(&self)
        requires
            self.well_formed(),
        ensures
            self@.wf(),
    {
    }

    /// Makes an open queue with no jobs.
    pub fn new() -> (queue: Self)
        ensures
            queue.well_formed(),
            queue@ == QueueView::<J>::fresh(),
    {
        let queue = WorkQueue {
            pending: VecDeque::new(),
            open: true,
            sent: Ghost(Seq::empty()),
            taken: Ghost(0),
        };
        assert(queue.pending@ =~= queue.sent@.skip(0));
        queue
    }

    /// Whether jobs can still be sent.
    pub fn is_open(&self) -> (open: bool)
        ensures
            open == self@.open,
    {
        self.open
    }

    /// How many jobs wait to be handed out.
    pub fn len(&self) -> (n: usize)
        requires
            self.well_formed(),
        ensures
            n == self@.pending().len(),
    {
        self.pending.len()
    }

    /// Whether no job waits to be handed out.
    pub fn is_empty(&self) -> (empty: bool)
        requires
            self.well_formed(),
        ensures
            empty == (self@.pending().len() == 0),
    {
        self.pending.len() == 0
    }

    /// Puts `job` behind every job sent before it.
    pub fn send(&mut self, job: J)
        requires
            old(self).well_formed(),
            old(self)@.open,
        ensures
            final(self).well_formed(),
            final(self)@ == old(self)@.send(job),
    {
        self.pending.push_back(job);
        self.sent = Ghost(self.sent@.push(job));
        assert(self.pending@ =~= self.sent@.skip(self.taken@ as int));
    }

    /// Hands out the oldest pending job. Where none is pending, says whether
    /// more may come.
    pub fn recv(&mut self) -> (received: Received<J>)
        requires
            old(self).well_formed(),
        ensures
            final(self).well_formed(),
            final(self)@ == old(self)@.recv(),
            received == old(self)@.next(),
    {
        match self.pending.pop_front() {
            Some(job) => {
                self.taken = Ghost(self.taken@ + 1);
                assert(self.pending@ =~= self.sent@.skip(self.taken@ as int));
                Received::Job(job)
            },
            None => {
                if self.open {
                    Received::Empty
                } else {
                    Received::Disconnected
                }
            },
        }
    }

    /// Drops the sending end. The backlog stays and can still be handed out.
    pub fn close(&mut self)
        requires
            old(self).well_formed(),
        ensures
            final(self).well_formed(),
            final(self)@ == old(self)@.close(),
    {
        self.open = false;
    }
}

} // verus!
