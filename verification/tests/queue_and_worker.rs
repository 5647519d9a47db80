use worker_pool::queue::{Received, WorkQueue};
use worker_pool::worker::{Worker, WorkerState};

#[test]
fn queue_hands_jobs_out_first_in_first_out() {
    let mut queue: WorkQueue<&str> = WorkQueue::new();
    assert!(queue.is_open());
    assert!(queue.is_empty());
    queue.send("a");
    queue.send("b");
    queue.send("c");
    assert_eq!(queue.len(), 3);
    assert_eq!(queue.recv(), Received::Job("a"));
    queue.send("d");
    assert_eq!(queue.recv(), Received::Job("b"));
    assert_eq!(queue.recv(), Received::Job("c"));
    assert_eq!(queue.recv(), Received::Job("d"));
    assert_eq!(queue.len(), 0);
    assert!(queue.is_empty());
}

#[test]
fn an_open_empty_queue_says_empty() {
    let mut queue: WorkQueue<u8> = WorkQueue::new();
    assert_eq!(queue.recv(), Received::Empty);
    assert_eq!(queue.recv(), Received::Empty);
    assert!(queue.is_open());
    queue.send(1);
    assert_eq!(queue.recv(), Received::Job(1));
    assert_eq!(queue.recv(), Received::Empty);
}

#[test]
fn a_closed_queue_drains_and_then_disconnects() {
    let mut queue: WorkQueue<u8> = WorkQueue::new();
    queue.send(1);
    queue.send(2);
    queue.close();
    assert!(!queue.is_open());
    assert_eq!(queue.len(), 2);
    assert_eq!(queue.recv(), Received::Job(1));
    assert_eq!(queue.recv(), Received::Job(2));
    assert_eq!(queue.recv(), Received::Disconnected);
    assert_eq!(queue.recv(), Received::Disconnected);
    queue.close();
    assert!(!queue.is_open());
}

#[test]
fn a_worker_starts_running_with_its_thread() {
    let worker = Worker::new(3);
    assert_eq!(worker.id(), 3);
    assert_eq!(worker.state(), WorkerState::Running);
    assert!(worker.is_running());
    assert!(worker.has_thread());
}

#[test]
fn a_worker_terminates_for_good() {
    let mut worker = Worker::new(0);
    worker.terminate();
    assert_eq!(worker.state(), WorkerState::Terminated);
    assert!(!worker.is_running());
    assert!(worker.has_thread());
    assert_eq!(worker.id(), 0);
    worker.terminate();
    assert!(!worker.is_running());
}

#[test]
fn a_thread_is_taken_once() {
    let mut worker = Worker::new(5);
    assert!(worker.take_thread());
    assert!(!worker.has_thread());
    assert!(!worker.take_thread());
    assert!(worker.is_running());
    assert_eq!(worker.id(), 5);
}
