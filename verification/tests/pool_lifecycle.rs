use std::cell::RefCell;
use std::rc::Rc;

use worker_pool::pool::ThreadPool;
use worker_pool::queue::Received;

type Job = Box<dyn FnOnce()>;

/// Lets every running worker ask in turn, starting with worker `first`, and
/// runs what it is handed, until every worker's loop has ended. Returns the
/// number of jobs run.
fn run_workers(pool: &mut ThreadPool<Job>, first: usize) -> usize {
    let mut ran = 0;
    let mut worker = first % pool.size();
    while !pool.is_finished() {
        if pool.is_running(worker) {
            match pool.receive(worker) {
                Received::Job(job) => {
                    job();
                    ran += 1;
                }
                Received::Empty => panic!("a closed pool told worker {} to wait", worker),
                Received::Disconnected => {}
            }
        }
        worker = (worker + 1) % pool.size();
    }
    ran
}

fn appending(log: &Rc<RefCell<Vec<usize>>>, value: usize) -> Job {
    let log = Rc::clone(log);
    Box::new(move || log.borrow_mut().push(value))
}

#[test]
fn four_workers_run_a_hundred_jobs() {
    let log = Rc::new(RefCell::new(Vec::new()));
    let mut pool: ThreadPool<Job> = ThreadPool::new(4);
    for index in 0..100 {
        pool.execute(appending(&log, index));
    }
    let ids = pool.shutdown();
    assert_eq!(ids, vec![0, 1, 2, 3]);
    assert_eq!(run_workers(&mut pool, 0), 100);
    let mut seen = log.borrow().clone();
    assert_eq!(seen.len(), 100);
    seen.sort();
    seen.dedup();
    assert_eq!(seen, (0..100).collect::<Vec<usize>>());
}

#[test]
fn one_worker_runs_jobs_in_submission_order() {
    let log = Rc::new(RefCell::new(Vec::new()));
    let mut pool: ThreadPool<Job> = ThreadPool::new(1);
    for value in [1, 2, 3] {
        pool.execute(appending(&log, value));
    }
    assert_eq!(pool.shutdown(), vec![0]);
    assert_eq!(run_workers(&mut pool, 0), 3);
    assert_eq!(*log.borrow(), vec![1, 2, 3]);
}

#[test]
fn every_submitted_job_runs_once() {
    for size in 1..=6 {
        for jobs in [0usize, 1, 2, 5, 17, 64] {
            for first in 0..size {
                let counter = Rc::new(RefCell::new(0usize));
                let mut pool: ThreadPool<Job> = ThreadPool::new(size);
                for _ in 0..jobs {
                    let counter = Rc::clone(&counter);
                    pool.execute(Box::new(move || *counter.borrow_mut() += 1));
                }
                pool.shutdown();
                assert_eq!(run_workers(&mut pool, first), jobs);
                assert_eq!(*counter.borrow(), jobs);
                assert!(pool.is_finished());
                assert_eq!(pool.pending_jobs(), 0);
            }
        }
    }
}

#[test]
fn jobs_are_handed_out_in_submission_order() {
    let mut pool: ThreadPool<u32> = ThreadPool::new(3);
    for job in 10..20 {
        pool.execute(job);
    }
    let askers = [2usize, 0, 0, 1, 2, 1, 1, 0, 2, 0];
    let mut expected = 10;
    for worker in askers {
        assert_eq!(pool.receive(worker), Received::Job(expected));
        expected += 1;
    }
    assert_eq!(pool.receive(1), Received::Empty);
}

#[test]
fn an_open_pool_without_jobs_tells_workers_to_wait() {
    let mut pool: ThreadPool<u32> = ThreadPool::new(2);
    assert_eq!(pool.receive(0), Received::Empty);
    assert_eq!(pool.receive(1), Received::Empty);
    assert_eq!(pool.receive(0), Received::Empty);
    assert!(pool.is_running(0));
    assert!(pool.is_running(1));
    pool.execute(7);
    assert_eq!(pool.pending_jobs(), 1);
    assert_eq!(pool.receive(1), Received::Job(7));
    assert_eq!(pool.pending_jobs(), 0);
    assert_eq!(pool.receive(1), Received::Empty);
}

#[test]
fn shutdown_without_jobs_ends_every_worker_at_once() {
    for size in 1..=5 {
        let mut pool: ThreadPool<Job> = ThreadPool::new(size);
        assert_eq!(pool.shutdown(), (0..size).collect::<Vec<usize>>());
        for worker in 0..size {
            assert!(pool.is_running(worker));
            assert!(matches!(pool.receive(worker), Received::Disconnected));
            assert!(!pool.is_running(worker));
        }
        assert!(pool.is_finished());
    }
}

#[test]
fn shutdown_lets_the_backlog_drain() {
    let mut pool: ThreadPool<u32> = ThreadPool::new(2);
    for job in 0..5 {
        pool.execute(job);
    }
    assert_eq!(pool.receive(0), Received::Job(0));
    assert_eq!(pool.shutdown(), vec![0, 1]);
    assert!(!pool.is_open());
    assert_eq!(pool.pending_jobs(), 4);
    assert!(!pool.is_finished());
    assert_eq!(pool.receive(1), Received::Job(1));
    assert_eq!(pool.receive(1), Received::Job(2));
    assert_eq!(pool.receive(0), Received::Job(3));
    assert_eq!(pool.receive(1), Received::Job(4));
    assert!(pool.is_running(0) && pool.is_running(1));
    assert_eq!(pool.receive(0), Received::Disconnected);
    assert!(!pool.is_running(0));
    assert!(!pool.is_finished());
    assert_eq!(pool.receive(1), Received::Disconnected);
    assert!(pool.is_finished());
    assert_eq!(pool.pending_jobs(), 0);
}

#[test]
fn a_worker_whose_loop_has_ended_stays_so() {
    let mut pool: ThreadPool<u32> = ThreadPool::new(2);
    pool.shutdown();
    assert_eq!(pool.receive(0), Received::Disconnected);
    assert_eq!(pool.receive(0), Received::Disconnected);
    assert!(!pool.is_running(0));
    assert!(pool.is_running(1));
    assert_eq!(pool.shutdown(), Vec::<usize>::new());
    assert!(!pool.is_running(0));
    assert!(pool.is_running(1));
}

#[test]
fn a_new_pool_is_open_with_running_workers() {
    let pool: ThreadPool<u32> = ThreadPool::new(3);
    assert_eq!(pool.size(), 3);
    assert!(pool.is_open());
    assert_eq!(pool.pending_jobs(), 0);
    assert!(!pool.is_finished());
    for worker in 0..3 {
        assert!(pool.is_running(worker));
        assert!(pool.has_thread(worker));
    }
}

#[test]
fn shutdown_takes_every_thread_once() {
    let mut pool: ThreadPool<u32> = ThreadPool::new(3);
    pool.execute(1);
    assert_eq!(pool.shutdown(), vec![0, 1, 2]);
    assert!(!pool.is_open());
    for worker in 0..3 {
        assert!(!pool.has_thread(worker));
        assert!(pool.is_running(worker));
    }
    assert_eq!(pool.pending_jobs(), 1);
    assert_eq!(pool.shutdown(), Vec::<usize>::new());
    assert_eq!(pool.pending_jobs(), 1);
}

#[test]
fn with_several_workers_completion_order_may_differ() {
    // Worker 0 takes the first job and is slow; worker 1 takes and completes
    // the next two before worker 0 completes its own.
    let log = Rc::new(RefCell::new(Vec::new()));
    let mut pool: ThreadPool<Job> = ThreadPool::new(2);
    for index in 0..3 {
        pool.execute(appending(&log, index));
    }
    pool.shutdown();
    let slow = match pool.receive(0) {
        Received::Job(job) => job,
        _ => panic!("worker 0 was handed no job"),
    };
    for _ in 0..2 {
        match pool.receive(1) {
            Received::Job(job) => job(),
            _ => panic!("worker 1 was handed no job"),
        }
    }
    slow();
    assert!(matches!(pool.receive(0), Received::Disconnected));
    assert!(matches!(pool.receive(1), Received::Disconnected));
    assert!(pool.is_finished());
    assert_eq!(*log.borrow(), vec![1, 2, 0]);
    let mut sorted = log.borrow().clone();
    sorted.sort();
    assert_eq!(sorted, vec![0, 1, 2]);
}
