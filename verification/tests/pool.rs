use workpool::pool::Message;
use workpool::pool::ThreadPool;
use workpool::pool::WorkerState;

#[test]
fn build_pool_invalid_size() {
    assert!(ThreadPool::build(0).is_err());
}

#[test]
fn build_pool_owns_exactly_size_workers() {
    for size in 1..6 {
        let pool = ThreadPool::build(size).unwrap();
        assert_eq!(size, pool.workers.len());
        assert!(pool.workers.iter().all(|w| *w == WorkerState::Idle));
        assert!(pool.sender_open);
    }
}

#[test]
fn new_pool_owns_exactly_size_workers() {
    let pool = ThreadPool::new(3);
    assert_eq!(3, pool.workers.len());
}

#[test]
fn jobs_delivered_in_submission_order_to_single_worker() {
    let mut pool = ThreadPool::new(1);
    let a = pool.execute();
    let b = pool.execute();
    assert_eq!(0, a);
    assert_eq!(1, b);
    // The single worker must finish the first job before it can take the
    // second: delivery is in submission order and never preempted.
    assert_eq!(Message::Job(0), pool.worker_recv(0));
    pool.worker_finish(0);
    assert_eq!(Message::Job(1), pool.worker_recv(0));
    pool.worker_finish(0);
    assert_eq!(vec![0, 1], pool.completed);
}

#[test]
fn ten_jobs_on_four_workers_each_run_once() {
    let mut pool = ThreadPool::new(4);
    for _ in 0..10 {
        pool.execute();
    }
    // Keep all four workers busy at once; never more than four in flight.
    let mut done = 0;
    while done < 10 {
        let mut busy = 0;
        for wid in 0..4 {
            if !pool.queue.is_empty() {
                match pool.worker_recv(wid) {
                    Message::Job(_) => busy += 1,
                    Message::Closed => unreachable!(),
                }
            }
        }
        assert!(busy <= 4);
        for wid in 0..4 {
            if matches!(pool.workers[wid], WorkerState::Busy(_)) {
                pool.worker_finish(wid);
                done += 1;
            }
        }
    }
    let mut completed = pool.completed.clone();
    completed.sort();
    assert_eq!((0..10).collect::<Vec<u64>>(), completed);
}

#[test]
fn shutdown_runs_all_queued_jobs() {
    let mut pool = ThreadPool::new(2);
    for _ in 0..5 {
        pool.execute();
    }
    pool.shutdown();
    assert_eq!(vec![0, 1, 2, 3, 4], pool.completed);
    assert!(pool.queue.is_empty());
    assert!(pool.workers.iter().all(|w| *w == WorkerState::Stopped));
}

#[test]
fn shutdown_twice_changes_nothing() {
    let mut pool = ThreadPool::new(3);
    pool.execute();
    pool.shutdown();
    let workers = pool.workers.clone();
    let completed = pool.completed.clone();
    pool.shutdown();
    assert_eq!(workers, pool.workers);
    assert_eq!(completed, pool.completed);
    assert!(!pool.sender_open);
}

#[test]
fn empty_pool_shuts_down_immediately() {
    let mut pool = ThreadPool::new(4);
    pool.shutdown();
    assert!(pool.completed.is_empty());
    assert!(pool.workers.iter().all(|w| *w == WorkerState::Stopped));
}

#[test]
fn creation_error_message() {
    match ThreadPool::build(0) {
        Err(err) => assert_eq!("Thread pool creation error", err.message()),
        Ok(_) => panic!("a pool of size zero must be refused"),
    }
}
