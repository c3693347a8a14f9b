//! A model of a fixed-size worker thread pool.
//!
//! Jobs are identified by the order in which they were submitted: the `k`-th
//! call to `execute` enqueues job id `k`. The pool owns a FIFO queue of
//! pending job ids and one state per worker. Workers pull the front of the
//! queue one at a time, run the job to completion, and stop once the queue is
//! closed and drained. `shutdown` closes the queue, lets every in-flight and
//! queued job finish, and stops every worker in id order.

use vstd::prelude::*;
use vstd::string::StringExecFns;

verus! {

/// Error returned by `ThreadPool::build` when the requested size is zero.
#[derive(Debug, PartialEq, Eq, Structural)]
pub struct PoolCreationError;

impl PoolCreationError {
    /// The text the error shows.
    pub fn message(&self) -> (r: String)
        ensures
            r@ == "Thread pool creation error"@,
    {
        String::from_str("Thread pool creation error")
    }
}

/// The lifecycle of one worker: waiting for a job, running one, or terminated.
#[derive(Debug, PartialEq, Eq, Structural, Clone, Copy)]
pub enum WorkerState {
    Idle,
    Busy(u64),
    Stopped,
}

/// What a worker's blocking receive yields: the next job, or the signal that
/// the queue is closed and empty so the worker must stop.
#[derive(Debug, PartialEq, Eq, Structural, Clone, Copy)]
pub enum Message {
    Job(u64),
    Closed,
}

/// How many times `v` occurs in `s`.
pub open spec fn count_in(s: Seq<u64>, v: u64) -> nat
    decreases s.len(),
{
    if s.len() == 0 {
        0
    } else {
        count_in(s.drop_last(), v) + (if s.last() == v {
            1nat
        } else {
            0nat
        })
    }
}

/// The job of one worker state, as a sequence of zero or one ids.
pub open spec fn busy_of(w: WorkerState) -> Seq<u64> {
    match w {
        WorkerState::Busy(j) => seq![j],
        _ => Seq::empty(),
    }
}

/// The ids of the jobs currently running, in worker id order.
pub open spec fn busy_seq(ws: Seq<WorkerState>) -> Seq<u64>
    decreases ws.len(),
{
    if ws.len() == 0 {
        Seq::empty()
    } else {
        busy_seq(ws.drop_last()) + busy_of(ws.last())
    }
}

/// The ids `0, 1, ..., n - 1` in order: every job delivered so far.
pub open spec fn ids_below(n: u64) -> Seq<u64> {
    Seq::new(n as nat, |i: int| i as u64)
}

pub proof fn lemma_count_concat(a: Seq<u64>, b: Seq<u64>, v: u64)
    ensures
        count_in(a + b, v) == count_in(a, v) + count_in(b, v),
    decreases b.len(),
{
    if b.len() == 0 {
        assert(a + b =~= a);
    } else {
        assert((a + b).drop_last() =~= a + b.drop_last());
        lemma_count_concat(a, b.drop_last(), v);
    }
}

pub proof fn lemma_busy_concat(a: Seq<WorkerState>, b: Seq<WorkerState>)
    ensures
        busy_seq(a + b) == busy_seq(a) + busy_seq(b),
    decreases b.len(),
{
    if b.len() == 0 {
        assert(a + b =~= a);
        assert(busy_seq(a) + busy_seq(b) =~= busy_seq(a));
    } else {
        assert((a + b).drop_last() =~= a + b.drop_last());
        lemma_busy_concat(a, b.drop_last());
        assert(busy_seq(a) + busy_seq(b) =~= busy_seq(a) + busy_seq(b.drop_last()) + busy_of(
            b.last(),
        ));
    }
}

/// A sequence of worker states, split at position `i`.
pub proof fn lemma_busy_split(ws: Seq<WorkerState>, i: int)
    requires
        0 <= i < ws.len(),
    ensures
        busy_seq(ws) == busy_seq(ws.take(i)) + busy_of(ws[i]) + busy_seq(ws.skip(i + 1)),
{
    assert(ws =~= ws.take(i) + seq![ws[i]] + ws.skip(i + 1));
    lemma_busy_concat(ws.take(i) + seq![ws[i]], ws.skip(i + 1));
    lemma_busy_concat(ws.take(i), seq![ws[i]]);
    assert(seq![ws[i]].drop_last() =~= Seq::<WorkerState>::empty());
    assert(busy_seq(Seq::<WorkerState>::empty()) =~= Seq::<u64>::empty());
    assert(busy_seq(seq![ws[i]]) =~= busy_of(ws[i]));
}

pub proof fn lemma_count_ids_below(n: u64, v: u64)
    ensures
        count_in(ids_below(n), v) == if v < n {
            1nat
        } else {
            0nat
        },
    decreases n,
{
    if n > 0 {
        assert(ids_below(n).drop_last() =~= ids_below((n - 1) as u64));
        lemma_count_ids_below((n - 1) as u64, v);
    }
}

pub proof fn lemma_busy_len_bounded(ws: Seq<WorkerState>)
    ensures
        busy_seq(ws).len() <= ws.len(),
    decreases ws.len(),
{
    if ws.len() > 0 {
        lemma_busy_len_bounded(ws.drop_last());
    }
}

/// The orchestrator: a bounded set of workers, the FIFO queue of pending job
/// ids, the open/closed state of the queue's sending side, and a record of
/// which jobs have run.
pub struct ThreadPool {
    /// One state per worker; the index is the worker's id.
    pub workers: Vec<WorkerState>,
    /// Ids of submitted jobs not yet delivered to a worker, front first.
    pub queue: Vec<u64>,
    /// While true, the sending handle exists and jobs may be submitted.
    pub sender_open: bool,
    /// Number of jobs submitted so far; also the id of the next submission.
    pub submitted: u64,
    /// Number of jobs delivered to workers; delivery follows submission order.
    pub delivered: u64,
    /// Ids of jobs that ran to completion, in completion order.
    pub completed: Vec<u64>,
}

impl ThreadPool {
    /// The pool's invariant: at least one worker, the queue holds exactly the
    /// submitted-but-undelivered ids in submission order, and every delivered
    /// id is either completed or running on exactly one worker, exactly once.
    /// A worker stops only on the closed signal, so while the sending side is
    /// open no worker has stopped, and since the signal only comes once the
    /// queue is closed and drained, a stopped worker means an empty queue.
    pub open spec fn wf(self) -> bool {
        &&& self.workers@.len() >= 1
        &&& self.delivered <= self.submitted
        &&& self.queue@ == Seq::new(
            (self.submitted - self.delivered) as nat,
            |i: int| (self.delivered + i) as u64,
        )
        &&& self.sender_open ==> forall|i: int|
            0 <= i < self.workers@.len() ==> self.workers@[i] != WorkerState::Stopped
        &&& (exists|i: int|
            0 <= i < self.workers@.len() && self.workers@[i] == WorkerState::Stopped)
            ==> self.queue@.len() == 0
        &&& forall|v: u64|
            count_in(self.completed@ + busy_seq(self.workers@), v) == count_in(
                ids_below(self.delivered),
                v,
            )
    }

    /// How many jobs are in flight: being executed by some worker right now.
    pub open spec fn in_flight(self) -> nat {
        busy_seq(self.workers@).len()
    }

    /// All workers have terminated.
    pub open spec fn all_stopped(self) -> bool {
        forall|i: int|
            0 <= i < self.workers@.len() ==> self.workers@[i] == WorkerState::Stopped
    }

    /// Creates a pool of `size` workers, or reports the one configuration
    /// error: a requested size of zero. On success every worker is idle, the
    /// queue is empty and open, and nothing has been submitted.
    pub fn build(size: usize) -> (r: Result<ThreadPool, PoolCreationError>)
        ensures
            size == 0 ==> r == Result::<ThreadPool, PoolCreationError>::Err(PoolCreationError),
            size > 0 ==> (r matches Result::Ok(p) && p.is_fresh(size)),
    {
        if size == 0 {
            return Err(PoolCreationError);
        }
        let mut workers: Vec<WorkerState> = Vec::new();
        for id in 0..size
            invariant
                workers@ =~= Seq::new(id as nat, |i: int| WorkerState::Idle),
        {
            workers.push(WorkerState::Idle);
            assert(workers@ =~= Seq::new((id + 1) as nat, |i: int| WorkerState::Idle));
        }
        let pool = ThreadPool {
            workers,
            queue: Vec::new(),
            sender_open: true,
            submitted: 0,
            delivered: 0,
            completed: Vec::new(),
        };
        proof {
            assert(pool.queue@ =~= Seq::new(
                (pool.submitted - pool.delivered) as nat,
                |i: int| (pool.delivered + i) as u64,
            ));
            assert forall|v: u64|
                count_in(pool.completed@ + busy_seq(pool.workers@), v) == count_in(
                    ids_below(0),
                    v,
                ) by {
                lemma_busy_all_idle(pool.workers@);
                assert(pool.completed@ + busy_seq(pool.workers@) =~= Seq::<u64>::empty());
                assert(ids_below(0) =~= Seq::<u64>::empty());
            }
        }
        Ok(pool)
    }

    /// A freshly built pool of `size` workers.
    pub open spec fn is_fresh(self, size: usize) -> bool {
        &&& self.wf()
        &&& self.workers@.len() == size
        &&& forall|i: int| 0 <= i < size ==> self.workers@[i] == WorkerState::Idle
        &&& self.queue@.len() == 0
        &&& self.sender_open
        &&& self.submitted == 0
        &&& self.delivered == 0
        &&& self.completed@.len() == 0
    }

    /// The strict constructor: same as `build`, but a size of zero is a
    /// programmer error, ruled out by the precondition rather than reported.
    pub fn new(size: usize) -> (p: ThreadPool)
        requires
            size > 0,
        ensures
            p.is_fresh(size),
    {
        match Self::build(size) {
            Ok(p) => p,
            Err(_) => unreached(),
        }
    }

    /// Submits one job: its id, the submission count so far, goes to the tail
    /// of the queue. Requires the sending side to still be open, which the
    /// pool only gives up during shutdown.
    pub fn execute(&mut self) -> (id: u64)
        requires
            old(self).wf(),
            old(self).sender_open,
            old(self).submitted < u64::MAX,
        ensures
            final(self).wf(),
            id == old(self).submitted,
            final(self).submitted == old(self).submitted + 1,
            final(self).queue@ == old(self).queue@.push(id),
            final(self).workers == old(self).workers,
            final(self).sender_open,
            final(self).delivered == old(self).delivered,
            final(self).completed == old(self).completed,
    {
        let id = self.submitted;
        self.queue.push(id);
        self.submitted = self.submitted + 1;
        proof {
            assert(self.queue@ =~= Seq::new(
                (self.submitted - self.delivered) as nat,
                |i: int| (self.delivered + i) as u64,
            ));
        }
        id
    }

    /// One blocking receive by worker `wid`, in the two cases where it
    /// returns: a job is pending, or the queue is closed and empty. A pending
    /// job is handed out in submission order and the worker turns busy; the
    /// closed signal stops the worker. (With the queue empty but still open
    /// the call would block, so that case is excluded.)
    pub fn worker_recv(&mut self, wid: usize) -> (m: Message)
        requires
            old(self).wf(),
            wid < old(self).workers@.len(),
            old(self).workers@[wid as int] == WorkerState::Idle,
            old(self).queue@.len() > 0 || !old(self).sender_open,
        ensures
            final(self).wf(),
            old(self).queue@.len() > 0 ==> {
                &&& m == Message::Job(old(self).delivered)
                &&& final(self).workers@ == old(self).workers@.update(
                    wid as int,
                    WorkerState::Busy(old(self).delivered),
                )
                &&& final(self).delivered == old(self).delivered + 1
                &&& final(self).queue@ == old(self).queue@.drop_first()
            },
            old(self).queue@.len() == 0 ==> {
                &&& m == Message::Closed
                &&& final(self).workers@ == old(self).workers@.update(
                    wid as int,
                    WorkerState::Stopped,
                )
                &&& final(self).delivered == old(self).delivered
                &&& final(self).queue@ == old(self).queue@
            },
            final(self).submitted == old(self).submitted,
            final(self).sender_open == old(self).sender_open,
            final(self).completed == old(self).completed,
            final(self).workers@.len() == old(self).workers@.len(),
    {
        if self.queue.len() > 0 {
            let j = self.queue.remove(0);
            let ghost ws0 = self.workers@;
            self.workers[wid] = WorkerState::Busy(j);
            self.delivered = self.delivered + 1;
            proof {
                assert(self.queue@ =~= Seq::new(
                    (self.submitted - self.delivered) as nat,
                    |i: int| (self.delivered + i) as u64,
                ));
                lemma_swap_busy(self.completed@, ws0, wid as int, WorkerState::Busy(j));
                assert forall|v: u64|
                    count_in(self.completed@ + busy_seq(self.workers@), v) == count_in(
                        ids_below(self.delivered),
                        v,
                    ) by {
                    lemma_count_ids_below((self.delivered - 1) as u64, v);
                    lemma_count_ids_below(self.delivered, v);
                    assert(ids_below(self.delivered).drop_last() =~= ids_below(
                        (self.delivered - 1) as u64,
                    ));
                    assert(seq![j].drop_last() =~= Seq::<u64>::empty());
                    assert(count_in(Seq::<u64>::empty(), v) == 0);
                    assert(count_in(busy_of(WorkerState::Busy(j)), v) == if v == j {
                        1nat
                    } else {
                        0nat
                    });
                    assert(count_in(busy_of(ws0[wid as int]), v) == 0);
                }
            }
            Message::Job(j)
        } else {
            let ghost ws0 = self.workers@;
            self.workers[wid] = WorkerState::Stopped;
            proof {
                lemma_swap_busy(self.completed@, ws0, wid as int, WorkerState::Stopped);
            }
            Message::Closed
        }
    }

    /// Worker `wid` finished the job it was running: the job's id moves to
    /// the completion record and the worker is idle again.
    pub fn worker_finish(&mut self, wid: usize)
        requires
            old(self).wf(),
            wid < old(self).workers@.len(),
            old(self).workers@[wid as int] is Busy,
        ensures
            final(self).wf(),
            final(self).completed@ == old(self).completed@.push(
                old(self).workers@[wid as int]->Busy_0,
            ),
            final(self).workers@ == old(self).workers@.update(wid as int, WorkerState::Idle),
            final(self).queue == old(self).queue,
            final(self).sender_open == old(self).sender_open,
            final(self).submitted == old(self).submitted,
            final(self).delivered == old(self).delivered,
    {
        let j = match self.workers[wid] {
            WorkerState::Busy(j) => j,
            _ => unreached(),
        };
        let ghost ws0 = self.workers@;
        let ghost c0 = self.completed@;
        self.workers[wid] = WorkerState::Idle;
        self.completed.push(j);
        proof {
            assert forall|v: u64|
                count_in(self.completed@ + busy_seq(self.workers@), v) == count_in(
                    ids_below(self.delivered),
                    v,
                ) by {
                lemma_busy_split(ws0, wid as int);
                lemma_busy_split(ws0.update(wid as int, WorkerState::Idle), wid as int);
                assert(ws0.update(wid as int, WorkerState::Idle).take(wid as int) =~= ws0.take(
                    wid as int,
                ));
                assert(ws0.update(wid as int, WorkerState::Idle).skip(wid as int + 1) =~= ws0.skip(
                    wid as int + 1,
                ));
                let b0 = busy_seq(ws0);
                let b1 = busy_seq(ws0.update(wid as int, WorkerState::Idle));
                lemma_count_concat(busy_seq(ws0.take(wid as int)), busy_of(ws0[wid as int]), v);
                lemma_count_concat(
                    busy_seq(ws0.take(wid as int)) + busy_of(ws0[wid as int]),
                    busy_seq(ws0.skip(wid as int + 1)),
                    v,
                );
                lemma_count_concat(busy_seq(ws0.take(wid as int)), Seq::<u64>::empty(), v);
                lemma_count_concat(
                    busy_seq(ws0.take(wid as int)) + Seq::<u64>::empty(),
                    busy_seq(ws0.skip(wid as int + 1)),
                    v,
                );
                lemma_count_concat(c0, b0, v);
                lemma_count_concat(c0.push(j), b1, v);
                assert(c0.push(j).drop_last() =~= c0);
                assert(seq![j].drop_last() =~= Seq::<u64>::empty());
                assert(count_in(seq![j], v) == if j == v { 1nat } else { 0nat });
            }
        }
    }

    /// Orderly disposal, as runs when the pool is dropped: close the sending
    /// side, let every in-flight job finish, let the workers drain every job
    /// still queued, then stop each worker in id order. No submitted job is
    /// lost: the completion record gains exactly the in-flight ids (in worker
    /// id order) followed by the queued ids (in submission order). Calling it
    /// on an already shut pool changes nothing.
    pub fn shutdown(&mut self)
        requires
            old(self).wf(),
        ensures
            final(self).wf(),
            !final(self).sender_open,
            final(self).all_stopped(),
            final(self).queue@.len() == 0,
            final(self).workers@.len() == old(self).workers@.len(),
            final(self).submitted == old(self).submitted,
            final(self).delivered == old(self).submitted,
            final(self).completed@ == old(self).completed@ + busy_seq(old(self).workers@) + old(
                self,
            ).queue@,
    {
        self.sender_open = false;
        let ghost ws0 = self.workers@;
        let ghost c0 = self.completed@;
        let ghost q0 = self.queue@;

        // Wait for every in-flight job to finish, in worker id order. A
        // worker that had already stopped stays stopped.
        let n = self.workers.len();
        for wid in 0..n
            invariant
                self.wf(),
                !self.sender_open,
                self.workers@.len() == n,
                n == ws0.len(),
                self.submitted == old(self).submitted,
                self.delivered == old(self).delivered,
                self.queue@ == q0,
                self.completed@ == c0 + busy_seq(ws0.take(wid as int)),
                forall|i: int|
                    0 <= i < wid ==> self.workers@[i] == (if ws0[i] is Busy {
                        WorkerState::Idle
                    } else {
                        ws0[i]
                    }),
                forall|i: int| wid <= i < n ==> self.workers@[i] == ws0[i],
        {
            proof {
                assert(ws0.take(wid + 1).drop_last() =~= ws0.take(wid as int));
            }
            match self.workers[wid] {
                WorkerState::Busy(_) => {
                    self.worker_finish(wid);
                    proof {
                        assert(self.completed@ =~= c0 + busy_seq(ws0.take(wid + 1)));
                    }
                },
                _ => {
                    proof {
                        assert(self.completed@ =~= c0 + busy_seq(ws0.take(wid + 1)));
                    }
                },
            }
        }
        proof {
            assert(ws0.take(n as int) =~= ws0);
        }

        // The workers drain the queue: each queued job is received and run.
        // A nonempty queue means no worker has stopped, so after the pass
        // above every worker is idle and worker 0 can take the front job.
        let ghost c1 = self.completed@;
        let ghost d1 = self.delivered;
        while self.queue.len() > 0
            invariant
                self.wf(),
                !self.sender_open,
                self.workers@.len() == n,
                1 <= n,
                self.submitted == old(self).submitted,
                d1 <= self.delivered <= self.submitted,
                self.completed@ == c1 + q0.take((self.delivered - d1) as int),
                q0 == Seq::new((self.submitted - d1) as nat, |i: int| (d1 + i) as u64),
                forall|i: int|
                    0 <= i < n ==> (self.workers@[i] == WorkerState::Idle || self.workers@[i]
                        == WorkerState::Stopped),
                self.queue@.len() > 0 ==> forall|i: int|
                    0 <= i < n ==> self.workers@[i] == WorkerState::Idle,
            decreases self.queue@.len(),
        {
            self.worker_recv(0);
            self.worker_finish(0);
            proof {
                assert(q0.take((self.delivered - d1) as int).drop_last() =~= q0.take(
                    (self.delivered - d1 - 1) as int,
                ));
                assert(self.completed@ =~= c1 + q0.take((self.delivered - d1) as int));
            }
        }
        proof {
            assert(self.delivered == self.submitted);
            assert(q0.take((self.delivered - d1) as int) =~= q0);
            assert(self.completed@ =~= c0 + busy_seq(ws0) + q0);
        }

        // Join each worker's thread in id order; every receive now yields the
        // closed signal, so each remaining worker stops.
        for wid in 0..n
            invariant
                self.wf(),
                !self.sender_open,
                self.workers@.len() == n,
                self.submitted == old(self).submitted,
                self.delivered == self.submitted,
                self.queue@.len() == 0,
                self.completed@ == c0 + busy_seq(ws0) + q0,
                forall|i: int| 0 <= i < wid ==> self.workers@[i] == WorkerState::Stopped,
                forall|i: int|
                    wid <= i < n ==> (self.workers@[i] == WorkerState::Idle || self.workers@[i]
                        == WorkerState::Stopped),
        {
            match self.workers[wid] {
                WorkerState::Idle => {
                    self.worker_recv(wid);
                },
                _ => {},
            }
        }
    }

}

/// A pool whose workers are all idle has nothing in flight.
pub proof fn lemma_busy_all_idle(ws: Seq<WorkerState>)
    requires
        forall|i: int| 0 <= i < ws.len() ==> ws[i] == WorkerState::Idle,
    ensures
        busy_seq(ws) == Seq::<u64>::empty(),
    decreases ws.len(),
{
    if ws.len() > 0 {
        lemma_busy_all_idle(ws.drop_last());
        assert(busy_seq(ws) =~= Seq::<u64>::empty());
    }
}

/// Replacing one worker's state replaces its contribution to the in-flight
/// record and leaves every count over completed-plus-busy otherwise equal.
proof fn lemma_swap_busy(c: Seq<u64>, ws: Seq<WorkerState>, i: int, w: WorkerState)
    requires
        0 <= i < ws.len(),
    ensures
        forall|v: u64|
            count_in(c + busy_seq(ws.update(i, w)), v) == count_in(c + busy_seq(ws), v) + count_in(
                busy_of(w),
                v,
            ) - count_in(busy_of(ws[i]), v),
{
    assert forall|v: u64|
        count_in(c + busy_seq(ws.update(i, w)), v) == count_in(c + busy_seq(ws), v) + count_in(
            busy_of(w),
            v,
        ) - count_in(busy_of(ws[i]), v) by {
        lemma_busy_split(ws, i);
        lemma_busy_split(ws.update(i, w), i);
        assert(ws.update(i, w).take(i) =~= ws.take(i));
        assert(ws.update(i, w).skip(i + 1) =~= ws.skip(i + 1));
        lemma_count_concat(busy_seq(ws.take(i)), busy_of(ws[i]), v);
        lemma_count_concat(busy_seq(ws.take(i)) + busy_of(ws[i]), busy_seq(ws.skip(i + 1)), v);
        lemma_count_concat(busy_seq(ws.take(i)), busy_of(w), v);
        lemma_count_concat(busy_seq(ws.take(i)) + busy_of(w), busy_seq(ws.skip(i + 1)), v);
        lemma_count_concat(c, busy_seq(ws), v);
        lemma_count_concat(c, busy_seq(ws.update(i, w)), v);
    }
}

/// Every submitted job is handled exactly once: a delivered id is either in
/// the completion record or running on a worker, exactly once over the two
/// together; an undelivered id waits in the queue exactly once; and no id is
/// ever handled twice.
pub proof fn lemma_each_job_exactly_once(p: ThreadPool, v: u64)
    requires
        p.wf(),
    ensures
        v < p.delivered ==> count_in(p.completed@ + busy_seq(p.workers@), v) == 1 && count_in(
            p.queue@,
            v,
        ) == 0,
        p.delivered <= v < p.submitted ==> count_in(p.completed@ + busy_seq(p.workers@), v) == 0
            && count_in(p.queue@, v) == 1,
        p.submitted <= v ==> count_in(p.completed@ + busy_seq(p.workers@), v) == 0 && count_in(
            p.queue@,
            v,
        ) == 0,
{
    lemma_count_ids_below(p.delivered, v);
    lemma_count_queue(p.delivered, p.submitted, v);
    assert(p.queue@ =~= ids_between(p.delivered, p.submitted));
}

/// The ids `lo, lo + 1, ..., hi - 1` in order: the queue of a well-formed
/// pool that has delivered `lo` of `hi` submitted jobs.
pub open spec fn ids_between(lo: u64, hi: u64) -> Seq<u64>
    recommends
        lo <= hi,
{
    Seq::new((hi - lo) as nat, |i: int| (lo + i) as u64)
}

proof fn lemma_count_queue(lo: u64, hi: u64, v: u64)
    requires
        lo <= hi,
    ensures
        count_in(ids_between(lo, hi), v) == if lo <= v < hi {
            1nat
        } else {
            0nat
        },
    decreases hi - lo,
{
    if lo < hi {
        assert(ids_between(lo, hi).drop_last() =~= ids_between(lo, (hi - 1) as u64));
        lemma_count_queue(lo, (hi - 1) as u64, v);
    }
}

/// At most as many jobs are in flight as there are workers: each worker runs
/// at most one job at a time.
pub proof fn lemma_in_flight_bounded(p: ThreadPool)
    requires
        p.wf(),
    ensures
        p.in_flight() <= p.workers@.len(),
{
    lemma_busy_len_bounded(p.workers@);
}

} // verus!
