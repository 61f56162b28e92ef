//! The decisions of a scheduler that hands waiting jobs to idle
//! workers.

use std::collections::VecDeque;
use vstd::prelude::*;

verus! {

/// Whether a worker is free to take a job.
#[derive(Debug, Clone, Copy, PartialEq, Eq, Structural)]
pub enum WorkerState {
    Ready,
    Working,
}

/// The jobs that wait, oldest first, and the state of each worker.
pub struct Scheduler<F> {
    ready_jobs: VecDeque<F>,
    workers: Vec<(u32, WorkerState)>,
}

/// A scheduler as a value.
pub struct SchedulerView<F> {
    pub jobs: Seq<F>,
    pub workers: Seq<(u32, WorkerState)>,
}

/// How many of the first `k` workers are ready.
pub open spec fn ready_before(workers: Seq<(u32, WorkerState)>, k: int) -> int
    decreases k,
{
    if k <= 0 {
        0
    } else {
        ready_before(workers, k - 1) + if workers[k - 1].1 == WorkerState::Ready {
            1int
        } else {
            0int
        }
    }
}

/// Whether worker `w` gets a job: it is ready, and fewer ready workers
/// stand before it than jobs wait.
pub open spec fn served<F>(v: SchedulerView<F>, w: int) -> bool {
    v.workers[w].1 == WorkerState::Ready && ready_before(v.workers, w) < v.jobs.len()
}

/// The jobs handed to the first `k` workers, each with the worker that
/// gets it: the ready workers take the waiting jobs in order.
pub open spec fn handed<F>(v: SchedulerView<F>, k: int) -> Seq<(u32, F)>
    decreases k,
{
    if k <= 0 {
        Seq::empty()
    } else if served(v, k - 1) {
        handed(v, k - 1).push((v.workers[k - 1].0, v.jobs[ready_before(v.workers, k - 1)]))
    } else {
        handed(v, k - 1)
    }
}

impl<F> View for Scheduler<F> {
    type V = SchedulerView<F>;

    closed spec fn view(&self) -> SchedulerView<F> {
        SchedulerView { jobs: self.ready_jobs@, workers: self.workers@ }
    }
}

impl<F> Scheduler<F> {
    /// A scheduler for the workers `0..n_workers`, all ready, with no
    /// job waiting.
    pub fn new(n_workers: u32) -> (s: Self)
        ensures
            s@.jobs.len() == 0,
            s@.workers.len() == n_workers,
            forall|i: int| 0 <= i < n_workers ==> #[trigger] s@.workers[i] == (i as u32,
                WorkerState::Ready),
    {
        let mut workers: Vec<(u32, WorkerState)> = Vec::new();
        let mut id: u32 = 0;
        while id < n_workers
            invariant
                id <= n_workers,
                workers@.len() == id,
                forall|i: int| 0 <= i < id ==> #[trigger] workers@[i] == (i as u32,
                    WorkerState::Ready),
            decreases n_workers - id,
        {
            workers.push((id, WorkerState::Ready));
            id += 1;
        }
        Scheduler { ready_jobs: VecDeque::new(), workers }
    }

    /// A job has arrived: it waits behind the others.
    pub fn job_arrived(&mut self, job: F)
        ensures
            final(self)@.jobs == old(self)@.jobs.push(job),
            final(self)@.workers == old(self)@.workers,
    {
        self.ready_jobs.push_back(job);
    }

    /// Worker `id` has finished its job and is ready again. Returns
    /// whether there is such a worker.
    pub fn job_finished(&mut self, id: u32) -> (known: bool)
        ensures
            final(self)@.jobs == old(self)@.jobs,
            final(self)@.workers.len() == old(self)@.workers.len(),
            known == exists|i: int| 0 <= i < old(self)@.workers.len()
                && (#[trigger] old(self)@.workers[i]).0 == id,
            forall|i: int|
                0 <= i < old(self)@.workers.len() ==> #[trigger] final(self)@.workers[i] == if old(
                    self,
                )@.workers[i].0 == id {
                    (id, WorkerState::Ready)
                } else {
                    old(self)@.workers[i]
                },
    {
        let mut known = false;
        let n = self.workers.len();
        let mut i: usize = 0;
        while i < n
            invariant
                i <= n,
                n == self.workers@.len(),
                n == old(self).workers@.len(),
                self.ready_jobs == old(self).ready_jobs,
                known == exists|j: int| 0 <= j < i && (#[trigger] old(self).workers@[j]).0 == id,
                forall|j: int|
                    0 <= j < n ==> #[trigger] self.workers@[j] == if j < i
                        && old(self).workers@[j].0 == id {
                        (id, WorkerState::Ready)
                    } else {
                        old(self).workers@[j]
                    },
            decreases n - i,
        {
            if self.workers[i].0 == id {
                self.workers[i].1 = WorkerState::Ready;
                known = true;
                assert(old(self).workers@[i as int].0 == id);
            }
            i += 1;
        }
        known
    }

    /// Hands waiting jobs to ready workers: the workers are taken in
    /// order, each ready one gets the oldest job that still waits and
    /// becomes busy. Returns each job with the worker that gets it.
    pub fn dispatch(&mut self) -> (out: Vec<(u32, F)>)
        ensures
            out@ == handed(old(self)@, old(self)@.workers.len() as int),
            final(self)@.jobs == old(self)@.jobs.skip(out@.len() as int),
            final(self)@.workers.len() == old(self)@.workers.len(),
            forall|w: int|
                0 <= w < old(self)@.workers.len() ==> #[trigger] final(self)@.workers[w]
                    == if served(
                    old(self)@,
                    w,
                ) {
                    (old(self)@.workers[w].0, WorkerState::Working)
                } else {
                    old(self)@.workers[w]
                },
    {
        let ghost v = self@;
        let mut out: Vec<(u32, F)> = Vec::new();
        let n = self.workers.len();
        let mut w: usize = 0;
        proof {
            assert(v.jobs.skip(0) =~= v.jobs);
        }
        while w < n
            invariant
                w <= n,
                n == v.workers.len(),
                v == old(self)@,
                self.workers@.len() == n,
                out@ == handed(v, w as int),
                out@.len() <= ready_before(v.workers, w as int),
                out@.len() <= v.jobs.len(),
                out@.len() < v.jobs.len() ==> out@.len() == ready_before(v.workers, w as int),
                self.ready_jobs@ == v.jobs.skip(out@.len() as int),
                forall|j: int|
                    0 <= j < n ==> #[trigger] self.workers@[j] == if j < w && served(v, j) {
                        (v.workers[j].0, WorkerState::Working)
                    } else {
                        v.workers[j]
                    },
            decreases n - w,
        {
            let ghost taken = out@.len() as int;
            if let WorkerState::Working = self.workers[w].1 {
                w += 1;
                continue ;
            }
            if let Some(f) = self.ready_jobs.pop_front() {
                self.workers[w].1 = WorkerState::Working;
                let id = self.workers[w].0;
                out.push((id, f));
                proof {
                    assert(f == v.jobs[taken]);
                    assert(self.ready_jobs@ =~= v.jobs.skip(taken + 1));
                }
            }
            w += 1;
        }
        out
    }
}

} // verus!
