//! Job-status tracking for a thread pool: the count of jobs that have started and not yet
//! finished, and when a waiter on an empty pool must be woken.
use vstd::prelude::*;

verus! {

/// The number of jobs that workers are running.
pub struct ThreadPoolInner {
    job_count: usize,
}

impl ThreadPoolInner {
    /// The number of running jobs.
    pub closed spec fn count(&self) -> nat {
        self.job_count as nat
    }

    /// No job is running.
    pub fn new() -> (r: Self)
        ensures
            r.count() == 0,
    {
        ThreadPoolInner { job_count: 0 }
    }

    /// The number of running jobs.
    pub fn job_count(&self) -> (r: usize)
        ensures
            r as nat == self.count(),
    {
        self.job_count
    }

    /// Increments the job count. Returns whether waiters on an empty pool are to be woken.
    pub fn start_job(&mut self) -> (notify: bool)
        requires
            old(self).count() < usize::MAX,
        ensures
            final(self).count() == old(self).count() + 1,
            notify == (final(self).count() == 0),
    {
        self.job_count = self.job_count + 1;
        self.job_count == 0
    }

    /// Decrements the job count. Returns whether waiters on an empty pool are to be woken,
    /// that is whether no job is left running.
    pub fn finish_job(&mut self) -> (notify: bool)
        requires
            old(self).count() > 0,
        ensures
            final(self).count() == old(self).count() - 1,
            notify == (final(self).count() == 0),
    {
        self.job_count = self.job_count - 1;
        self.job_count == 0
    }

    /// Whether a caller waiting for the pool to empty may stop waiting.
    pub fn is_empty(&self) -> (r: bool)
        ensures
            r == (self.count() == 0),
    {
        self.job_count == 0
    }
}

} // verus!
