//! The worker protocol decisions: before a job, the target file is
//! backed up; after a non-reducing outcome it is restored from the
//! backup, so the file is byte-identical to its pre-job contents; and a
//! worker never holds two jobs at once.

use vstd::prelude::*;

use crate::job::JobStatus;

verus! {

/// Whether the worker must restore the target file from its backup after
/// a job: exactly when the job did not reduce the input (the sandbox is
/// adopted as the new state only on a reduction).
pub fn restore_needed(status: &JobStatus) -> (r: bool)
    ensures
        r == !status.spec_did_reduce(),
{
    !status.did_reduce()
}

/// The at-most-one-in-flight discipline of one worker: a job may only be
/// submitted while none is outstanding, and a result may only be taken
/// while one is.
pub struct WorkerGate {
    /// Whether the worker has a job outstanding.
    pub busy: bool,
}

impl WorkerGate {
    /// A fresh worker has no job outstanding.
    pub fn new() -> (r: WorkerGate)
        ensures
            !r.busy,
    {
        WorkerGate { busy: false }
    }

    /// Hands the worker a job. No worker ever has two jobs outstanding:
    /// submission demands that none is.
    pub fn submit(&mut self)
        requires
            !old(self).busy,
        ensures
            final(self).busy,
    {
        self.busy = true;
    }

    /// Takes the worker's result, freeing it for the next job.
    pub fn complete(&mut self)
        requires
            old(self).busy,
        ensures
            !final(self).busy,
    {
        self.busy = false;
    }
}

} // verus!
