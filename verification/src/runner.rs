//! The coordinator's decisions: startup validation, job selection,
//! bookkeeping of job results, reduction promotion, snapshot timing, and
//! the at-most-one-in-flight discipline of each worker.
//!
//! Everything that touches processes, threads, channels or the filesystem
//! stands outside the library and consults these functions between steps.

use vstd::prelude::*;

use crate::job::Job;
use crate::job::JobStatus;
use crate::rng::rng_from_seed;
use crate::rng::rng_range;
use crate::rng::rng_u64;
use crate::stats::FileTable;
use crate::stats::ema_fail;
use crate::stats::ema_success;
use crate::test::TestResult;

verus! {

use rand::rngs::StdRng;

/// Why the configuration was rejected at startup.
#[derive(Debug, PartialEq, Eq, Structural)]
pub enum ConfigError {
    /// No passes are configured.
    NoPasses,
    /// No files were selected for reduction.
    NoFiles,
    /// The snapshot directory already has entries, but resumption was not
    /// requested.
    SnapshotDirNotEmpty,
}

/// The startup sanity checks: there must be passes and files to work
/// with, and a non-empty snapshot directory is only accepted when
/// resuming. Each error comes exactly on the input that breaks its rule.
pub fn validate_config(num_passes: usize, num_files: usize, resume: bool, snapshot_dir_len: usize)
    -> (r: Result<(), ConfigError>)
    ensures
        match r {
            Ok(()) => num_passes > 0 && num_files > 0 && (resume || snapshot_dir_len == 0),
            Err(ConfigError::NoPasses) => num_passes == 0,
            Err(ConfigError::NoFiles) => num_passes > 0 && num_files == 0,
            Err(ConfigError::SnapshotDirNotEmpty) => num_passes > 0 && num_files > 0 && !resume
                && snapshot_dir_len > 0,
        },
{
    if num_passes == 0 {
        Err(ConfigError::NoPasses)
    } else if num_files == 0 {
        Err(ConfigError::NoFiles)
    } else if !resume && snapshot_dir_len > 0 {
        Err(ConfigError::SnapshotDirNotEmpty)
    } else {
        Ok(())
    }
}

/// The verdict on the initial interestingness check of the input
/// directory: only `Interesting` lets the run proceed.
pub fn startup_verdict(result: &TestResult) -> (r: Result<(), String>)
    ensures
        (r is Ok) == (*result is Interesting),
{
    match result {
        TestResult::Interesting => Ok(()),
        TestResult::NotInteresting => {
            let mut m = String::new();
            m.append("Test did not find the provided target directory interesting");
            Err(m)
        },
        TestResult::Interrupted => {
            let mut m = String::new();
            m.append("Killed by user");
            Err(m)
        },
    }
}

/// What the runner does with a finished job.
#[derive(Debug, PartialEq, Eq, Structural)]
pub enum ResultAction {
    /// Adopt the worker's directory as the new authoritative state,
    /// resync every other worker, and snapshot when due.
    Promote,
    /// Leave the authoritative state alone and hand the worker a new job.
    Redispatch,
}

/// The coordinator state that drives scheduling: the per-file statistics,
/// the seeded random stream, and whether a reduction has landed since the
/// last snapshot.
pub struct Runner {
    /// Per-file success statistics, in deterministic order.
    pub files: FileTable,
    /// The seeded random stream behind every scheduling choice.
    pub rng: StdRng,
    /// Whether a promotion happened since the last snapshot was written.
    pub did_reduce_since_snapshot: bool,
}

impl Runner {
    /// A coordinator over `paths`, seeded with `seed`.
    pub fn new(paths: Vec<String>, seed: u64) -> (r: Runner)
        ensures
            r.files.spec_len() == paths@.len(),
            forall|i: int|
                0 <= i < paths@.len() ==> #[trigger] r.files.paths()[i] == paths@[i]@
                    && r.files.rate_at(i) == 127,
            !r.did_reduce_since_snapshot,
    {
        let ghost ps = paths@;
        let files = FileTable::new(paths);
        proof {
            assert(files.spec_len() == ps.len());
            assert forall|i: int| 0 <= i < ps.len() implies files.paths()[i] == ps[i]@
                && files.rate_at(i) == 127 by {
                assert(files.paths()[i] == ps[i]@);
                assert(files.rate_at(i) == 127);
            }
        }
        let rng = rng_from_seed(seed);
        Runner { files, rng, did_reduce_since_snapshot: false }
    }

    /// Chooses the next job: a file drawn uniformly from the table, a pass
    /// drawn uniformly from the list (given by its stable hashes), and a
    /// fresh seed. Returns the chosen file index, the chosen pass index,
    /// and the job, which carries that file's path and current
    /// success-rate hint.
    pub fn pick_job(&mut self, pass_hashes: &Vec<u64>) -> (r: (usize, usize, Job))
        requires
            old(self).files.spec_len() > 0,
            pass_hashes@.len() > 0,
        ensures
            final(self).files == old(self).files,
            final(self).did_reduce_since_snapshot == old(self).did_reduce_since_snapshot,
            r.0 < old(self).files.spec_len(),
            r.1 < pass_hashes@.len(),
            r.2.path@ == old(self).files.paths()[r.0 as int],
            r.2.pass_hash == pass_hashes@[r.1 as int],
            r.2.recent_success_rate == old(self).files.rate_at(r.0 as int),
    {
        let file_idx = rng_range(&mut self.rng, 0, self.files.len());
        let pass_idx = rng_range(&mut self.rng, 0, pass_hashes.len());
        let seed = rng_u64(&mut self.rng);
        let path = self.files.path_at(file_idx).clone();
        let rate = self.files.rate(file_idx);
        let job = Job::new(path, pass_hashes[pass_idx], seed, rate);
        (file_idx, pass_idx, job)
    }

    /// Books a finished job against the file it ran on and says what to do
    /// next: a `Reduced` outcome records a success and is promoted; a
    /// `DidNotReduce` outcome records a failure; a `PassFailed` outcome
    /// leaves the statistics untouched. An `Interrupted` outcome never
    /// reaches this path.
    pub fn on_job_result(&mut self, file_idx: usize, status: &JobStatus) -> (r: ResultAction)
        requires
            file_idx < old(self).files.spec_len(),
            !(*status is Interrupted),
        ensures
            final(self).files.spec_len() == old(self).files.spec_len(),
            final(self).files.paths() == old(self).files.paths(),
            (r == ResultAction::Promote) == status.spec_did_reduce(),
            final(self).did_reduce_since_snapshot == (old(self).did_reduce_since_snapshot
                || status.spec_did_reduce()),
            *status is Reduced ==> final(self).files.rate_at(file_idx as int) == ema_success(
                old(self).files.rate_at(file_idx as int),
            ),
            *status is DidNotReduce ==> final(self).files.rate_at(file_idx as int) == ema_fail(
                old(self).files.rate_at(file_idx as int),
            ),
            *status is PassFailed ==> final(self).files == old(self).files,
            forall|j: int|
                0 <= j < old(self).files.spec_len() && j != file_idx
                    ==> final(self).files.rate_at(j) == old(self).files.rate_at(j),
    {
        match status {
            JobStatus::Reduced(_) => {
                self.files.record_success(file_idx);
                self.did_reduce_since_snapshot = true;
                ResultAction::Promote
            },
            JobStatus::DidNotReduce => {
                self.files.record_fail(file_idx);
                ResultAction::Redispatch
            },
            JobStatus::PassFailed(_) => ResultAction::Redispatch,
            JobStatus::Interrupted => {
                // Ruled out by the precondition.
                proof {
                    assert(false);
                }
                ResultAction::Redispatch
            },
        }
    }

    /// Whether a snapshot is due: a deadline has passed and some reduction
    /// landed since the last snapshot.
    ///
    /// See `lemma_no_reduction_no_snapshot` for the law this gate carries.
    pub fn should_snapshot(&self, deadline_passed: bool) -> (r: bool)
        ensures
            r == (deadline_passed && self.did_reduce_since_snapshot),
    {
        deadline_passed && self.did_reduce_since_snapshot
    }

    /// Marks the snapshot as written.
    pub fn note_snapshot(&mut self)
        ensures
            !final(self).did_reduce_since_snapshot,
            final(self).files == old(self).files,
    {
        self.did_reduce_since_snapshot = false;
    }
}

/// Booking a non-reducing outcome keeps the snapshot gate closed. The
/// premises are what `on_job_result` ensures for such an outcome; the
/// conclusion is that `should_snapshot` reports nothing, deadline or not.
pub proof fn lemma_no_reduction_no_snapshot(
    before: Runner,
    after: Runner,
    status: JobStatus,
    deadline: bool,
)
    requires
        !before.did_reduce_since_snapshot,
        !status.spec_did_reduce(),
        after.did_reduce_since_snapshot == (before.did_reduce_since_snapshot
            || status.spec_did_reduce()),
    ensures
        !after.did_reduce_since_snapshot,
        !(deadline && after.did_reduce_since_snapshot),
{
}

} // verus!
