//! Jobs: one scheduled reduction attempt, and its outcome.

use vstd::prelude::*;

verus! {

use std::collections::hash_map::DefaultHasher;
use std::hash::Hasher;
use vstd::std_specs::hash::DefaultHasherAdditionalSpecFns;
use vstd::string::StringSliceAdditionalSpecFns;
use vstd::utf8::encode_utf8;

/// Outcome of one job.
#[derive(Clone, Debug, Eq, PartialEq)]
pub enum JobStatus {
    /// The job managed to reduce the input.
    ///
    /// The `String` is a human-readable description of the change that the
    /// pass performed on the input to reach the reduced input.
    Reduced(String),
    /// The job did not find a way to reduce the input.
    DidNotReduce,
    /// The pass could not apply to the input at all (for example, a parse
    /// failure, or no matching nodes). The `String` says why.
    PassFailed(String),
    /// The pass observed a cancel signal and stopped early.
    Interrupted,
}

impl JobStatus {
    /// Whether this outcome carries a successful reduction.
    pub open spec fn spec_did_reduce(&self) -> bool {
        self is Reduced
    }

    pub fn did_reduce(&self) -> (r: bool)
        ensures
            r == self.spec_did_reduce(),
    {
        match self {
            JobStatus::Reduced(_) => true,
            _ => false,
        }
    }
}

/// One work unit: a file (named by its path relative to the working
/// directory), a pass (named by its stable hash), a random seed, and the
/// recent-success-rate hint for that file.
#[derive(Clone, Debug)]
pub struct Job {
    /// Path of the target file, relative to the working directory.
    pub path: String,
    /// Stable hash of the pass that this job runs.
    pub pass_hash: u64,
    /// Seed for the pass's random choices.
    pub random_seed: u64,
    /// Exponential moving average of recent reduction successes on this
    /// file, in `0 ..= 255`.
    pub recent_success_rate: u8,
}

/// Little-endian bytes of a 64-bit value, most significant last.
pub open spec fn u64_le_bytes(x: u64) -> Seq<u8> {
    u64_le_bytes_rec(x as nat, 8)
}

pub open spec fn u64_le_bytes_rec(x: nat, n: nat) -> Seq<u8>
    decreases n,
{
    if n == 0 {
        Seq::empty()
    } else {
        seq![(x % 256) as u8] + u64_le_bytes_rec(x / 256, (n - 1) as nat)
    }
}

/// The byte string that identifies a job attempt: the path bytes followed by
/// the fixed-width encodings of the pass hash, the seed, the success-rate
/// hint and the attempt number.
pub open spec fn job_id_bytes(job: Job, attempt_number: usize) -> Seq<u8> {
    encode_utf8(job.path@) + u64_le_bytes(job.pass_hash) + u64_le_bytes(job.random_seed)
        + seq![job.recent_success_rate] + u64_le_bytes(attempt_number as u64)
}

/// Appends the little-endian encoding of `x` to `out`.
fn push_u64_le(out: &mut Vec<u8>, x: u64)
    ensures
        final(out)@ == old(out)@ + u64_le_bytes(x),
{
    let ghost base = out@;
    let mut v: u64 = x;
    let mut i: usize = 0;
    while i < 8
        invariant
            i <= 8,
            base + u64_le_bytes(x) == out@ + u64_le_bytes_rec(v as nat, (8 - i) as nat),
            out@.len() == base.len() + i,
        decreases 8 - i,
    {
        let ghost prev = out@;
        out.push((v % 256) as u8);
        proof {
            assert(u64_le_bytes_rec(v as nat, (8 - i) as nat) == seq![(v % 256) as u8]
                + u64_le_bytes_rec((v / 256) as nat, (8 - (i + 1)) as nat));
            assert(out@ + u64_le_bytes_rec((v / 256) as nat, (8 - (i + 1)) as nat) =~= prev
                + u64_le_bytes_rec(v as nat, (8 - i) as nat));
        }
        v = v / 256;
        i = i + 1;
    }
    proof {
        assert(u64_le_bytes_rec(v as nat, 0) == Seq::<u8>::empty());
        assert(out@ =~= out@ + Seq::<u8>::empty());
        assert(out@ =~= base + u64_le_bytes(x));
    }
}

impl Job {
    pub fn new(path: String, pass_hash: u64, random_seed: u64, recent_success_rate: u8) -> (r:
        Job)
        ensures
            r.path == path,
            r.pass_hash == pass_hash,
            r.random_seed == random_seed,
            r.recent_success_rate == recent_success_rate,
    {
        Job { path, pass_hash, random_seed, recent_success_rate }
    }

    /// Identifier of one attempt of this job, suitable for labeling test
    /// runs. `attempt_number` distinguishes the attempts of a
    /// multi-attempt pass.
    ///
    /// The identifier is the standard hasher's digest of the job's fields
    /// and the attempt number, so equal jobs and attempt numbers always
    /// yield the same identifier.
    pub fn id(&self, attempt_number: usize) -> (r: u64)
        ensures
            r == DefaultHasher::spec_finish(seq![job_id_bytes(*self, attempt_number)]),
    {
        let mut bytes: Vec<u8> = Vec::new();
        let path_bytes = self.path.as_str().as_bytes();
        let mut i: usize = 0;
        while i < path_bytes.len()
            invariant
                i <= path_bytes@.len(),
                path_bytes@ == encode_utf8(self.path@),
                bytes@ == encode_utf8(self.path@).subrange(0, i as int),
            decreases path_bytes@.len() - i,
        {
            let ghost prev = bytes@;
            bytes.push(path_bytes[i]);
            proof {
                assert(bytes@ =~= encode_utf8(self.path@).subrange(0, i + 1));
            }
            i = i + 1;
        }
        proof {
            assert(bytes@ =~= encode_utf8(self.path@));
        }
        push_u64_le(&mut bytes, self.pass_hash);
        push_u64_le(&mut bytes, self.random_seed);
        bytes.push(self.recent_success_rate);
        push_u64_le(&mut bytes, attempt_number as u64);
        proof {
            assert(bytes@ =~= job_id_bytes(*self, attempt_number));
        }
        let mut hasher = DefaultHasher::new();
        hasher.write(bytes.as_slice());
        proof {
            assert(hasher@ =~= seq![job_id_bytes(*self, attempt_number)]);
        }
        hasher.finish()
    }
}

} // verus!
