//! Small shared pieces: the option set handed in by the front-end, the
//! file-list decision, and the writer adapter that routes log lines
//! through the progress display.

use vstd::prelude::*;

use vstd::string::StringSliceAdditionalSpecFns;
use vstd::utf8::encode_utf8;

verus! {

/// The reducer's configuration, as the front-end hands it in.
pub struct Opt {
    /// The directory to reduce; may be absent when resuming.
    pub root_path: Option<String>,
    /// Resume from the latest snapshot instead of `root_path`.
    pub resume: bool,
    /// Restrict reduction to these files; `None` means the caller's
    /// default file list.
    pub only_files: Option<Vec<String>>,
    /// Where snapshots are written.
    pub snapshot_directory: String,
    /// Minimum seconds between snapshots; 0 snapshots after every
    /// reduction.
    pub snapshot_interval: u64,
    /// Retention cap on snapshots; `None` keeps them all.
    pub max_snapshots: Option<usize>,
    /// Number of workers.
    pub jobs: usize,
    /// Seed for the random stream; drawn fresh when absent.
    pub random_seed: Option<u64>,
    /// Skip the initial interestingness check.
    pub do_not_validate_input: bool,
    /// Log-only output, without progress spinners.
    pub no_progress_bars: bool,
}

impl Opt {
    /// The files to reduce: the explicitly requested ones when given,
    /// otherwise the caller's default list.
    pub fn files(&self, default_list: Vec<String>) -> (r: Vec<String>)
        ensures
            match self.only_files {
                Some(only) => r@.len() == only@.len() && forall|i: int|
                    0 <= i < only@.len() ==> r@[i]@ == only@[i]@,
                None => r == default_list,
            },
    {
        match &self.only_files {
            Some(only) => {
                let mut out: Vec<String> = Vec::new();
                let mut i: usize = 0;
                while i < only.len()
                    invariant
                        self.only_files matches Some(o) && o == only,
                        i <= only@.len(),
                        out@.len() == i,
                        forall|k: int| 0 <= k < i ==> out@[k]@ == only@[k]@,
                    decreases only@.len() - i,
                {
                    out.push(only[i].clone());
                    i = i + 1;
                }
                out
            },
            None => default_list,
        }
    }
}

/// Whether a file name ends in the Rust source suffix `.rs`.
pub fn has_rs_extension(name: &String) -> (r: bool)
    ensures
        r == (encode_utf8(name@).len() >= 3 && encode_utf8(name@).subrange(
            encode_utf8(name@).len() - 3,
            encode_utf8(name@).len() as int,
        ) == seq![46u8, 114u8, 115u8]),
{
    let b = name.as_str().as_bytes();
    if b.len() < 3 {
        return false;
    }
    let n = b.len();
    let r = b[n - 3] == 46 && b[n - 2] == 114 && b[n - 1] == 115;
    proof {
        let tail = encode_utf8(name@).subrange(
            encode_utf8(name@).len() - 3,
            encode_utf8(name@).len() as int,
        );
        if r {
            assert(tail =~= seq![46u8, 114u8, 115u8]);
        } else {
            assert(tail[0] == b@[n - 3] && tail[1] == b@[n - 2] && tail[2] == b@[n - 1]);
        }
    }
    r
}

/// Routes buffered log output through a caller-supplied sink, so that log
/// lines and progress spinners share the terminal. The io plumbing that
/// feeds it lives outside the library.
pub struct IndicatifWriter<F>(pub F);

impl<F> IndicatifWriter<F> {
    pub fn new(f: F) -> (r: Self)
        ensures
            r.0 == f,
    {
        IndicatifWriter(f)
    }
}

} // verus!
