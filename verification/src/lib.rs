//! A parallel, syntax-tree-aware test-case minimizer core.
//!
//! The library holds the verified logic of the reducer: the job model, the
//! per-file success statistics, the dichotomy pass framework with its
//! reference passes (whitespace trimming, line removal, and tree-sitter
//! based node replacement), and the coordinator decisions (scheduling,
//! promotion, snapshots).
//! Process, thread and filesystem plumbing lives outside the library and
//! drives these components through their contracts.

pub mod bytes;
pub mod clock;
pub mod dichotomy;
pub mod discard_whitespace;
pub mod job;
pub mod lines;
pub mod nodelist;
pub mod numfmt;
pub mod pass;
pub mod remove_lines;
pub(crate) mod rng;
pub mod runner;
pub mod snapshots;
pub mod stats;
pub mod test;
pub mod tree_sitter_replace;
pub mod util;
pub mod workers;

pub use job::Job;
pub use job::JobStatus;
