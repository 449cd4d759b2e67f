//! The test contract: the capability for judging whether a directory is
//! still interesting, the `ShellTest` configuration that runs a user
//! executable, and the decision core of its polling loop.

use vstd::prelude::*;

verus! {

/// What the interestingness test reported.
#[derive(Clone, Copy, Eq, PartialEq, Structural, Debug)]
pub enum TestResult {
    /// The directory still exhibits the property under reduction.
    Interesting,
    /// It no longer does.
    NotInteresting,
    /// A cancel signal arrived while the test ran.
    Interrupted,
}

/// The external judge. `test_interesting` runs the user's check over the
/// directory at `root` and must honour cancellation; `cleanup_snapshot`
/// strips files that a written snapshot does not need. Implementations
/// run outside the library; the reducer handles every possible answer.
pub trait Test {
    /// Runs the test on `root`. `attempt_name` describes the attempt for
    /// progress output; `attempt_id` is the attempt's hash.
    fn test_interesting(&self, root: &String, attempt_name: &String, attempt_id: u64) -> Result<
        TestResult,
        String,
    >;

    /// Removes auto-generated files from a snapshot directory.
    fn cleanup_snapshot(&self, root: &String) -> Result<(), String>;
}

/// A fixture hook run around a test invocation, over the directory path.
pub trait Hook {
    fn run(&self, root: &String) -> Result<(), String>;
}

/// The hook that does nothing.
pub struct NoopHook;

impl Hook for NoopHook {
    fn run(&self, _root: &String) -> (r: Result<(), String>)
        ensures
            r is Ok,
    {
        Ok(())
    }
}

/// Configuration of a shell-command interestingness test: an optional
/// pre-hook, the path of the user's executable, an optional post-hook, and
/// an optional snapshot-cleanup hook. The process plumbing that runs the
/// command lives outside the library.
pub struct ShellTest<PrepFn, CleanFn, SnapCleanFn> {
    /// Runs before each test invocation.
    pub prep: PrepFn,
    /// Path of the user's interestingness executable.
    pub test: String,
    /// Runs after each test invocation.
    pub clean: CleanFn,
    /// Strips build artifacts from a written snapshot.
    pub snap_clean: SnapCleanFn,
}

impl ShellTest<NoopHook, NoopHook, NoopHook> {
    /// A shell test around the executable at `test`, with no hooks.
    pub fn new(test: String) -> (r: Self)
        ensures
            r.test == test,
    {
        ShellTest { prep: NoopHook, test, clean: NoopHook, snap_clean: NoopHook }
    }
}

impl<PrepFn, CleanFn, SnapCleanFn> ShellTest<PrepFn, CleanFn, SnapCleanFn> {
    /// Replaces the pre- and post-hooks.
    pub fn with_fixture<NewPrep, NewClean>(self, prep: NewPrep, clean: NewClean) -> (r: ShellTest<
        NewPrep,
        NewClean,
        SnapCleanFn,
    >)
        ensures
            r.prep == prep,
            r.test == self.test,
            r.clean == clean,
            r.snap_clean == self.snap_clean,
    {
        ShellTest { prep, test: self.test, clean, snap_clean: self.snap_clean }
    }

    /// Replaces the snapshot-cleanup hook.
    pub fn with_snapshot_cleanup<NewSnap>(self, snap_clean: NewSnap) -> (r: ShellTest<
        PrepFn,
        CleanFn,
        NewSnap,
    >)
        ensures
            r.prep == self.prep,
            r.test == self.test,
            r.clean == self.clean,
            r.snap_clean == snap_clean,
    {
        ShellTest { prep: self.prep, test: self.test, clean: self.clean, snap_clean }
    }
}

/// One observation of the polling loop that waits for the test process.
pub enum PollEvent {
    /// The child exited; the flag says whether it exited successfully.
    Exited(bool),
    /// The poll timeout elapsed with the child still running.
    TickElapsed,
    /// A cancel signal arrived.
    Cancelled,
    /// The cancel channel is gone.
    ChannelClosed,
}

/// What the polling loop does next.
pub enum PollAction {
    /// The test finished with this verdict.
    Finish(TestResult),
    /// Keep polling.
    KeepWaiting,
    /// Kill the child, then report `Interrupted`.
    KillChild,
    /// Fail: the run can no longer be judged.
    Fail,
}

/// The decision core of `ShellTest`'s polling loop: a successful exit is
/// `Interesting`, a failed exit `NotInteresting`; a cancel kills the child
/// and reports `Interrupted`; a tick keeps waiting; a closed cancel
/// channel is a fatal error.
pub fn shell_poll_step(e: &PollEvent) -> (r: PollAction)
    ensures
        match e {
            PollEvent::Exited(ok) => r == PollAction::Finish(
                if *ok {
                    TestResult::Interesting
                } else {
                    TestResult::NotInteresting
                },
            ),
            PollEvent::TickElapsed => r == PollAction::KeepWaiting,
            PollEvent::Cancelled => r == PollAction::KillChild,
            PollEvent::ChannelClosed => r == PollAction::Fail,
        },
{
    match e {
        PollEvent::Exited(ok) => PollAction::Finish(
            if *ok {
                TestResult::Interesting
            } else {
                TestResult::NotInteresting
            },
        ),
        PollEvent::TickElapsed => PollAction::KeepWaiting,
        PollEvent::Cancelled => PollAction::KillChild,
        PollEvent::ChannelClosed => PollAction::Fail,
    }
}

} // verus!
