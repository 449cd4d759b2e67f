//! The dichotomy pass skeleton: a pass lists its attempts from the
//! largest-reducing to the smallest, and the attempts are tried in that
//! order until one makes the test report `Interesting`. The machine here
//! carries that protocol; the loop that writes files and runs the test
//! drives it from outside and feeds every verdict back in.

use vstd::prelude::*;

use crate::job::JobStatus;
use crate::test::TestResult;

verus! {

/// One planned attempt: the whole file contents to try, a human-readable
/// description, and how many bytes the attempt removes (its
/// "amount-removed" metric, by which plans are ordered).
pub struct AttemptPlan {
    /// The file contents this attempt writes.
    pub contents: Vec<u8>,
    /// What this attempt does, for labels and the `Reduced` description.
    pub description: String,
    /// Bytes this attempt removes from the current file.
    pub removed: usize,
}

/// Attempts stand in non-increasing order of their amount-removed metric:
/// the biggest reductions come first, so a success skips the smaller ones.
pub open spec fn plan_ordered(plan: Seq<AttemptPlan>) -> bool {
    forall|i: int, j: int|
        0 <= i < j < plan.len() ==> (#[trigger] plan[i]).removed >= (#[trigger] plan[j]).removed
}

/// Attempts are tried in plan order, so any earlier attempt removes at
/// least as much as any later one.
pub proof fn lemma_dichotomy_order(plan: Seq<AttemptPlan>, i: int, j: int)
    requires
        plan_ordered(plan),
        0 <= i <= j < plan.len(),
    ensures
        plan[i].removed >= plan[j].removed,
{
}

/// One run of a dichotomy pass over a fixed plan.
///
/// The protocol: `next_attempt` hands out the next attempt (whose contents
/// the caller writes to the file before running the test); `record` takes
/// the test's verdict. The run ends with `Reduced` on the first
/// `Interesting` verdict, with `Interrupted` on a cancel, and with
/// `DidNotReduce` once every attempt came back `NotInteresting`.
pub struct DichotomyRun {
    /// The planned attempts, largest-reducing first.
    pub plan: Vec<AttemptPlan>,
    /// How many attempts were handed out.
    pub next: usize,
    /// Whether an attempt is outstanding (handed out, verdict not yet in).
    pub awaiting: bool,
    /// The final outcome, once known.
    pub done: Option<JobStatus>,
    /// The verdicts recorded so far.
    pub history: Ghost<Seq<TestResult>>,
}

impl DichotomyRun {
    /// The machine's invariant: verdicts match the attempts handed out,
    /// and the outcome reflects the recorded history exactly.
    pub open spec fn wf(&self) -> bool {
        &&& self.next <= self.plan@.len()
        &&& self.history@.len() + (if self.awaiting {
            1int
        } else {
            0int
        }) == self.next
        &&& !(self.awaiting && self.done is Some)
        &&& (self.done is None ==> forall|k: int|
            0 <= k < self.history@.len() ==> self.history@[k] == TestResult::NotInteresting)
        &&& (match self.done {
            Some(JobStatus::Reduced(d)) => self.history@.len() > 0 && self.history@.last()
                == TestResult::Interesting && d@ == self.plan@[self.history@.len()
                - 1].description@ && forall|k: int|
                0 <= k < self.history@.len() - 1 ==> self.history@[k]
                    == TestResult::NotInteresting,
            Some(JobStatus::Interrupted) => self.history@.len() > 0 && self.history@.last()
                == TestResult::Interrupted && forall|k: int|
                0 <= k < self.history@.len() - 1 ==> self.history@[k]
                    == TestResult::NotInteresting,
            Some(JobStatus::DidNotReduce) => self.history@.len() == self.plan@.len() && forall|
                k: int,
            |
                0 <= k < self.history@.len() ==> self.history@[k] == TestResult::NotInteresting,
            Some(JobStatus::PassFailed(_)) => false,
            None => true,
        })
    }

    /// Starts a run from a pass's planning step: a missing or empty plan
    /// means the pass does not apply, and the job ends as `PassFailed`
    /// without any file being written or the test being run.
    pub fn start(plan: Option<Vec<AttemptPlan>>) -> (r: Result<DichotomyRun, JobStatus>)
        ensures
            match r {
                Ok(run) => {
                    &&& plan matches Some(p) && p@.len() > 0 && run.plan == p
                    &&& run.wf()
                    &&& run.next == 0
                    &&& !run.awaiting
                    &&& run.done is None
                    &&& run.history@ == Seq::<TestResult>::empty()
                },
                Err(s) => (plan is None || plan->0@.len() == 0) && s is PassFailed,
            },
    {
        match plan {
            None => {
                let mut why = String::new();
                why.append("pass found nothing to attempt");
                Err(JobStatus::PassFailed(why))
            },
            Some(p) => {
                if p.len() == 0 {
                    let mut why = String::new();
                    why.append("pass listed no attempts");
                    Err(JobStatus::PassFailed(why))
                } else {
                    Ok(DichotomyRun::new(p))
                }
            },
        }
    }

    /// Starts a run over a nonempty plan.
    pub fn new(plan: Vec<AttemptPlan>) -> (r: DichotomyRun)
        requires
            plan@.len() > 0,
        ensures
            r.wf(),
            r.plan == plan,
            r.next == 0,
            !r.awaiting,
            r.done is None,
            r.history@ == Seq::<TestResult>::empty(),
    {
        DichotomyRun {
            plan,
            next: 0,
            awaiting: false,
            done: None,
            history: Ghost(Seq::empty()),
        }
    }

    /// Hands out the next attempt, or closes the run with `DidNotReduce`
    /// when every attempt has been tried. The caller writes the returned
    /// contents to the target file, runs the test, and feeds the verdict
    /// to `record`. The second component is the attempt number.
    pub fn next_attempt(&mut self) -> (r: Option<(Vec<u8>, usize)>)
        requires
            old(self).wf(),
            !old(self).awaiting,
            old(self).done is None,
        ensures
            final(self).wf(),
            final(self).plan == old(self).plan,
            final(self).history == old(self).history,
            match r {
                Some((c, n)) => {
                    &&& old(self).next < old(self).plan@.len()
                    &&& n == old(self).next
                    &&& c@ == old(self).plan@[old(self).next as int].contents@
                    &&& final(self).next == old(self).next + 1
                    &&& final(self).awaiting
                    &&& final(self).done is None
                },
                None => {
                    &&& old(self).next == old(self).plan@.len()
                    &&& final(self).next == old(self).next
                    &&& !final(self).awaiting
                    &&& final(self).done == Some(JobStatus::DidNotReduce)
                },
            },
    {
        if self.next < self.plan.len() {
            let n = self.next;
            let c = self.plan[n].contents.clone();
            self.next = n + 1;
            self.awaiting = true;
            Some((c, n))
        } else {
            self.done = Some(JobStatus::DidNotReduce);
            None
        }
    }

    /// The description of the attempt most recently handed out.
    pub fn current_description(&self) -> (r: String)
        requires
            self.awaiting,
            self.wf(),
        ensures
            r@ == self.plan@[self.next - 1].description@,
    {
        self.plan[self.next - 1].description.clone()
    }

    /// Records the test's verdict for the outstanding attempt.
    /// `Interesting` closes the run with `Reduced` and the attempt's
    /// description; `Interrupted` closes it with `Interrupted`;
    /// `NotInteresting` leaves it open for the next attempt.
    pub fn record(&mut self, v: TestResult)
        requires
            old(self).wf(),
            old(self).awaiting,
        ensures
            final(self).wf(),
            final(self).plan == old(self).plan,
            final(self).next == old(self).next,
            !final(self).awaiting,
            final(self).history@ == old(self).history@.push(v),
            v == TestResult::Interesting ==> (final(self).done matches Some(
                JobStatus::Reduced(d),
            ) && d@ == old(self).plan@[old(self).next - 1].description@),
            v == TestResult::Interrupted ==> final(self).done == Some(JobStatus::Interrupted),
            v == TestResult::NotInteresting ==> final(self).done == (if old(self).next == old(
                self,
            ).plan@.len() {
                Some(JobStatus::DidNotReduce)
            } else {
                None::<JobStatus>
            }),
    {
        self.history = Ghost(self.history@.push(v));
        self.awaiting = false;
        match v {
            TestResult::Interesting => {
                let d = self.plan[self.next - 1].description.clone();
                self.done = Some(JobStatus::Reduced(d));
            },
            TestResult::Interrupted => {
                self.done = Some(JobStatus::Interrupted);
            },
            TestResult::NotInteresting => {
                if self.next == self.plan.len() {
                    self.done = Some(JobStatus::DidNotReduce);
                }
            },
        }
    }

    /// The run's outcome, once it is closed.
    pub fn outcome(&self) -> (r: &Option<JobStatus>)
        ensures
            r == self.done,
    {
        &self.done
    }
}

/// A reduction is only ever reported after the interestingness test judged
/// the last written attempt `Interesting`: the state the runner promotes —
/// and every snapshot taken of it — passed the test.
pub proof fn lemma_reduced_means_interesting(run: DichotomyRun)
    requires
        run.wf(),
        run.done matches Some(JobStatus::Reduced(_)),
    ensures
        run.history@.len() > 0,
        run.history@.last() == TestResult::Interesting,
{
}

} // verus!
