//! A single-attempt pass that trims end-of-line whitespace and discards
//! lines that are then empty. When the trimmed file equals the original,
//! the pass does not apply.

use vstd::prelude::*;

use crate::dichotomy::AttemptPlan;
use crate::dichotomy::plan_ordered;
use crate::lines::bytes_equal;
use crate::lines::discard_whitespace;
use crate::lines::discard_ws_from;
use crate::pass::DichotomyPass;

verus! {

/// Trim end-of-line whitespace and discard empty lines.
pub struct DiscardWhitespace;

impl DiscardWhitespace {
    /// The single attempt: the whitespace-trimmed file; `None` when
    /// trimming changes nothing.
    pub fn plan(contents: &Vec<u8>) -> (r: Option<Vec<AttemptPlan>>)
        ensures
            match r {
                None => discard_ws_from(contents@, 0) == contents@,
                Some(plan) => {
                    &&& plan@.len() == 1
                    &&& plan_ordered(plan@)
                    &&& plan@[0].contents@ == discard_ws_from(contents@, 0)
                    &&& plan@[0].contents@ != contents@
                },
            },
    {
        let trimmed = discard_whitespace(contents);
        if bytes_equal(&trimmed, contents) {
            return None;
        }
        let removed = if contents.len() > trimmed.len() {
            contents.len() - trimmed.len()
        } else {
            0
        };
        let mut description = String::new();
        description.append("Discard whitespace");
        let mut plan: Vec<AttemptPlan> = Vec::new();
        plan.push(AttemptPlan { contents: trimmed, description, removed });
        Some(plan)
    }
}

impl DichotomyPass for DiscardWhitespace {
    fn list_attempts(&self, contents: &Vec<u8>, _random_seed: u64, _recent_success_rate: u8) -> (r:
        Option<Vec<AttemptPlan>>)
    {
        DiscardWhitespace::plan(contents)
    }
}

} // verus!
