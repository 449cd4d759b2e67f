//! The contract every reducer pass implements: from the target file's
//! contents and the job's seed and success-rate hint, list the attempts to
//! try, largest-reducing first. The worker loop drives the attempts
//! through a `DichotomyRun`.

use vstd::prelude::*;

use crate::dichotomy::AttemptPlan;
use crate::dichotomy::plan_ordered;

verus! {

use std::collections::hash_map::DefaultHasher;
use std::hash::Hash;

/// A reduction strategy over one file.
///
/// `list_attempts` must be deterministic in its arguments (any randomness
/// comes from `random_seed`), and returns `None` when the pass does not
/// apply to this input. A returned plan is nonempty and ordered from the
/// largest-reducing attempt to the smallest.
pub trait DichotomyPass {
    fn list_attempts(&self, contents: &Vec<u8>, random_seed: u64, recent_success_rate: u8) -> (r:
        Option<Vec<AttemptPlan>>)
        ensures
            r matches Some(plan) ==> plan@.len() > 0 && plan_ordered(plan@),
    ;
}

/// Object-safe hashing, so that a pass's stable hash can label jobs.
pub trait DynHash {
    fn dyn_hash(&self, hasher: &mut DefaultHasher);
}

/// Relies on the type's `Hash` impl; nothing is claimed of the bytes it
/// feeds the hasher.
#[verifier::external_body]
fn hash_into<T: Hash>(value: &T, hasher: &mut DefaultHasher) {
    value.hash(hasher)
}

impl<T: Hash> DynHash for T {
    fn dyn_hash(&self, hasher: &mut DefaultHasher) {
        hash_into(self, hasher)
    }
}

} // verus!
