//! The line-removal dichotomy pass: seeded by the job, it proposes a
//! sequence of line ranges to delete, the widest first, then rebuilds the
//! file without each range. Every attempt removes at least one existing
//! line, so no attempt ever hands the original contents back.

use vstd::prelude::*;

use crate::dichotomy::AttemptPlan;
use crate::dichotomy::plan_ordered;
use crate::lines::joined_kept;
use crate::lines::lemma_removal_changes;
use crate::lines::lines_spec;
use crate::lines::logical_lines;
use crate::lines::remove_line_range;
use crate::numfmt::usize_to_string;
use crate::pass::DichotomyPass;
use crate::rng::rng_from_seed;
use crate::rng::rng_range;
use vstd::utf8::valid_utf8;

verus! {

/// Relies on std's `str::from_utf8`: it accepts exactly the well-formed
/// UTF-8 byte strings, which `vstd::utf8::valid_utf8` characterizes.
#[verifier::external_body]
fn check_utf8(b: &Vec<u8>) -> (r: bool)
    ensures
        r == valid_utf8(b@),
{
    std::str::from_utf8(b.as_slice()).is_ok()
}

/// Removes random ranges of lines, trying wide ranges before narrow ones.
pub struct RemoveLines;

/// One attempt of this pass deletes the lines `lo .. hi` (of which at
/// least one exists) and rebuilds the file from the kept lines.
pub open spec fn is_line_removal(original: Seq<u8>, attempt: AttemptPlan) -> bool {
    exists|lo: int, hi: int|
        0 <= lo < hi && lo < lines_spec(original).len() && attempt.contents@ == #[trigger] joined_kept(
            lines_spec(original),
            lo,
            hi,
            0,
        )
}

impl RemoveLines {
    /// Builds the attempt list for one job: `None` when the file is not
    /// valid UTF-8 or has no lines; otherwise a nonempty plan of strictly
    /// shrinking ranges, whose first attempt deletes every line and whose
    /// last (when the file has more than one line) deletes exactly one,
    /// in which each attempt deletes at least one existing line — so none
    /// equals the original contents.
    pub fn plan(contents: &Vec<u8>, random_seed: u64) -> (r: Option<Vec<AttemptPlan>>)
        ensures
            match r {
                None => !valid_utf8(contents@) || lines_spec(contents@).len() == 0,
                Some(plan) => {
                    &&& valid_utf8(contents@)
                    &&& lines_spec(contents@).len() > 0
                    &&& plan@.len() > 0
                    &&& plan_ordered(plan@)
                    &&& forall|i: int|
                        0 <= i < plan@.len() - 1 ==> (#[trigger] plan@[i]).removed > plan@[i
                            + 1].removed
                    &&& (lines_spec(contents@).len() > 1 ==> plan@[plan@.len() - 1].removed
                        == 1)
                    &&& plan@[0].contents@ == joined_kept(
                        lines_spec(contents@),
                        0,
                        lines_spec(contents@).len() as int,
                        0,
                    )
                    &&& forall|k: int|
                        0 <= k < plan@.len() ==> is_line_removal(
                            contents@,
                            #[trigger] plan@[k],
                        )
                    &&& forall|k: int| 0 <= k < plan@.len() ==> (#[trigger] plan@[k]).contents@
                        != contents@
                },
            },
    {
        if !check_utf8(contents) {
            return None;
        }
        let spans = logical_lines(contents);
        let num_lines = spans.len();
        if num_lines == 0 {
            return None;
        }
        let mut rng = rng_from_seed(random_seed);

        // Ranges (start, len), widest first; each starts inside the file.
        let mut ranges: Vec<(usize, usize)> = Vec::new();
        let mut start_at = rng_range(&mut rng, 0, num_lines);
        let mut len: usize = 1;
        while len < num_lines
            invariant
                1 <= len <= num_lines,
                start_at < num_lines,
                ranges@.len() == 0 ==> len == 1,
                ranges@.len() > 0 ==> ranges@[ranges@.len() - 1].1 == 1,
                forall|i: int|
                    0 <= i < ranges@.len() ==> 1 <= (#[trigger] ranges@[i]).1 < len && ranges@[
                        i].0 < num_lines,
                forall|i: int, j: int|
                    0 <= i < j < ranges@.len() ==> (#[trigger] ranges@[i]).1 > (
                    #[trigger] ranges@[j]).1,
            decreases num_lines - len,
        {
            let ghost pre = ranges@;
            ranges.insert(0, (start_at, len));
            proof {
                assert(ranges@[0] == (start_at, len));
                assert(ranges@[ranges@.len() - 1].1 == 1) by {
                    if pre.len() > 0 {
                        assert(ranges@[ranges@.len() - 1] == pre[pre.len() - 1]);
                    }
                }
                assert forall|i: int, j: int|
                    0 <= i < j < ranges@.len() implies (#[trigger] ranges@[i]).1 > (
                    #[trigger] ranges@[j]).1 by {
                    if i > 0 {
                        assert(ranges@[i] == pre[i - 1] && ranges@[j] == pre[j - 1]);
                    } else {
                        assert(ranges@[j] == pre[j - 1]);
                    }
                }
            }
            let back = rng_range(&mut rng, 0, len);
            start_at = if back > start_at {
                0
            } else {
                start_at - back
            };
            let hi = if len <= usize::MAX / 2 {
                2 * len
            } else {
                usize::MAX
            };
            let grow = rng_range(&mut rng, 1, hi);
            len = if grow > num_lines {
                num_lines
            } else if len > num_lines - grow {
                num_lines
            } else {
                len + grow
            };
        }
        let ghost pre = ranges@;
        ranges.insert(0, (0, num_lines));
        proof {
            assert(ranges@[0] == (0usize, num_lines));
            assert(ranges@.len() > 1 ==> ranges@[ranges@.len() - 1].1 == 1) by {
                if pre.len() > 0 {
                    assert(ranges@[ranges@.len() - 1] == pre[pre.len() - 1]);
                }
            }
            assert(num_lines > 1 ==> ranges@.len() > 1);
            assert forall|i: int, j: int|
                0 <= i < j < ranges@.len() implies (#[trigger] ranges@[i]).1 > (
                #[trigger] ranges@[j]).1 by {
                if i > 0 {
                    assert(ranges@[i] == pre[i - 1] && ranges@[j] == pre[j - 1]);
                } else {
                    assert(ranges@[j] == pre[j - 1]);
                }
            }
        }

        // Turn each range into a rebuilt file.
        let mut plan: Vec<AttemptPlan> = Vec::new();
        let mut k: usize = 0;
        while k < ranges.len()
            invariant
                k <= ranges@.len(),
                plan@.len() == k,
                num_lines == lines_spec(contents@).len(),
                forall|q: int|
                    0 <= q < spans@.len() ==> (#[trigger] spans@[q]).0 <= spans@[q].1
                        <= contents@.len() && contents@.subrange(
                        spans@[q].0 as int,
                        spans@[q].1 as int,
                    ) == lines_spec(contents@)[q],
                spans@.len() == lines_spec(contents@).len(),
                forall|i: int|
                    0 <= i < ranges@.len() ==> 1 <= (#[trigger] ranges@[i]).1 && ranges@[i].0
                        < num_lines && ranges@[i].1 <= num_lines,
                forall|i: int, j: int|
                    0 <= i < j < ranges@.len() ==> (#[trigger] ranges@[i]).1 > (
                    #[trigger] ranges@[j]).1,
                ranges@[0] == (0usize, num_lines),
                num_lines > 1 ==> ranges@[ranges@.len() - 1].1 == 1,
                forall|q: int|
                    0 <= q < k ==> (#[trigger] plan@[q]).removed == ranges@[q].1,
                forall|q: int|
                    0 <= q < k ==> (#[trigger] plan@[q]).contents@ == joined_kept(
                        lines_spec(contents@),
                        ranges@[q].0 as int,
                        ranges@[q].0 + ranges@[q].1,
                        0,
                    ),
                forall|q: int| 0 <= q < k ==> is_line_removal(contents@, #[trigger] plan@[q]),
                forall|q: int| 0 <= q < k ==> (#[trigger] plan@[q]).contents@ != contents@,
            decreases ranges@.len() - k,
        {
            let lo = ranges[k].0;
            let rlen = ranges[k].1;
            let hi = if rlen > num_lines - lo {
                num_lines
            } else {
                lo + rlen
            };
            let ghost real_hi = lo + rlen;
            let new_contents = remove_line_range(contents, &spans, lo, hi);
            proof {
                assert(joined_kept(lines_spec(contents@), lo as int, hi as int, 0) =~= joined_kept(
                    lines_spec(contents@),
                    lo as int,
                    real_hi as int,
                    0,
                )) by {
                    lemma_joined_same_beyond(lines_spec(contents@), lo as int, hi as int, real_hi as int, 0);
                }
                lemma_removal_changes(contents@, lo as int, real_hi as int);
            }
            let mut description = String::new();
            description.append("Remove lines ");
            let lo_s = usize_to_string(lo);
            description.append(lo_s.as_str());
            description.append("..");
            let hi_s = usize_to_string(hi);
            description.append(hi_s.as_str());
            plan.push(AttemptPlan { contents: new_contents, description, removed: rlen });
            proof {
                assert(is_line_removal(contents@, plan@[k as int])) by {
                    assert(0 <= lo as int && (lo as int) < real_hi as int && (lo as int)
                        < lines_spec(contents@).len() && plan@[k as int].contents@ == joined_kept(
                        lines_spec(contents@),
                        lo as int,
                        real_hi as int,
                        0,
                    ));
                }
            }
            k = k + 1;
        }
        Some(plan)
    }
}

/// Two removal ranges with the same lower bound that both reach past the
/// last line rebuild the same file.
proof fn lemma_joined_same_beyond(lines: Seq<Seq<u8>>, lo: int, hi1: int, hi2: int, k: int)
    requires
        hi1 >= lines.len() && hi2 >= lines.len() || hi1 == hi2,
        0 <= k,
    ensures
        joined_kept(lines, lo, hi1, k) == joined_kept(lines, lo, hi2, k),
    decreases lines.len() - k,
{
    if k < lines.len() {
        lemma_joined_same_beyond(lines, lo, hi1, hi2, k + 1);
    }
}

impl DichotomyPass for RemoveLines {
    fn list_attempts(&self, contents: &Vec<u8>, random_seed: u64, _recent_success_rate: u8) -> (r:
        Option<Vec<AttemptPlan>>)
    {
        RemoveLines::plan(contents, random_seed)
    }
}

} // verus!
