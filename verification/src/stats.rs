//! Per-file success statistics: an 8-bit exponential moving average of
//! whether recent passes on a file reduced it, and the table of tracked
//! files that the coordinator schedules from.

use vstd::prelude::*;

verus! {

/// The EMA value after recording a success: `(9 * r + 255) / 10`.
pub open spec fn ema_success(r: u8) -> u8 {
    ((9 * (r as int) + 255) / 10) as u8
}

/// The EMA value after recording a failure: `(9 * r) / 10`.
pub open spec fn ema_fail(r: u8) -> u8 {
    ((9 * (r as int)) / 10) as u8
}

/// The recent-success EMA never leaves `0 ..= 255`: one success step and one
/// failure step both map that interval into itself.
pub proof fn lemma_ema_bounds(r: u8)
    ensures
        0 <= 9 * (r as int) + 255 <= 2550,
        0 <= (9 * (r as int) + 255) / 10 <= 255,
        0 <= (9 * (r as int)) / 10 <= 255,
{
}

/// Success tracking for one file.
#[derive(Clone, Copy, Debug)]
pub struct FileInfo {
    /// Exponential moving average of recent reduction successes, in
    /// `0 ..= 255`. Starts at the midpoint.
    pub recent_success_rate: u8,
}

impl FileInfo {
    pub fn new() -> (r: FileInfo)
        ensures
            r.recent_success_rate == 127,
    {
        FileInfo { recent_success_rate: 127 }
    }

    /// Pulls the average a tenth of the way towards 255.
    pub fn record_success(&mut self)
        ensures
            final(self).recent_success_rate == ema_success(old(self).recent_success_rate),
    {
        proof {
            lemma_ema_bounds(self.recent_success_rate);
        }
        self.recent_success_rate = ((9 * (self.recent_success_rate as u32) + 255) / 10) as u8;
    }

    /// Pulls the average a tenth of the way towards 0.
    pub fn record_fail(&mut self)
        ensures
            final(self).recent_success_rate == ema_fail(old(self).recent_success_rate),
    {
        proof {
            lemma_ema_bounds(self.recent_success_rate);
        }
        self.recent_success_rate = ((9 * (self.recent_success_rate as u32)) / 10) as u8;
    }
}

/// The coordinator's table of files under reduction.
///
/// Entries keep their insertion order, so iteration is deterministic: with a
/// fixed seed the same draws pick the same files again.
pub struct FileTable {
    /// The tracked files, each with its statistics, in insertion order.
    pub entries: Vec<(String, FileInfo)>,
}

impl FileTable {
    /// The paths, in table order.
    pub open spec fn paths(&self) -> Seq<Seq<char>> {
        self.entries@.map_values(|e: (String, FileInfo)| e.0@)
    }

    /// The success rate stored for the entry at `i`.
    pub open spec fn rate_at(&self, i: int) -> u8 {
        self.entries@[i].1.recent_success_rate
    }

    pub open spec fn spec_len(&self) -> nat {
        self.entries@.len()
    }

    /// Builds a table over `paths`, every file starting at the midpoint
    /// success rate.
    pub fn new(paths: Vec<String>) -> (r: FileTable)
        ensures
            r.spec_len() == paths@.len(),
            forall|i: int|
                0 <= i < paths@.len() ==> #[trigger] r.paths()[i] == paths@[i]@ && r.rate_at(i)
                    == 127,
    {
        let mut entries: Vec<(String, FileInfo)> = Vec::new();
        let mut k: usize = 0;
        while k < paths.len()
            invariant
                k <= paths@.len(),
                entries@.len() == k,
                forall|i: int|
                    0 <= i < k ==> entries@[i].0@ == paths@[i]@
                        && entries@[i].1.recent_success_rate == 127,
            decreases paths@.len() - k,
        {
            entries.push((paths[k].clone(), FileInfo::new()));
            k = k + 1;
        }
        FileTable { entries }
    }

    pub fn len(&self) -> (r: usize)
        ensures
            r == self.spec_len(),
    {
        self.entries.len()
    }

    /// The path of the entry at `i`.
    pub fn path_at(&self, i: usize) -> (r: &String)
        requires
            i < self.spec_len(),
        ensures
            r@ == self.paths()[i as int],
    {
        &self.entries[i].0
    }

    /// The success rate of the entry at `i`.
    pub fn rate(&self, i: usize) -> (r: u8)
        requires
            i < self.spec_len(),
        ensures
            r == self.rate_at(i as int),
    {
        self.entries[i].1.recent_success_rate
    }

    /// Looks a file up by path; returns its index, or `None` when the table
    /// does not track that path.
    pub fn find(&self, path: &String) -> (r: Option<usize>)
        ensures
            match r {
                Some(i) => i < self.spec_len() && self.paths()[i as int] == path@,
                None => forall|i: int| 0 <= i < self.spec_len() ==> self.paths()[i] != path@,
            },
    {
        let mut k: usize = 0;
        while k < self.entries.len()
            invariant
                k <= self.spec_len(),
                forall|i: int| 0 <= i < k ==> self.paths()[i] != path@,
            decreases self.spec_len() - k,
        {
            let e = &self.entries[k];
            if e.0 == *path {
                return Some(k);
            }
            k = k + 1;
        }
        None
    }

    /// Records a successful reduction against the entry at `i`.
    pub fn record_success(&mut self, i: usize)
        requires
            i < old(self).spec_len(),
        ensures
            final(self).spec_len() == old(self).spec_len(),
            final(self).paths() == old(self).paths(),
            final(self).rate_at(i as int) == ema_success(old(self).rate_at(i as int)),
            forall|j: int|
                0 <= j < old(self).spec_len() && j != i ==> final(self).rate_at(j) == old(
                    self,
                ).rate_at(j),
    {
        let ghost p0 = self.paths();
        let mut e = self.entries[i].1;
        e.record_success();
        let path = self.entries[i].0.clone();
        self.entries[i] = (path, e);
        proof {
            assert(self.paths() =~= p0);
        }
    }

    /// Records a failed reduction against the entry at `i`.
    pub fn record_fail(&mut self, i: usize)
        requires
            i < old(self).spec_len(),
        ensures
            final(self).spec_len() == old(self).spec_len(),
            final(self).paths() == old(self).paths(),
            final(self).rate_at(i as int) == ema_fail(old(self).rate_at(i as int)),
            forall|j: int|
                0 <= j < old(self).spec_len() && j != i ==> final(self).rate_at(j) == old(
                    self,
                ).rate_at(j),
    {
        let ghost p0 = self.paths();
        let mut e = self.entries[i].1;
        e.record_fail();
        let path = self.entries[i].0.clone();
        self.entries[i] = (path, e);
        proof {
            assert(self.paths() =~= p0);
        }
    }
}

} // verus!
