//! The nested list of interesting nodes that the tree-sitter pass shrinks.
//!
//! The top level lists the interesting roots in source order; each node
//! carries the nested list of its own interesting descendants. All byte
//! ranges in one list are nonempty, sorted and non-overlapping, and a
//! node's descendants lie inside the node's own range.
//!
//! `try_remove_front` and `try_remove_back` peel whole nodes from one end
//! until the next node would exceed the remaining quota, then open that
//! node: its own bytes (its range minus its children's ranges) are given
//! up, and peeling continues inside the children, which afterwards stand
//! in the opened node's place. Both operations keep the ordering invariant
//! and report exactly how many covered bytes they removed.

use vstd::prelude::*;

verus! {

/// One interesting node: a byte range, what to replace it with, and the
/// interesting descendants strictly inside the range.
pub struct InterestingNode {
    /// First byte of the node's range.
    pub start: usize,
    /// One past the last byte of the node's range.
    pub end: usize,
    /// Replacement bytes for the range.
    pub replace_with: Vec<u8>,
    /// Interesting descendants, inside `start .. end`.
    pub children: InterestingNodeList,
}

/// A source-ordered list of interesting nodes.
pub struct InterestingNodeList {
    /// The nodes, in source order.
    pub nodes: Vec<InterestingNode>,
}

/// One flat byte-range replacement, produced when a node list is turned
/// into an attempt.
#[derive(Clone)]
pub struct Replacement {
    /// First byte of the replaced range.
    pub start: usize,
    /// One past the last byte of the replaced range.
    pub end: usize,
    /// The bytes that stand in for the range.
    pub with: Vec<u8>,
}

/// Total bytes covered by the top-level ranges of `s`.
pub open spec fn seq_count(s: Seq<InterestingNode>) -> int
    decreases s.len(),
{
    if s.len() == 0 {
        0
    } else {
        s[0].end - s[0].start + seq_count(s.drop_first())
    }
}

/// All top-level ranges of `s` lie within `lo .. hi`.
pub open spec fn seq_inside(s: Seq<InterestingNode>, lo: int, hi: int) -> bool {
    forall|i: int| 0 <= i < s.len() ==> lo <= (#[trigger] s[i]).start && s[i].end <= hi
}

/// Well-formedness: every range is nonempty, the top-level ranges are
/// sorted and pairwise disjoint, and each node's children are well-formed
/// and lie inside the node's range.
pub open spec fn seq_wf(s: Seq<InterestingNode>) -> bool
    decreases s,
{
    &&& forall|i: int|
        0 <= i < s.len() ==> (#[trigger] s[i]).start < s[i].end && seq_wf(s[i].children.nodes@)
            && seq_inside(s[i].children.nodes@, s[i].start as int, s[i].end as int)
    &&& forall|i: int, j: int| 0 <= i < j < s.len() ==> (#[trigger] s[i]).end <= (#[trigger] s[j]).start
}

/// Shallow sortedness, as `check_sorted` reports it: ranges are ordered
/// (`start <= end`) and consecutive ranges do not overlap.
pub open spec fn seq_top_sorted(s: Seq<InterestingNode>) -> bool {
    forall|i: int|
        0 <= i < s.len() ==> (#[trigger] s[i]).start <= s[i].end && (i + 1 < s.len() ==> s[i].end
            <= s[i + 1].start)
}

/// Dropping the first node preserves well-formedness.
pub proof fn lemma_wf_drop_first(s: Seq<InterestingNode>)
    requires
        seq_wf(s),
        s.len() > 0,
    ensures
        seq_wf(s.drop_first()),
{
    let t = s.drop_first();
    assert forall|i: int| 0 <= i < t.len() implies (#[trigger] t[i]).start < t[i].end && seq_wf(
        t[i].children.nodes@,
    ) && seq_inside(t[i].children.nodes@, t[i].start as int, t[i].end as int) by {
        assert(t[i] == s[i + 1]);
    }
    assert forall|i: int, j: int| 0 <= i < j < t.len() implies (#[trigger] t[i]).end <= (
    #[trigger] t[j]).start by {
        assert(t[i] == s[i + 1] && t[j] == s[j + 1]);
    }
}

/// A well-formed list confined to `lo .. hi` covers at least one byte per
/// node and at most the whole span.
pub proof fn lemma_count_span(s: Seq<InterestingNode>, lo: int, hi: int)
    requires
        seq_wf(s),
        seq_inside(s, lo, hi),
        lo <= hi,
    ensures
        s.len() <= seq_count(s) <= hi - lo,
    decreases s.len(),
{
    if s.len() > 0 {
        let t = s.drop_first();
        lemma_wf_drop_first(s);
        assert(seq_inside(t, s[0].end as int, hi)) by {
            assert forall|i: int|
                0 <= i < t.len() implies s[0].end <= (#[trigger] t[i]).start && t[i].end
                <= hi by {
                assert(t[i] == s[i + 1]);
            }
        }
        lemma_count_span(t, s[0].end as int, hi);
    }
}

/// Covered bytes never exceed `usize::MAX`, since all ranges are disjoint
/// ranges of `usize` offsets.
pub proof fn lemma_count_fits(s: Seq<InterestingNode>)
    requires
        seq_wf(s),
    ensures
        s.len() <= seq_count(s) <= usize::MAX,
{
    assert(seq_inside(s, 0, usize::MAX as int));
    lemma_count_span(s, 0, usize::MAX as int);
}

/// Concatenating a list confined to `lo .. mid` with one whose nodes start
/// at or after `mid` yields a well-formed list again.
pub proof fn lemma_wf_concat(a: Seq<InterestingNode>, b: Seq<InterestingNode>, mid: int)
    requires
        seq_wf(a),
        seq_wf(b),
        forall|i: int| 0 <= i < a.len() ==> (#[trigger] a[i]).end <= mid,
        forall|j: int| 0 <= j < b.len() ==> mid <= (#[trigger] b[j]).start,
    ensures
        seq_wf(a + b),
{
    let c = a + b;
    assert forall|i: int| 0 <= i < c.len() implies (#[trigger] c[i]).start < c[i].end && seq_wf(
        c[i].children.nodes@,
    ) && seq_inside(c[i].children.nodes@, c[i].start as int, c[i].end as int) by {
        if i < a.len() {
            assert(c[i] == a[i]);
        } else {
            assert(c[i] == b[i - a.len()]);
        }
    }
    assert forall|i: int, j: int| 0 <= i < j < c.len() implies (#[trigger] c[i]).end <= (
    #[trigger] c[j]).start by {
        if j < a.len() {
            assert(c[i] == a[i] && c[j] == a[j]);
        } else if i >= a.len() {
            assert(c[i] == b[i - a.len()] && c[j] == b[j - a.len()]);
        } else {
            assert(c[i] == a[i] && c[j] == b[j - a.len()]);
        }
    }
}

/// Splitting a concatenation: covered bytes add up.
pub proof fn lemma_count_concat(a: Seq<InterestingNode>, b: Seq<InterestingNode>)
    ensures
        seq_count(a + b) == seq_count(a) + seq_count(b),
    decreases a.len(),
{
    if a.len() == 0 {
        assert(a + b =~= b);
    } else {
        assert((a + b).drop_first() =~= a.drop_first() + b);
        lemma_count_concat(a.drop_first(), b);
    }
}

impl InterestingNodeList {
    /// The list's well-formedness invariant.
    pub open spec fn wf(&self) -> bool {
        seq_wf(self.nodes@)
    }

    /// Total bytes covered by the top-level ranges.
    pub open spec fn spec_count(&self) -> int {
        seq_count(self.nodes@)
    }

    /// An empty list.
    pub fn new() -> (r: InterestingNodeList)
        ensures
            r.wf(),
            r.nodes@.len() == 0,
    {
        InterestingNodeList { nodes: Vec::new() }
    }

    /// Total bytes covered by the top-level ranges.
    pub fn count_bytes(&self) -> (r: usize)
        requires
            self.wf(),
        ensures
            r == self.spec_count(),
    {
        proof {
            lemma_count_fits(self.nodes@);
            assert(self.nodes@.subrange(0, self.nodes@.len() as int) =~= self.nodes@);
        }
        let mut acc: usize = 0;
        let mut i: usize = 0;
        while i < self.nodes.len()
            invariant
                self.wf(),
                i <= self.nodes@.len(),
                acc == seq_count(self.nodes@) - seq_count(self.nodes@.subrange(
                    i as int,
                    self.nodes@.len() as int,
                )),
                0 <= acc <= seq_count(self.nodes@) <= usize::MAX,
            decreases self.nodes@.len() - i,
        {
            let ghost suffix = self.nodes@.subrange(i as int, self.nodes@.len() as int);
            proof {
                lemma_suffix_wf(self.nodes@, i as int);
                lemma_count_fits(suffix);
                lemma_wf_drop_first(suffix);
                lemma_count_fits(suffix.drop_first());
                assert(suffix.drop_first() =~= self.nodes@.subrange(
                    i + 1,
                    self.nodes@.len() as int,
                ));
                assert(suffix[0] == self.nodes@[i as int]);
                assert(seq_count(suffix) == self.nodes@[i as int].end - self.nodes@[i as int].start
                    + seq_count(suffix.drop_first()));
            }
            acc = acc + (self.nodes[i].end - self.nodes[i].start);
            i = i + 1;
        }
        proof {
            assert(self.nodes@.subrange(i as int, self.nodes@.len() as int) =~= Seq::<
                InterestingNode,
            >::empty());
        }
        acc
    }

    /// Turns the list into the flat, ordered replacements of its top-level
    /// nodes; descendants are subsumed by their parents' ranges.
    pub fn into_ranges(self) -> (r: Vec<Replacement>)
        ensures
            r@.len() == self.nodes@.len(),
            forall|i: int|
                0 <= i < r@.len() ==> (#[trigger] r@[i]).start == self.nodes@[i].start
                    && r@[i].end == self.nodes@[i].end && r@[i].with@ == self.nodes@[i].replace_with@,
    {
        let mut out: Vec<Replacement> = Vec::new();
        let mut rest = self.nodes;
        let ghost all = rest@;
        let total = rest.len();
        let mut i: usize = 0;
        while rest.len() > 0
            invariant
                out@.len() == i,
                total == all.len(),
                i + rest@.len() == all.len(),
                rest@ =~= all.subrange(i as int, all.len() as int),
                forall|k: int|
                    0 <= k < i ==> (#[trigger] out@[k]).start == all[k].start && out@[k].end
                        == all[k].end && out@[k].with@ == all[k].replace_with@,
            decreases rest@.len(),
        {
            let n = rest.remove(0);
            proof {
                assert(n == all[i as int]);
                assert(rest@ =~= all.subrange(i + 1, all.len() as int));
            }
            out.push(Replacement { start: n.start, end: n.end, with: n.replace_with });
            i = i + 1;
        }
        out
    }

    /// Reports whether the top-level ranges are ordered and non-overlapping,
    /// as a runtime guard for data that arrives from an unverified parser.
    pub fn check_sorted(&self) -> (r: bool)
        ensures
            r == seq_top_sorted(self.nodes@),
    {
        let mut cur: usize = 0;
        let mut i: usize = 0;
        while i < self.nodes.len()
            invariant
                i <= self.nodes@.len(),
                forall|k: int| 0 <= k < i ==> (#[trigger] self.nodes@[k]).start <= self.nodes@[k].end,
                forall|k: int|
                    0 <= k && k + 1 < i ==> (#[trigger] self.nodes@[k]).end <= self.nodes@[k + 1].start,
                i > 0 ==> cur == self.nodes@[i - 1].end,
                i == 0 ==> cur == 0,
            decreases self.nodes@.len() - i,
        {
            let n = &self.nodes[i];
            if cur > n.start {
                return false;
            }
            if n.start > n.end {
                return false;
            }
            cur = n.end;
            i = i + 1;
        }
        true
    }
}

impl InterestingNodeList {
    /// Removes roughly `size_to_remove` covered bytes from the front of the
    /// list: whole nodes are peeled while they fit; the first node that
    /// would not fit is opened, its own bytes (range minus children) are
    /// given up, and peeling continues in its children, which then stand in
    /// its place. Returns the number of covered bytes actually removed;
    /// at least one byte is removed whenever the list is nonempty and at
    /// least one byte was asked for, and bytes leave from the front: once
    /// the first node fits the quota, everything that remains starts at or
    /// beyond its end.
    pub fn try_remove_front(&mut self, size_to_remove: usize) -> (removed: usize)
        requires
            old(self).wf(),
        ensures
            final(self).wf(),
            removed <= old(self).spec_count(),
            final(self).spec_count() == old(self).spec_count() - removed,
            forall|lo: int, hi: int|
                seq_inside(old(self).nodes@, lo, hi) ==> seq_inside(final(self).nodes@, lo, hi),
            size_to_remove >= 1 && old(self).nodes@.len() > 0 ==> removed >= 1,
            old(self).nodes@.len() > 0 && old(self).nodes@[0].end - old(self).nodes@[0].start
                <= size_to_remove ==> forall|k: int|
                0 <= k < final(self).nodes@.len() ==> old(self).nodes@[0].end <= (
                #[trigger] final(self).nodes@[k]).start,
        decreases *old(self),
    {
        let ghost orig = self.nodes@;
        proof {
            lemma_count_fits(orig);
        }
        let mut removed: usize = 0;
        let mut want: usize = size_to_remove;
        while self.nodes.len() > 0 && self.nodes[0].end - self.nodes[0].start <= want
            invariant
                seq_wf(self.nodes@),
                seq_wf(orig),
                self.nodes@.len() <= orig.len(),
                self.nodes@ == orig.subrange(
                    orig.len() - self.nodes@.len(),
                    orig.len() as int,
                ),
                removed + want == size_to_remove,
                removed == seq_count(orig) - seq_count(self.nodes@),
                0 <= seq_count(self.nodes@) <= seq_count(orig) <= usize::MAX,
            decreases self.nodes@.len(),
        {
            let ghost cur = self.nodes@;
            let sz = self.nodes[0].end - self.nodes[0].start;
            removed = removed + sz;
            want = want - sz;
            self.nodes.remove(0);
            proof {
                assert(self.nodes@ =~= cur.drop_first());
                lemma_wf_drop_first(cur);
                lemma_count_fits(self.nodes@);
                assert(self.nodes@ =~= orig.subrange(
                    orig.len() - self.nodes@.len(),
                    orig.len() as int,
                ));
            }
        }
        if self.nodes.len() == 0 {
            proof {
                assert(seq_count(self.nodes@) == 0);
            }
            return removed;
        }
        let ghost p = orig.len() - self.nodes@.len();
        let ghost cur = self.nodes@;
        let item = self.nodes.remove(0);
        let ghost rest = self.nodes@;
        proof {
            assert(item == cur[0]);
            assert(cur[0] == orig[p as int]);
            assert(rest =~= cur.drop_first());
            lemma_wf_drop_first(cur);
            lemma_count_fits(rest);
            lemma_count_span(
                item.children.nodes@,
                item.start as int,
                item.end as int,
            );
        }
        let children_count = item.children.count_bytes();
        let own = (item.end - item.start) - children_count;
        removed = removed + own;
        let mut remaining = item.children;
        proof {
            let os = *old(self);
            assert(decreases_to!(os => os.nodes));
            assert(decreases_to!(os.nodes => os.nodes@));
            assert(decreases_to!(os.nodes@ => os.nodes@[p as int]));
            assert(decreases_to!(os.nodes@[p as int] => os.nodes@[p as int].children));
            assert(decreases_to!(os => os.nodes@[p as int].children));
        }
        let sub = remaining.try_remove_front(want);
        removed = removed + sub;
        let ghost kept = remaining.nodes@;
        remaining.nodes.append(&mut self.nodes);
        self.nodes = remaining.nodes;
        proof {
            assert(self.nodes@ == kept + rest);
            assert(seq_inside(item.children.nodes@, item.start as int, item.end as int));
            assert(seq_inside(kept, item.start as int, item.end as int));
            assert forall|j: int| 0 <= j < rest.len() implies item.end as int <= (
            #[trigger] rest[j]).start by {
                assert(rest[j] == orig[p + 1 + j]);
                assert(orig[p as int].end <= orig[p + 1 + j].start);
            }
            lemma_wf_concat(kept, rest, item.end as int);
            lemma_count_concat(kept, rest);
            assert(seq_count(cur) == (item.end - item.start) + seq_count(rest));
            assert forall|lo: int, hi: int|
                seq_inside(orig, lo, hi) implies seq_inside(self.nodes@, lo, hi) by {
                assert(lo <= orig[p as int].start && orig[p as int].end <= hi);
                assert(seq_inside(kept, lo, hi));
                assert forall|j: int| 0 <= j < self.nodes@.len() implies lo <= (
                #[trigger] self.nodes@[j]).start && self.nodes@[j].end <= hi by {
                    if j < kept.len() {
                        assert(self.nodes@[j] == kept[j]);
                    } else {
                        assert(self.nodes@[j] == rest[j - kept.len()]);
                        assert(rest[j - kept.len()] == orig[p + 1 + j - kept.len()]);
                    }
                }
            }
            if orig.len() > 0 && orig[0].end - orig[0].start <= size_to_remove {
                // The first node fit the quota, so at least one node was
                // peeled before the opened one.
                assert(p >= 1) by {
                    if p == 0 {
                        assert(cur =~= orig);
                    }
                }
                assert forall|k: int|
                    0 <= k < self.nodes@.len() implies orig[0].end as int <= (
                #[trigger] self.nodes@[k]).start by {
                    assert(orig[0].end <= orig[p as int].start);
                    if k < kept.len() {
                        assert(self.nodes@[k] == kept[k]);
                    } else {
                        assert(self.nodes@[k] == rest[k - kept.len()]);
                        assert(rest[k - kept.len()] == orig[p + 1 + k - kept.len()]);
                        assert(orig[0].end <= orig[p + 1 + k - kept.len()].start);
                    }
                }
            }
        }
        removed
    }

    /// The mirror image of `try_remove_front`: peels whole nodes from the
    /// back, then opens the last node that would not fit and continues in
    /// its children, which then stand in its place. Bytes leave from the
    /// back: once the last node fits the quota, everything that remains
    /// ends at or before where it began.
    pub fn try_remove_back(&mut self, size_to_remove: usize) -> (removed: usize)
        requires
            old(self).wf(),
        ensures
            final(self).wf(),
            removed <= old(self).spec_count(),
            final(self).spec_count() == old(self).spec_count() - removed,
            forall|lo: int, hi: int|
                seq_inside(old(self).nodes@, lo, hi) ==> seq_inside(final(self).nodes@, lo, hi),
            size_to_remove >= 1 && old(self).nodes@.len() > 0 ==> removed >= 1,
            old(self).nodes@.len() > 0 && old(self).nodes@[old(self).nodes@.len() - 1].end - old(
                self,
            ).nodes@[old(self).nodes@.len() - 1].start <= size_to_remove ==> forall|k: int|
                0 <= k < final(self).nodes@.len() ==> (#[trigger] final(self).nodes@[k]).end
                    <= old(self).nodes@[old(self).nodes@.len() - 1].start,
        decreases *old(self),
    {
        let ghost orig = self.nodes@;
        proof {
            lemma_count_fits(orig);
        }
        let mut removed: usize = 0;
        let mut want: usize = size_to_remove;
        while self.nodes.len() > 0 && self.nodes[self.nodes.len() - 1].end
            - self.nodes[self.nodes.len() - 1].start <= want
            invariant
                seq_wf(self.nodes@),
                seq_wf(orig),
                self.nodes@.len() <= orig.len(),
                self.nodes@ == orig.subrange(0, self.nodes@.len() as int),
                removed + want == size_to_remove,
                removed == seq_count(orig) - seq_count(self.nodes@),
                0 <= seq_count(self.nodes@) <= seq_count(orig) <= usize::MAX,
            decreases self.nodes@.len(),
        {
            let ghost cur = self.nodes@;
            let last = self.nodes.len() - 1;
            let sz = self.nodes[last].end - self.nodes[last].start;
            removed = removed + sz;
            want = want - sz;
            self.nodes.pop();
            proof {
                assert(self.nodes@ =~= cur.drop_last());
                lemma_prefix_wf(cur, cur.len() - 1);
                assert(self.nodes@ =~= orig.subrange(0, self.nodes@.len() as int));
                lemma_count_concat(self.nodes@, seq![cur[cur.len() - 1]]);
                assert(self.nodes@ + seq![cur[cur.len() - 1]] =~= cur);
                assert(seq_count(Seq::<InterestingNode>::empty()) == 0);
                assert(seq![cur[cur.len() - 1]].drop_first() =~= Seq::<InterestingNode>::empty());
                assert(seq_count(seq![cur[cur.len() - 1]]) == cur[cur.len() - 1].end - cur[
                    cur.len() - 1].start);
                lemma_count_fits(self.nodes@);
            }
        }
        if self.nodes.len() == 0 {
            proof {
                assert(seq_count(self.nodes@) == 0);
            }
            return removed;
        }
        let ghost cur = self.nodes@;
        let ghost p = cur.len() - 1;
        let item = match self.nodes.pop() {
            Some(n) => n,
            None => {
                proof {
                    assert(false);
                }
                return 0;
            },
        };
        let ghost front = self.nodes@;
        proof {
            assert(item == cur[p]);
            assert(cur[p] == orig[p]);
            assert(front =~= cur.drop_last());
            lemma_prefix_wf(cur, p);
            lemma_count_fits(front);
            lemma_count_concat(front, seq![item]);
            assert(front + seq![item] =~= cur);
            assert(seq_count(Seq::<InterestingNode>::empty()) == 0);
            assert(seq![item].drop_first() =~= Seq::<InterestingNode>::empty());
            assert(seq_count(seq![item]) == item.end - item.start);
            lemma_count_span(item.children.nodes@, item.start as int, item.end as int);
        }
        let children_count = item.children.count_bytes();
        let own = (item.end - item.start) - children_count;
        removed = removed + own;
        let mut remaining = item.children;
        proof {
            let os = *old(self);
            assert(decreases_to!(os => os.nodes));
            assert(decreases_to!(os.nodes => os.nodes@));
            assert(decreases_to!(os.nodes@ => os.nodes@[p]));
            assert(decreases_to!(os.nodes@[p] => os.nodes@[p].children));
            assert(decreases_to!(os => os.nodes@[p].children));
        }
        let sub = remaining.try_remove_back(want);
        removed = removed + sub;
        let ghost kept = remaining.nodes@;
        self.nodes.append(&mut remaining.nodes);
        proof {
            assert(self.nodes@ == front + kept);
            assert(seq_inside(item.children.nodes@, item.start as int, item.end as int));
            assert(seq_inside(kept, item.start as int, item.end as int));
            assert forall|j: int| 0 <= j < front.len() implies (#[trigger] front[j]).end
                <= item.start as int by {
                assert(front[j] == orig[j]);
                assert(orig[j].end <= orig[p].start);
            }
            lemma_wf_concat(front, kept, item.start as int);
            lemma_count_concat(front, kept);
            assert forall|lo: int, hi: int|
                seq_inside(orig, lo, hi) implies seq_inside(self.nodes@, lo, hi) by {
                assert(lo <= orig[p].start && orig[p].end <= hi);
                assert(seq_inside(kept, lo, hi));
                assert forall|j: int| 0 <= j < self.nodes@.len() implies lo <= (
                #[trigger] self.nodes@[j]).start && self.nodes@[j].end <= hi by {
                    if j < front.len() {
                        assert(self.nodes@[j] == front[j]);
                        assert(front[j] == orig[j]);
                    } else {
                        assert(self.nodes@[j] == kept[j - front.len()]);
                    }
                }
            }
            if orig.len() > 0 && orig[orig.len() - 1].end - orig[orig.len() - 1].start
                <= size_to_remove {
                // The last node fit the quota, so at least one node was
                // peeled before the opened one.
                assert(p < orig.len() - 1) by {
                    if cur.len() == orig.len() {
                        assert(cur =~= orig);
                    }
                }
                assert forall|k: int|
                    0 <= k < self.nodes@.len() implies (#[trigger] self.nodes@[k]).end <= orig[
                    orig.len() - 1].start as int by {
                    assert(orig[p].end <= orig[orig.len() - 1].start);
                    if k < front.len() {
                        assert(self.nodes@[k] == front[k]);
                        assert(front[k] == orig[k]);
                        assert(orig[k].end <= orig[orig.len() - 1].start);
                    } else {
                        assert(self.nodes@[k] == kept[k - front.len()]);
                    }
                }
            }
        }
        removed
    }
}

/// A prefix of a well-formed list is well-formed.
pub proof fn lemma_prefix_wf(s: Seq<InterestingNode>, k: int)
    requires
        seq_wf(s),
        0 <= k <= s.len(),
    ensures
        seq_wf(s.subrange(0, k)),
{
    let t = s.subrange(0, k);
    assert forall|i: int| 0 <= i < t.len() implies (#[trigger] t[i]).start < t[i].end && seq_wf(
        t[i].children.nodes@,
    ) && seq_inside(t[i].children.nodes@, t[i].start as int, t[i].end as int) by {
        assert(t[i] == s[i]);
    }
    assert forall|i: int, j: int| 0 <= i < j < t.len() implies (#[trigger] t[i]).end <= (
    #[trigger] t[j]).start by {
        assert(t[i] == s[i] && t[j] == s[j]);
    }
}

/// A suffix of a well-formed list is well-formed.
pub proof fn lemma_suffix_wf(s: Seq<InterestingNode>, k: int)
    requires
        seq_wf(s),
        0 <= k <= s.len(),
    ensures
        seq_wf(s.subrange(k, s.len() as int)),
    decreases k,
{
    if k > 0 {
        lemma_wf_drop_first(s);
        lemma_suffix_wf(s.drop_first(), k - 1);
        assert(s.drop_first().subrange(k - 1, s.drop_first().len() as int) =~= s.subrange(
            k,
            s.len() as int,
        ));
    } else {
        assert(s.subrange(0, s.len() as int) =~= s);
    }
}

} // verus!
