//! Byte-level helpers of the tree-sitter pass: splicing an ordered set of
//! range replacements into a file, searching for a byte range inside a
//! replacement, and recognizing ASCII whitespace.

use vstd::prelude::*;

use crate::nodelist::Replacement;

verus! {

/// `reps` is applicable to a file of `len` bytes: each range is ordered and
/// within bounds, and consecutive ranges do not overlap.
pub open spec fn reps_valid(reps: Seq<Replacement>, len: int) -> bool {
    forall|k: int|
        0 <= k < reps.len() ==> (#[trigger] reps[k]).start <= reps[k].end && reps[k].end <= len
            && (k + 1 < reps.len() ==> reps[k].end <= reps[k + 1].start)
}

/// The spliced tail from replacement `k` on, with the read cursor at `cur`.
pub open spec fn splice_rec(s: Seq<u8>, reps: Seq<Replacement>, k: int, cur: int) -> Seq<u8>
    decreases reps.len() - k,
{
    if k < 0 || k >= reps.len() {
        s.subrange(cur, s.len() as int)
    } else {
        s.subrange(cur, reps[k].start as int) + reps[k].with@ + splice_rec(
            s,
            reps,
            k + 1,
            reps[k].end as int,
        )
    }
}

/// The file with every replacement applied: bytes are copied up to each
/// range's start, the replacement bytes stand in for the range, and the
/// cursor continues after the range's end.
pub open spec fn splice_spec(s: Seq<u8>, reps: Seq<Replacement>) -> Seq<u8> {
    splice_rec(s, reps, 0, 0)
}

/// Applies the ordered replacements `reps` to `contents`.
pub fn splice(contents: &Vec<u8>, reps: &Vec<Replacement>) -> (r: Vec<u8>)
    requires
        reps_valid(reps@, contents@.len() as int),
    ensures
        r@ == splice_spec(contents@, reps@),
{
    let mut out: Vec<u8> = Vec::new();
    let mut cursor: usize = 0;
    let mut k: usize = 0;
    while k < reps.len()
        invariant
            reps_valid(reps@, contents@.len() as int),
            k <= reps@.len(),
            k > 0 ==> cursor == reps@[k - 1].end,
            k == 0 ==> cursor == 0,
            cursor <= contents@.len(),
            k < reps@.len() ==> cursor <= reps@[k as int].start,
            splice_spec(contents@, reps@) == out@ + splice_rec(
                contents@,
                reps@,
                k as int,
                cursor as int,
            ),
        decreases reps@.len() - k,
    {
        let start = reps[k].start;
        let end = reps[k].end;
        let ghost mid = out@;
        let mut i: usize = cursor;
        while i < start
            invariant
                cursor <= i <= start,
                start <= contents@.len(),
                out@ == mid + contents@.subrange(cursor as int, i as int),
            decreases start - i,
        {
            out.push(contents[i]);
            proof {
                assert(out@ =~= mid + contents@.subrange(cursor as int, i + 1));
            }
            i = i + 1;
        }
        let ghost mid2 = out@;
        let rep = &reps[k].with;
        let mut j: usize = 0;
        while j < rep.len()
            invariant
                j <= rep@.len(),
                out@ == mid2 + rep@.subrange(0, j as int),
            decreases rep@.len() - j,
        {
            out.push(rep[j]);
            proof {
                assert(out@ =~= mid2 + rep@.subrange(0, j + 1));
            }
            j = j + 1;
        }
        proof {
            assert(rep@.subrange(0, rep@.len() as int) =~= rep@);
            assert(contents@.subrange(cursor as int, start as int) + rep@ =~= out@.subrange(
                mid.len() as int,
                out@.len() as int,
            ));
            assert(out@ =~= mid + (contents@.subrange(cursor as int, start as int) + rep@));
            assert(splice_rec(contents@, reps@, k as int, cursor as int) == contents@.subrange(
                cursor as int,
                start as int,
            ) + rep@ + splice_rec(contents@, reps@, k + 1, end as int));
            assert(splice_spec(contents@, reps@) == out@ + splice_rec(
                contents@,
                reps@,
                k + 1,
                end as int,
            ));
        }
        cursor = end;
        k = k + 1;
    }
    let ghost mid = out@;
    let mut i: usize = cursor;
    while i < contents.len()
        invariant
            cursor <= i <= contents@.len(),
            out@ == mid + contents@.subrange(cursor as int, i as int),
        decreases contents@.len() - i,
    {
        out.push(contents[i]);
        proof {
            assert(out@ =~= mid + contents@.subrange(cursor as int, i + 1));
        }
        i = i + 1;
    }
    proof {
        assert(splice_rec(contents@, reps@, k as int, cursor as int) == contents@.subrange(
            cursor as int,
            contents@.len() as int,
        ));
        assert(out@ =~= mid + contents@.subrange(cursor as int, contents@.len() as int));
    }
    out
}

/// Length of a splice: the original length, minus the bytes the ranges
/// cover, plus the bytes the replacements bring.
pub proof fn lemma_splice_len(s: Seq<u8>, reps: Seq<Replacement>)
    requires
        reps_valid(reps, s.len() as int),
    ensures
        splice_spec(s, reps).len() == s.len() - reps_removed_from(reps, 0) + reps_added_from(
            reps,
            0,
        ),
{
    lemma_splice_rec_len(s, reps, 0, 0);
}

proof fn lemma_splice_rec_len(s: Seq<u8>, reps: Seq<Replacement>, k: int, cur: int)
    requires
        reps_valid(reps, s.len() as int),
        0 <= cur <= s.len(),
        0 <= k <= reps.len(),
        k < reps.len() ==> cur <= reps[k].start,
    ensures
        splice_rec(s, reps, k, cur).len() == s.len() - cur - reps_removed_from(reps, k)
            + reps_added_from(reps, k),
    decreases reps.len() - k,
{
    if k < reps.len() {
        lemma_splice_rec_len(s, reps, k + 1, reps[k].end as int);
    }
}

/// Bytes covered by the ranges from `k` on.
pub open spec fn reps_removed_from(reps: Seq<Replacement>, k: int) -> int
    decreases reps.len() - k,
{
    if k < 0 || k >= reps.len() {
        0
    } else {
        reps[k].end - reps[k].start + reps_removed_from(reps, k + 1)
    }
}

/// Bytes brought by the replacements from `k` on.
pub open spec fn reps_added_from(reps: Seq<Replacement>, k: int) -> int
    decreases reps.len() - k,
{
    if k < 0 || k >= reps.len() {
        0
    } else {
        reps[k].with@.len() + reps_added_from(reps, k + 1)
    }
}

/// When the replacements bring fewer bytes than their ranges cover, the
/// spliced file is strictly shorter than the original, so a promoted
/// reduction along this pathway never hands back the same content.
pub proof fn lemma_splice_shrinks(s: Seq<u8>, reps: Seq<Replacement>)
    requires
        reps_valid(reps, s.len() as int),
        reps_added_from(reps, 0) < reps_removed_from(reps, 0),
    ensures
        splice_spec(s, reps).len() < s.len(),
        splice_spec(s, reps) != s,
{
    lemma_splice_rec_len(s, reps, 0, 0);
}

/// One guarded replacement always changes the file: if the replacement's
/// length differs from the range's, the spliced file has another length;
/// at equal length, a replacement that does not contain the range's bytes
/// cannot equal them, so the spliced file differs inside the range. This
/// is why the growth guard keeps a reported reduction from handing the
/// original contents back.
pub proof fn lemma_single_splice_differs(s: Seq<u8>, rep: Replacement)
    requires
        (rep.start as int) < rep.end as int,
        rep.end as int <= s.len(),
        !contains_seq(rep.with@, s.subrange(rep.start as int, rep.end as int)),
    ensures
        splice_spec(s, seq![rep]) != s,
{
    let reps = seq![rep];
    let st = rep.start as int;
    let en = rep.end as int;
    let bytes = s.subrange(st, en);
    assert(reps_valid(reps, s.len() as int)) by {
        assert forall|k: int|
            0 <= k < reps.len() implies (#[trigger] reps[k]).start <= reps[k].end && reps[k].end
            <= s.len() && (k + 1 < reps.len() ==> reps[k].end <= reps[k + 1].start) by {
            assert(reps[k] == rep);
        }
    }
    let out = splice_spec(s, reps);
    assert(out == s.subrange(0, st) + rep.with@ + s.subrange(en, s.len() as int)) by {
        assert(splice_rec(s, reps, 1, en) == s.subrange(en, s.len() as int));
    }
    if rep.with@.len() != en - st {
        lemma_splice_rec_len(s, reps, 0, 0);
        assert(out.len() != s.len());
    } else {
        if out == s {
            assert(rep.with@ =~= bytes) by {
                assert forall|q: int|
                    0 <= q < rep.with@.len() implies rep.with@[q] == bytes[q] by {
                    assert(out[st + q] == rep.with@[q]);
                    assert(s[st + q] == bytes[q]);
                }
            }
            assert(contains_seq(rep.with@, bytes)) by {
                assert(0 <= 0 && 0 + bytes.len() <= rep.with@.len() && rep.with@.subrange(
                    0,
                    0 + bytes.len() as int,
                ) =~= bytes);
            }
            assert(false);
        }
    }
}

/// `h` contains the byte range `n` somewhere.
pub open spec fn contains_seq(h: Seq<u8>, n: Seq<u8>) -> bool {
    exists|i: int| 0 <= i && i + n.len() <= h.len() && #[trigger] h.subrange(i, i + n.len() as int) == n
}

/// Whether the node bytes `contents[start .. end]` occur inside `hay`; used
/// by the growth guard of the tree-sitter pass.
pub fn contains_range(hay: &Vec<u8>, contents: &Vec<u8>, start: usize, end: usize) -> (r: bool)
    requires
        start < end <= contents@.len(),
    ensures
        r == contains_seq(hay@, contents@.subrange(start as int, end as int)),
{
    let n = end - start;
    let ghost needle = contents@.subrange(start as int, end as int);
    if n > hay.len() {
        return false;
    }
    let mut i: usize = 0;
    while i <= hay.len() - n
        invariant
            start < end <= contents@.len(),
            n == end - start,
            n == needle.len(),
            n <= hay@.len(),
            hay@.len() <= usize::MAX,
            needle == contents@.subrange(start as int, end as int),
            forall|p: int| 0 <= p < i ==> #[trigger] hay@.subrange(p, p + n as int) != needle,
        decreases hay@.len() - i,
    {
        let mut j: usize = 0;
        let mut all_eq = true;
        while j < n
            invariant
                start < end <= contents@.len(),
                n == end - start,
                n == needle.len(),
                i + n <= hay@.len(),
                hay@.len() <= usize::MAX,
                j <= n,
                needle == contents@.subrange(start as int, end as int),
                all_eq == (forall|q: int| 0 <= q < j ==> hay@[i + q] == needle[q]),
            decreases n - j,
        {
            proof {
                assert(needle[j as int] == contents@[start + j]);
            }
            if hay[i + j] != contents[start + j] {
                all_eq = false;
                proof {
                    assert(hay@[i + j] != needle[j as int]);
                }
                j = n;
            } else {
                j = j + 1;
            }
        }
        if all_eq {
            proof {
                assert(hay@.subrange(i as int, i + n as int) =~= needle);
            }
            return true;
        }
        proof {
            assert(hay@.subrange(i as int, i + n as int) != needle) by {
                let q = choose|q: int| 0 <= q < n && hay@[i + q] != needle[q];
                assert(hay@.subrange(i as int, i + n as int)[q] == hay@[i + q]);
            }
        }
        i = i + 1;
    }
    proof {
        assert forall|p: int|
            0 <= p && p + needle.len() <= hay@.len() implies #[trigger] hay@.subrange(
            p,
            p + needle.len() as int,
        ) != needle by {
            assert(p < i);
        }
    }
    false
}

/// ASCII whitespace, as `u8::is_ascii_whitespace` defines it: space, tab,
/// line feed, form feed, carriage return.
pub open spec fn is_ascii_ws(b: u8) -> bool {
    b == 0x20 || b == 0x09 || b == 0x0a || b == 0x0c || b == 0x0d
}

/// Whether every byte of `contents[start .. end]` is ASCII whitespace.
pub fn all_whitespace(contents: &Vec<u8>, start: usize, end: usize) -> (r: bool)
    requires
        start <= end <= contents@.len(),
    ensures
        r == forall|i: int| start <= i < end ==> is_ascii_ws(#[trigger] contents@[i]),
{
    let mut i: usize = start;
    while i < end
        invariant
            start <= i <= end <= contents@.len(),
            forall|p: int| start <= p < i ==> is_ascii_ws(#[trigger] contents@[p]),
        decreases end - i,
    {
        let b = contents[i];
        if !(b == 0x20 || b == 0x09 || b == 0x0a || b == 0x0c || b == 0x0d) {
            return false;
        }
        i = i + 1;
    }
    true
}

} // verus!
