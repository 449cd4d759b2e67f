//! The logical-line model: splitting a file into lines (line feeds end a
//! line, a carriage return before a line feed is dropped), rebuilding a
//! file from a subset of its lines, and trimming trailing whitespace.
//!
//! Rebuilding writes every kept line followed by one line feed, so a file
//! with at least one line removed never equals the original: either the
//! line-feed counts differ, or the rebuilt file ends in a line feed where
//! the original did not.

use vstd::prelude::*;

use crate::bytes::is_ascii_ws;

verus! {

/// Index of the first line feed at or after `from`, or the length.
pub open spec fn first_nl_from(s: Seq<u8>, from: int) -> int
    decreases s.len() - from,
{
    if from < 0 || from >= s.len() {
        s.len() as int
    } else if s[from] == 10 {
        from
    } else {
        first_nl_from(s, from + 1)
    }
}

/// Drops one carriage return from the end of a line that a line feed ended.
pub open spec fn chomp_cr(l: Seq<u8>) -> Seq<u8> {
    if l.len() > 0 && l[l.len() - 1] == 13 {
        l.drop_last()
    } else {
        l
    }
}

/// The logical lines of `s` from `from` on: segments between line feeds,
/// each with a carriage return before the line feed dropped; a last
/// segment without a line feed counts if nonempty.
pub open spec fn lines_from(s: Seq<u8>, from: int) -> Seq<Seq<u8>>
    decreases s.len() - from,
    via lines_from_decreases
{
    if from < 0 || from >= s.len() {
        Seq::empty()
    } else {
        let j = first_nl_from(s, from);
        if j == s.len() {
            seq![s.subrange(from, j)]
        } else {
            seq![chomp_cr(s.subrange(from, j))] + lines_from(s, j + 1)
        }
    }
}

#[via_fn]
proof fn lines_from_decreases(s: Seq<u8>, from: int) {
    if 0 <= from < s.len() {
        lemma_first_nl(s, from);
    }
}

/// The logical lines of `s`.
pub open spec fn lines_spec(s: Seq<u8>) -> Seq<Seq<u8>> {
    lines_from(s, 0)
}

/// The first line feed is a line feed, and nothing before it is one.
pub proof fn lemma_first_nl(s: Seq<u8>, from: int)
    requires
        0 <= from <= s.len(),
    ensures
        from <= first_nl_from(s, from) <= s.len(),
        first_nl_from(s, from) < s.len() ==> s[first_nl_from(s, from)] == 10,
        forall|p: int| from <= p < first_nl_from(s, from) ==> s[p] != 10,
    decreases s.len() - from,
{
    if from < s.len() && s[from] != 10 {
        lemma_first_nl(s, from + 1);
    }
}

/// Finds the first line feed at or after `from`.
pub fn find_nl(s: &Vec<u8>, from: usize) -> (j: usize)
    requires
        from <= s@.len(),
    ensures
        j == first_nl_from(s@, from as int),
        from <= j <= s@.len(),
{
    proof {
        lemma_first_nl(s@, from as int);
    }
    let mut j: usize = from;
    while j < s.len() && s[j] != 10
        invariant
            from <= j <= s@.len(),
            first_nl_from(s@, from as int) == first_nl_from(s@, j as int),
        decreases s@.len() - j,
    {
        j = j + 1;
    }
    j
}

/// The spans (start, end) of the logical lines of `s`, in order; each span
/// selects exactly the line's bytes inside `s`.
pub fn logical_lines(s: &Vec<u8>) -> (r: Vec<(usize, usize)>)
    ensures
        r@.len() == lines_spec(s@).len(),
        forall|k: int|
            0 <= k < r@.len() ==> (#[trigger] r@[k]).0 <= r@[k].1 <= s@.len() && s@.subrange(
                r@[k].0 as int,
                r@[k].1 as int,
            ) == lines_spec(s@)[k],
    {
    let mut out: Vec<(usize, usize)> = Vec::new();
    let mut from: usize = 0;
    while from < s.len()
        invariant
            from <= s@.len(),
            lines_spec(s@) == out@.map_values(
                |p: (usize, usize)| s@.subrange(p.0 as int, p.1 as int),
            ) + lines_from(s@, from as int),
            forall|k: int|
                0 <= k < out@.len() ==> (#[trigger] out@[k]).0 <= out@[k].1 <= s@.len(),
        decreases s@.len() - from,
    {
        let ghost pre = out@;
        let j = find_nl(s, from);
        if j == s.len() {
            out.push((from, j));
            proof {
                assert(out@.map_values(|p: (usize, usize)| s@.subrange(p.0 as int, p.1 as int))
                    =~= pre.map_values(|p: (usize, usize)| s@.subrange(p.0 as int, p.1 as int))
                    + seq![s@.subrange(from as int, j as int)]);
                assert(lines_from(s@, from as int) == seq![s@.subrange(from as int, j as int)]);
                assert(lines_spec(s@) =~= out@.map_values(
                    |p: (usize, usize)| s@.subrange(p.0 as int, p.1 as int),
                ) + lines_from(s@, s@.len() as int));
            }
            from = s.len();
        } else {
            let e = if j > from && s[j - 1] == 13 {
                j - 1
            } else {
                j
            };
            out.push((from, e));
            proof {
                assert(s@.subrange(from as int, e as int) =~= chomp_cr(
                    s@.subrange(from as int, j as int),
                )) by {
                    if j > from && s@[j - 1] == 13 {
                        assert(s@.subrange(from as int, j as int).drop_last() =~= s@.subrange(
                            from as int,
                            j - 1,
                        ));
                    }
                }
                assert(out@.map_values(|p: (usize, usize)| s@.subrange(p.0 as int, p.1 as int))
                    =~= pre.map_values(|p: (usize, usize)| s@.subrange(p.0 as int, p.1 as int))
                    + seq![chomp_cr(s@.subrange(from as int, j as int))]);
                assert(lines_from(s@, from as int) == seq![chomp_cr(
                    s@.subrange(from as int, j as int),
                )] + lines_from(s@, j + 1));
                assert(lines_spec(s@) =~= out@.map_values(
                    |p: (usize, usize)| s@.subrange(p.0 as int, p.1 as int),
                ) + lines_from(s@, j + 1));
            }
            from = j + 1;
        }
    }
    proof {
        assert(lines_from(s@, from as int) =~= Seq::<Seq<u8>>::empty());
        assert(lines_spec(s@) =~= out@.map_values(
            |p: (usize, usize)| s@.subrange(p.0 as int, p.1 as int),
        ));
    }
    out
}

/// The rebuilt file from line `k` on: every line whose index is outside
/// `lo .. hi`, followed by one line feed.
pub open spec fn joined_kept(lines: Seq<Seq<u8>>, lo: int, hi: int, k: int) -> Seq<u8>
    decreases lines.len() - k,
{
    if k < 0 || k >= lines.len() {
        Seq::empty()
    } else if lo <= k < hi {
        joined_kept(lines, lo, hi, k + 1)
    } else {
        lines[k] + seq![10u8] + joined_kept(lines, lo, hi, k + 1)
    }
}

/// Rebuilds the file, keeping every line whose index is outside
/// `lo .. hi` and ending each kept line with a line feed.
pub fn remove_line_range(s: &Vec<u8>, spans: &Vec<(usize, usize)>, lo: usize, hi: usize) -> (r:
    Vec<u8>)
    requires
        spans@.len() == lines_spec(s@).len(),
        forall|k: int|
            0 <= k < spans@.len() ==> (#[trigger] spans@[k]).0 <= spans@[k].1 <= s@.len()
                && s@.subrange(spans@[k].0 as int, spans@[k].1 as int) == lines_spec(s@)[k],
    ensures
        r@ == joined_kept(lines_spec(s@), lo as int, hi as int, 0),
{
    let mut out: Vec<u8> = Vec::new();
    let mut k: usize = 0;
    while k < spans.len()
        invariant
            k <= spans@.len(),
            spans@.len() == lines_spec(s@).len(),
            forall|q: int|
                0 <= q < spans@.len() ==> (#[trigger] spans@[q]).0 <= spans@[q].1 <= s@.len()
                    && s@.subrange(spans@[q].0 as int, spans@[q].1 as int) == lines_spec(s@)[q],
            joined_kept(lines_spec(s@), lo as int, hi as int, 0) == out@ + joined_kept(
                lines_spec(s@),
                lo as int,
                hi as int,
                k as int,
            ),
        decreases spans@.len() - k,
    {
        if !(lo <= k && k < hi) {
            let ghost pre = out@;
            let start = spans[k].0;
            let end = spans[k].1;
            let mut i: usize = start;
            while i < end
                invariant
                    start <= i <= end <= s@.len(),
                    out@ == pre + s@.subrange(start as int, i as int),
                decreases end - i,
            {
                out.push(s[i]);
                proof {
                    assert(out@ =~= pre + s@.subrange(start as int, i + 1));
                }
                i = i + 1;
            }
            out.push(10);
            proof {
                assert(out@ =~= pre + (lines_spec(s@)[k as int] + seq![10u8]));
            }
        }
        k = k + 1;
    }
    proof {
        assert(joined_kept(lines_spec(s@), lo as int, hi as int, spans@.len() as int)
            =~= Seq::<u8>::empty());
        assert(joined_kept(lines_spec(s@), lo as int, hi as int, 0) =~= out@);
    }
    out
}

/// Number of line feeds in `s`.
pub open spec fn count_nl(s: Seq<u8>) -> int
    decreases s.len(),
{
    if s.len() == 0 {
        0
    } else {
        (if s[0] == 10 {
            1int
        } else {
            0int
        }) + count_nl(s.drop_first())
    }
}

/// Line feeds add up over concatenation.
pub proof fn lemma_count_nl_concat(a: Seq<u8>, b: Seq<u8>)
    ensures
        count_nl(a + b) == count_nl(a) + count_nl(b),
    decreases a.len(),
{
    if a.len() == 0 {
        assert(a + b =~= b);
    } else {
        assert((a + b).drop_first() =~= a.drop_first() + b);
        lemma_count_nl_concat(a.drop_first(), b);
    }
}

/// A byte string without line feeds has none.
pub proof fn lemma_count_nl_zero(s: Seq<u8>)
    requires
        forall|p: int| 0 <= p < s.len() ==> s[p] != 10,
    ensures
        count_nl(s) == 0,
    decreases s.len(),
{
    if s.len() > 0 {
        lemma_count_nl_zero(s.drop_first());
    }
}

/// Number of indices in `k .. n` that lie outside `lo .. hi`.
pub open spec fn kept_count(n: int, lo: int, hi: int, k: int) -> int
    decreases n - k,
{
    if k < 0 || k >= n {
        0
    } else if lo <= k < hi {
        kept_count(n, lo, hi, k + 1)
    } else {
        1 + kept_count(n, lo, hi, k + 1)
    }
}

/// No logical line contains a line feed.
pub proof fn lemma_lines_no_nl(s: Seq<u8>, from: int)
    requires
        0 <= from,
    ensures
        forall|k: int, p: int|
            0 <= k < lines_from(s, from).len() && 0 <= p < lines_from(s, from)[k].len()
                ==> lines_from(s, from)[k][p] != 10,
    decreases s.len() - from,
{
    if 0 <= from < s.len() {
        let j = first_nl_from(s, from);
        lemma_first_nl(s, from);
        if j < s.len() {
            lemma_lines_no_nl(s, j + 1);
            assert forall|k: int, p: int|
                0 <= k < lines_from(s, from).len() && 0 <= p < lines_from(s, from)[k].len()
                    implies lines_from(s, from)[k][p] != 10 by {
                if k == 0 {
                    let l = chomp_cr(s.subrange(from, j));
                    assert(l[p] == s[from + p]);
                } else {
                    assert(lines_from(s, from)[k] == lines_from(s, j + 1)[k - 1]);
                }
            }
        } else {
            assert forall|k: int, p: int|
                0 <= k < lines_from(s, from).len() && 0 <= p < lines_from(s, from)[k].len()
                    implies lines_from(s, from)[k][p] != 10 by {
                assert(lines_from(s, from)[k] == s.subrange(from, j));
                assert(s.subrange(from, j)[p] == s[from + p]);
            }
        }
    }
}

/// The rebuilt file has one line feed per kept line, provided no line
/// contains one.
pub proof fn lemma_joined_count_nl(lines: Seq<Seq<u8>>, lo: int, hi: int, k: int)
    requires
        forall|q: int, p: int|
            0 <= q < lines.len() && 0 <= p < lines[q].len() ==> lines[q][p] != 10,
        0 <= k,
    ensures
        count_nl(joined_kept(lines, lo, hi, k)) == kept_count(lines.len() as int, lo, hi, k),
    decreases lines.len() - k,
{
    if k < lines.len() {
        lemma_joined_count_nl(lines, lo, hi, k + 1);
        if !(lo <= k < hi) {
            lemma_count_nl_concat(lines[k] + seq![10u8], joined_kept(lines, lo, hi, k + 1));
            lemma_count_nl_concat(lines[k], seq![10u8]);
            lemma_count_nl_zero(lines[k]);
            assert(count_nl(Seq::<u8>::empty()) == 0);
            assert(seq![10u8].drop_first() =~= Seq::<u8>::empty());
            assert(count_nl(seq![10u8]) == 1);
        }
    }
}

/// A nonempty rebuilt file ends in a line feed.
pub proof fn lemma_joined_ends_nl(lines: Seq<Seq<u8>>, lo: int, hi: int, k: int)
    requires
        0 <= k,
    ensures
        joined_kept(lines, lo, hi, k).len() == 0 || joined_kept(lines, lo, hi, k)[joined_kept(
            lines,
            lo,
            hi,
            k,
        ).len() - 1] == 10,
    decreases lines.len() - k,
{
    if k < lines.len() {
        lemma_joined_ends_nl(lines, lo, hi, k + 1);
        if !(lo <= k < hi) {
            let rest = joined_kept(lines, lo, hi, k + 1);
            let own = lines[k] + seq![10u8];
            if rest.len() == 0 {
                assert(joined_kept(lines, lo, hi, k) == own + rest);
                assert((own + rest)[own.len() + rest.len() - 1] == 10);
            } else {
                assert((own + rest)[own.len() + rest.len() - 1] == rest[rest.len() - 1]);
            }
        }
    }
}

/// Line feeds against line count: a file that ends in a line feed has as
/// many line feeds as logical lines; one that does not has one fewer.
pub proof fn lemma_lines_count_nl(s: Seq<u8>, from: int)
    requires
        0 <= from <= s.len(),
    ensures
        from == s.len() ==> count_nl(s.subrange(from, s.len() as int)) == 0 && lines_from(
            s,
            from,
        ).len() == 0,
        from < s.len() && s[s.len() - 1] == 10 ==> count_nl(s.subrange(from, s.len() as int))
            == lines_from(s, from).len(),
        from < s.len() && s[s.len() - 1] != 10 ==> count_nl(s.subrange(from, s.len() as int))
            == lines_from(s, from).len() - 1,
    decreases s.len() - from,
{
    if from == s.len() {
        assert(s.subrange(from, s.len() as int) =~= Seq::<u8>::empty());
    } else {
        let j = first_nl_from(s, from);
        lemma_first_nl(s, from);
        let suffix = s.subrange(from, s.len() as int);
        if j == s.len() {
            lemma_count_nl_zero(suffix);
            assert(s[s.len() - 1] != 10);
        } else {
            lemma_lines_count_nl(s, j + 1);
            assert(suffix =~= s.subrange(from, j) + seq![10u8] + s.subrange(j + 1, s.len() as int));
            lemma_count_nl_concat(s.subrange(from, j) + seq![10u8], s.subrange(j + 1, s.len() as int));
            lemma_count_nl_concat(s.subrange(from, j), seq![10u8]);
            lemma_count_nl_zero(s.subrange(from, j));
            assert(count_nl(Seq::<u8>::empty()) == 0);
            assert(seq![10u8].drop_first() =~= Seq::<u8>::empty());
            assert(count_nl(seq![10u8]) == 1);
            if j + 1 == s.len() {
                assert(s[s.len() - 1] == 10);
            }
        }
    }
}

/// Number of kept indices: removing the nonempty range `lo .. hi` from
/// `0 .. n` keeps fewer than `n` indices.
pub proof fn lemma_kept_count_bounds(n: int, lo: int, hi: int, k: int)
    requires
        0 <= k <= n,
    ensures
        0 <= kept_count(n, lo, hi, k) <= n - k,
        k <= lo < hi && lo < n ==> kept_count(n, lo, hi, k) < n - k,
    decreases n - k,
{
    if k < n {
        lemma_kept_count_bounds(n, lo, hi, k + 1);
    }
}

/// Removing at least one existing line changes the file: the rebuilt file
/// differs from the original.
pub proof fn lemma_removal_changes(s: Seq<u8>, lo: int, hi: int)
    requires
        0 <= lo < hi,
        lo < lines_spec(s).len(),
    ensures
        joined_kept(lines_spec(s), lo, hi, 0) != s,
{
    let lines = lines_spec(s);
    let out = joined_kept(lines, lo, hi, 0);
    lemma_lines_no_nl(s, 0);
    lemma_joined_count_nl(lines, lo, hi, 0);
    lemma_kept_count_bounds(lines.len() as int, lo, hi, 0);
    lemma_lines_count_nl(s, 0);
    assert(s.subrange(0, s.len() as int) =~= s);
    assert(s.len() > 0);
    if s[s.len() - 1] == 10 {
        assert(count_nl(out) < count_nl(s));
    } else {
        if count_nl(out) == count_nl(s) {
            lemma_joined_ends_nl(lines, lo, hi, 0);
            if out.len() == 0 {
                assert(out != s);
            } else {
                assert(out[out.len() - 1] == 10);
                assert(s[s.len() - 1] != 10);
                assert(out != s);
            }
        }
    }
}


/// The line with its trailing ASCII whitespace removed.
pub open spec fn rtrim(l: Seq<u8>) -> Seq<u8>
    decreases l.len(),
{
    if l.len() == 0 {
        l
    } else if is_ascii_ws(l[l.len() - 1]) {
        rtrim(l.drop_last())
    } else {
        l
    }
}

/// The whitespace-discarded file from `from` on: each line is split at
/// line feeds, trailing whitespace is trimmed, and lines that are then
/// empty are dropped; every kept line ends with one line feed.
pub open spec fn discard_ws_from(s: Seq<u8>, from: int) -> Seq<u8>
    decreases s.len() - from,
    via discard_ws_from_decreases
{
    if from < 0 || from >= s.len() {
        Seq::empty()
    } else {
        let j = first_nl_from(s, from);
        let kept = rtrim(s.subrange(from, j));
        let own = if kept.len() == 0 {
            Seq::<u8>::empty()
        } else {
            kept + seq![10u8]
        };
        if j == s.len() {
            own
        } else {
            own + discard_ws_from(s, j + 1)
        }
    }
}

#[via_fn]
proof fn discard_ws_from_decreases(s: Seq<u8>, from: int) {
    if 0 <= from < s.len() {
        lemma_first_nl(s, from);
    }
}

/// Trims end-of-line whitespace and discards lines that are then empty.
pub fn discard_whitespace(s: &Vec<u8>) -> (r: Vec<u8>)
    ensures
        r@ == discard_ws_from(s@, 0),
{
    let mut out: Vec<u8> = Vec::new();
    let mut from: usize = 0;
    while from < s.len()
        invariant
            from <= s@.len(),
            discard_ws_from(s@, 0) == out@ + discard_ws_from(s@, from as int),
        decreases s@.len() - from,
    {
        let j = find_nl(s, from);
        let mut t: usize = j;
        while t > from && (s[t - 1] == 0x20 || s[t - 1] == 0x09 || s[t - 1] == 0x0a || s[t - 1]
            == 0x0c || s[t - 1] == 0x0d)
            invariant
                from <= t <= j <= s@.len(),
                rtrim(s@.subrange(from as int, j as int)) == rtrim(
                    s@.subrange(from as int, t as int),
                ),
            decreases t,
        {
            proof {
                assert(s@.subrange(from as int, t as int).drop_last() =~= s@.subrange(
                    from as int,
                    t - 1,
                ));
            }
            t = t - 1;
        }
        proof {
            if t == from {
                assert(s@.subrange(from as int, t as int) =~= Seq::<u8>::empty());
                assert(rtrim(s@.subrange(from as int, j as int)).len() == 0);
            } else {
                assert(!is_ascii_ws(s@.subrange(from as int, t as int)[t - from - 1]));
                assert(rtrim(s@.subrange(from as int, t as int)) == s@.subrange(
                    from as int,
                    t as int,
                ));
            }
        }
        let ghost pre = out@;
        let ghost kept = rtrim(s@.subrange(from as int, j as int));
        if t > from {
            let mut i: usize = from;
            while i < t
                invariant
                    from <= i <= t <= s@.len(),
                    out@ == pre + s@.subrange(from as int, i as int),
                decreases t - i,
            {
                out.push(s[i]);
                proof {
                    assert(out@ =~= pre + s@.subrange(from as int, i + 1));
                }
                i = i + 1;
            }
            out.push(10);
            proof {
                assert(out@ =~= pre + (kept + seq![10u8]));
            }
        }
        proof {
            if j == s@.len() {
                assert(discard_ws_from(s@, s@.len() as int) =~= Seq::<u8>::empty());
                if t > from {
                    assert(out@ =~= pre + discard_ws_from(s@, from as int));
                } else {
                    assert(out@ =~= pre + discard_ws_from(s@, from as int));
                }
            } else {
                if t > from {
                    assert(discard_ws_from(s@, from as int) == (kept + seq![10u8])
                        + discard_ws_from(s@, j + 1));
                    assert(out@ + discard_ws_from(s@, j + 1) =~= pre + discard_ws_from(
                        s@,
                        from as int,
                    ));
                } else {
                    assert(discard_ws_from(s@, from as int) == Seq::<u8>::empty()
                        + discard_ws_from(s@, j + 1));
                    assert(out@ + discard_ws_from(s@, j + 1) =~= pre + discard_ws_from(
                        s@,
                        from as int,
                    ));
                }
            }
        }
        if j == s.len() {
            from = j;
        } else {
            from = j + 1;
        }
    }
    proof {
        assert(discard_ws_from(s@, from as int) =~= Seq::<u8>::empty());
        assert(out@ =~= out@ + Seq::<u8>::empty());
    }
    out
}

/// Whether two byte vectors hold the same bytes.
pub fn bytes_equal(a: &Vec<u8>, b: &Vec<u8>) -> (r: bool)
    ensures
        r == (a@ == b@),
{
    if a.len() != b.len() {
        proof {
            assert(a@ != b@);
        }
        return false;
    }
    let mut i: usize = 0;
    while i < a.len()
        invariant
            i <= a@.len(),
            a@.len() == b@.len(),
            forall|p: int| 0 <= p < i ==> a@[p] == b@[p],
        decreases a@.len() - i,
    {
        if a[i] != b[i] {
            return false;
        }
        i = i + 1;
    }
    proof {
        assert(a@ =~= b@);
    }
    true
}

} // verus!
