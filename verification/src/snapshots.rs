//! Snapshot bookkeeping decisions: timestamp names are compared
//! lexicographically (which, for the fixed-width names the library writes,
//! is chronological order), resumption picks the latest name, and
//! retention removes the oldest names until at most the configured number
//! remain.

use vstd::prelude::*;

use vstd::multiset::Multiset;
use vstd::string::StringSliceAdditionalSpecFns;
use vstd::utf8::encode_utf8;

verus! {

/// Byte-wise lexicographic order.
pub open spec fn lex_le(a: Seq<u8>, b: Seq<u8>) -> bool
    decreases a.len(),
{
    if a.len() == 0 {
        true
    } else if b.len() == 0 {
        false
    } else if a[0] < b[0] {
        true
    } else if a[0] > b[0] {
        false
    } else {
        lex_le(a.drop_first(), b.drop_first())
    }
}

/// Lexicographic order is total.
pub proof fn lemma_lex_total(a: Seq<u8>, b: Seq<u8>)
    ensures
        lex_le(a, b) || lex_le(b, a),
    decreases a.len(),
{
    if a.len() > 0 && b.len() > 0 && a[0] == b[0] {
        lemma_lex_total(a.drop_first(), b.drop_first());
    }
}

/// The byte string a name is ordered by.
pub open spec fn name_bytes(s: String) -> Seq<u8> {
    encode_utf8(s@)
}

/// Whether `a` sorts at or before `b`, by their UTF-8 bytes.
pub fn str_le(a: &String, b: &String) -> (r: bool)
    ensures
        r == lex_le(name_bytes(*a), name_bytes(*b)),
{
    let ab = a.as_str().as_bytes();
    let bb = b.as_str().as_bytes();
    proof {
        assert(ab@.subrange(0, ab@.len() as int) =~= ab@);
        assert(bb@.subrange(0, bb@.len() as int) =~= bb@);
    }
    let mut i: usize = 0;
    while i < ab.len() && i < bb.len()
        invariant
            i <= ab@.len(),
            i <= bb@.len(),
            ab@ == name_bytes(*a),
            bb@ == name_bytes(*b),
            lex_le(name_bytes(*a), name_bytes(*b)) == lex_le(
                ab@.subrange(i as int, ab@.len() as int),
                bb@.subrange(i as int, bb@.len() as int),
            ),
            forall|p: int| 0 <= p < i ==> ab@[p] == bb@[p],
        decreases ab@.len() - i,
    {
        let x = ab[i];
        let y = bb[i];
        let ghost sa = ab@.subrange(i as int, ab@.len() as int);
        let ghost sb = bb@.subrange(i as int, bb@.len() as int);
        proof {
            assert(sa[0] == ab@[i as int] && sb[0] == bb@[i as int]);
            assert(sa.drop_first() =~= ab@.subrange(i + 1, ab@.len() as int));
            assert(sb.drop_first() =~= bb@.subrange(i + 1, bb@.len() as int));
        }
        if x < y {
            return true;
        }
        if x > y {
            return false;
        }
        i = i + 1;
    }
    proof {
        let sa = ab@.subrange(i as int, ab@.len() as int);
        let sb = bb@.subrange(i as int, bb@.len() as int);
        if i == ab@.len() {
            assert(sa.len() == 0);
        } else {
            assert(sb.len() == 0 && sa.len() > 0);
        }
    }
    i == ab.len()
}

/// The index of the lexicographically last name: the latest snapshot.
/// `None` exactly when there are no names.
pub fn latest_snapshot(names: &Vec<String>) -> (r: Option<usize>)
    ensures
        match r {
            None => names@.len() == 0,
            Some(i) => i < names@.len() && forall|j: int|
                0 <= j < names@.len() ==> lex_le(
                    name_bytes(#[trigger] names@[j]),
                    name_bytes(names@[i as int]),
                ),
        },
{
    if names.len() == 0 {
        return None;
    }
    let mut best: usize = 0;
    let mut k: usize = 1;
    proof {
        lemma_lex_refl(name_bytes(names@[0]));
    }
    while k < names.len()
        invariant
            best < k <= names@.len(),
            forall|j: int|
                0 <= j < k ==> lex_le(
                    name_bytes(#[trigger] names@[j]),
                    name_bytes(names@[best as int]),
                ),
        decreases names@.len() - k,
    {
        if str_le(&names[best], &names[k]) {
            proof {
                assert forall|j: int|
                    0 <= j < k + 1 implies lex_le(
                    name_bytes(#[trigger] names@[j]),
                    name_bytes(names@[k as int]),
                ) by {
                    if j < k {
                        lemma_lex_trans(
                            name_bytes(names@[j]),
                            name_bytes(names@[best as int]),
                            name_bytes(names@[k as int]),
                        );
                    } else {
                        lemma_lex_refl(name_bytes(names@[k as int]));
                    }
                }
            }
            best = k;
        } else {
            proof {
                lemma_lex_total(name_bytes(names@[best as int]), name_bytes(names@[k as int]));
            }
        }
        k = k + 1;
    }
    Some(best)
}

/// Lexicographic order is reflexive.
pub proof fn lemma_lex_refl(a: Seq<u8>)
    ensures
        lex_le(a, a),
    decreases a.len(),
{
    if a.len() > 0 {
        lemma_lex_refl(a.drop_first());
    }
}

/// Lexicographic order is transitive.
pub proof fn lemma_lex_trans(a: Seq<u8>, b: Seq<u8>, c: Seq<u8>)
    requires
        lex_le(a, b),
        lex_le(b, c),
    ensures
        lex_le(a, c),
    decreases a.len(),
{
    if a.len() > 0 && b.len() > 0 && c.len() > 0 {
        if a[0] == b[0] && b[0] == c[0] {
            lemma_lex_trans(a.drop_first(), b.drop_first(), c.drop_first());
        }
    }
}

/// Splits the snapshot names into those to delete and those to keep:
/// at most `max_snapshots` names are kept, they are the latest ones (every
/// deleted name sorts at or before every kept one), and nothing is lost or
/// invented.
pub fn snapshots_to_remove(names: Vec<String>, max_snapshots: usize) -> (r: (
    Vec<String>,
    Vec<String>,
))
    ensures
        r.0@.len() + r.1@.len() == names@.len(),
        r.1@.len() <= max_snapshots,
        names@.len() <= max_snapshots ==> r.0@.len() == 0,
        names@.len() > max_snapshots ==> r.1@.len() == max_snapshots,
        names@.to_multiset() == r.0@.to_multiset().add(r.1@.to_multiset()),
        forall|i: int, j: int|
            0 <= i < r.0@.len() && 0 <= j < r.1@.len() ==> lex_le(
                name_bytes(#[trigger] r.0@[i]),
                name_bytes(#[trigger] r.1@[j]),
            ),
{
    let mut keep = names;
    let mut removed: Vec<String> = Vec::new();
    let ghost all = keep@;
    proof {
        broadcast use vstd::seq_lib::group_to_multiset_ensures;

        assert(removed@.to_multiset().len() == 0);
        assert(removed@.to_multiset() =~= Multiset::<String>::empty());
        assert(removed@.to_multiset().add(keep@.to_multiset()) =~= keep@.to_multiset());
    }
    while keep.len() > max_snapshots
        invariant
            removed@.len() + keep@.len() == all.len(),
            removed@.len() == 0 ==> keep@ == all,
            removed@.len() > 0 ==> keep@.len() >= max_snapshots,
            all.to_multiset() == removed@.to_multiset().add(keep@.to_multiset()),
            forall|i: int, j: int|
                0 <= i < removed@.len() && 0 <= j < keep@.len() ==> lex_le(
                    name_bytes(#[trigger] removed@[i]),
                    name_bytes(#[trigger] keep@[j]),
                ),
        decreases keep@.len(),
    {
        // Find the lexicographically smallest remaining name.
        let mut smallest: usize = 0;
        let mut k: usize = 1;
        proof {
            lemma_lex_refl(name_bytes(keep@[0]));
        }
        while k < keep.len()
            invariant
                keep@.len() > 0,
                smallest < k <= keep@.len(),
                forall|j: int|
                    0 <= j < k ==> lex_le(
                        name_bytes(keep@[smallest as int]),
                        name_bytes(#[trigger] keep@[j]),
                    ),
            decreases keep@.len() - k,
        {
            if str_le(&keep[k], &keep[smallest]) {
                proof {
                    assert forall|j: int|
                        0 <= j < k + 1 implies lex_le(
                        name_bytes(keep@[k as int]),
                        name_bytes(#[trigger] keep@[j]),
                    ) by {
                        if j < k {
                            lemma_lex_trans(
                                name_bytes(keep@[k as int]),
                                name_bytes(keep@[smallest as int]),
                                name_bytes(keep@[j]),
                            );
                        } else {
                            lemma_lex_refl(name_bytes(keep@[k as int]));
                        }
                    }
                }
                smallest = k;
            } else {
                proof {
                    lemma_lex_total(
                        name_bytes(keep@[k as int]),
                        name_bytes(keep@[smallest as int]),
                    );
                }
            }
            k = k + 1;
        }
        let ghost keep_pre = keep@;
        let ghost removed_pre = removed@;
        let m = keep.remove(smallest);
        removed.push(m);
        proof {
            broadcast use vstd::seq_lib::group_to_multiset_ensures;

            assert(keep@ =~= keep_pre.remove(smallest as int));
            assert(removed@ =~= removed_pre.push(m));
            assert(keep@.to_multiset() =~= keep_pre.to_multiset().remove(m));
            assert(removed@.to_multiset() =~= removed_pre.to_multiset().insert(m));
            assert(keep_pre.to_multiset().count(m) > 0) by {
                assert(keep_pre.contains(m)) by {
                    assert(keep_pre[smallest as int] == m);
                }
            }
            assert(removed_pre.to_multiset().insert(m).add(keep_pre.to_multiset().remove(m))
                =~= removed_pre.to_multiset().add(keep_pre.to_multiset()));
            assert forall|i: int, j: int|
                0 <= i < removed@.len() && 0 <= j < keep@.len() implies lex_le(
                name_bytes(#[trigger] removed@[i]),
                name_bytes(#[trigger] keep@[j]),
            ) by {
                let orig_j: int = if j < smallest {
                    j
                } else {
                    j + 1
                };
                assert(keep@[j] == keep_pre[orig_j]);
                if i < removed_pre.len() {
                    assert(removed@[i] == removed_pre[i]);
                } else {
                    assert(removed@[i] == m);
                }
            }
        }
    }
    (removed, keep)
}

} // verus!
