//! Naive exact substring matching.
//!
//! The matcher checks every candidate start offset of the text with a
//! left-to-right byte comparison, recording each offset at which the whole
//! pattern matches. There is no preprocessing and no skipping: overlapping
//! occurrences are all reported, in increasing offset order. An empty pattern
//! matches nothing, and a pattern longer than the text matches nothing.

use vstd::prelude::*;

verus! {

/// Pattern `p` occurs in text `t` at offset `i`: the bytes of `t` from `i`
/// to `i + p.len()` are exactly `p`.
pub open spec fn is_match_at(t: Seq<u8>, p: Seq<u8>, i: int) -> bool {
    &&& 0 <= i
    &&& i + p.len() <= t.len()
    &&& t.subrange(i, i + p.len() as int) == p
}

/// The match offsets of `p` in `t` that are below `n`, in increasing order.
pub open spec fn matches_below(t: Seq<u8>, p: Seq<u8>, n: int) -> Seq<usize>
    decreases n,
{
    if n <= 0 {
        Seq::empty()
    } else if is_match_at(t, p, n - 1) {
        matches_below(t, p, n - 1).push((n - 1) as usize)
    } else {
        matches_below(t, p, n - 1)
    }
}

/// Every offset at which `p` occurs in `t`, in increasing order; empty when
/// the pattern is empty or longer than the text.
pub open spec fn all_matches(t: Seq<u8>, p: Seq<u8>) -> Seq<usize> {
    if p.len() == 0 || p.len() > t.len() {
        Seq::empty()
    } else {
        matches_below(t, p, t.len() - p.len() + 1)
    }
}

/// Finds all offsets at which `p` occurs in `t`, by the naive scan: every
/// candidate offset is tried in increasing order, and the pattern is compared
/// byte by byte, stopping at the first mismatch.
///
/// The result is exactly the set of offsets `i` with `t[i..i + p.len()] == p`,
/// in increasing order. An empty pattern yields no matches, and a pattern
/// longer than the text yields no matches (that guard also keeps the scan
/// bound `m - n + 1` from underflowing).
pub fn naive_match(t: &Vec<u8>, p: &Vec<u8>) -> (matches: Vec<usize>)
    ensures
        matches@ == all_matches(t@, p@),
        forall|k: int|
            0 <= k < matches@.len() ==> is_match_at(t@, p@, #[trigger] matches@[k] as int),
        forall|k1: int, k2: int|
            0 <= k1 < k2 < matches@.len() ==> matches@[k1] < matches@[k2],
        forall|i: int|
            p@.len() > 0 && #[trigger] is_match_at(t@, p@, i) ==> matches@.contains(i as usize),
        p@.len() == 0 ==> matches@.len() == 0,
        p@.len() > t@.len() ==> matches@.len() == 0,
{
    let m = t.len();
    let n = p.len();
    let mut matches: Vec<usize> = Vec::new();
    if n == 0 || n > m {
        return matches;
    }
    let mut i: usize = 0;
    while i <= m - n
        invariant
            0 < n <= m,
            m == t@.len(),
            n == p@.len(),
            i <= m - n + 1,
            matches@ == matches_below(t@, p@, i as int),
        decreases m - n + 1 - i,
    {
        let mut j: usize = 0;
        while j < n && t[i + j] == p[j]
            invariant
                0 < n <= m,
                m == t@.len(),
                n == p@.len(),
                i + n <= m,
                j <= n,
                forall|k: int| 0 <= k < j ==> t@[i + k] == p@[k],
            decreases n - j,
        {
            j += 1;
        }
        proof {
            if j == n {
                assert(t@.subrange(i as int, i + n as int) =~= p@);
            } else {
                assert(!is_match_at(t@, p@, i as int)) by {
                    if is_match_at(t@, p@, i as int) {
                        assert(t@.subrange(i as int, i + n as int)[j as int] == t@[i + j]);
                    }
                }
            }
        }
        if j == n {
            matches.push(i);
        }
        i += 1;
    }
    proof {
        lemma_matches_below_props(t@, p@, (m - n + 1) as int);
    }
    matches
}

/// The offsets that `matches_below` collects are exactly the match offsets
/// below `n`, each below `n`, in strictly increasing order.
proof fn lemma_matches_below_props(t: Seq<u8>, p: Seq<u8>, n: int)
    requires
        n <= usize::MAX + 1,
    ensures
        forall|k: int|
            0 <= k < matches_below(t, p, n).len() ==> is_match_at(
                t,
                p,
                #[trigger] matches_below(t, p, n)[k] as int,
            ),
        forall|k: int|
            0 <= k < matches_below(t, p, n).len() ==> #[trigger] matches_below(t, p, n)[k] < n,
        forall|k1: int, k2: int|
            0 <= k1 < k2 < matches_below(t, p, n).len() ==> matches_below(t, p, n)[k1]
                < matches_below(t, p, n)[k2],
        forall|i: int|
            0 <= i < n && #[trigger] is_match_at(t, p, i) ==> matches_below(t, p, n).contains(
                i as usize,
            ),
    decreases n,
{
    if n > 0 {
        lemma_matches_below_props(t, p, n - 1);
        let prev = matches_below(t, p, n - 1);
        let cur = matches_below(t, p, n);
        assert forall|i: int| 0 <= i < n && #[trigger] is_match_at(t, p, i) implies cur.contains(
            i as usize,
        ) by {
            if i == n - 1 {
                assert(cur[cur.len() - 1] == i as usize);
            } else {
                assert(prev.contains(i as usize));
                let w = choose|w: int| 0 <= w < prev.len() && prev[w] == i as usize;
                assert(cur[w] == i as usize);
            }
        }
    }
}

/// The offsets `occs` are pairwise non-overlapping occurrences of `p` in
/// `t`: each is a match offset, and each occurrence ends at or before the
/// next one begins.
pub open spec fn non_overlapping_occurrences(t: Seq<u8>, p: Seq<u8>, occs: Seq<usize>) -> bool {
    &&& forall|k: int| 0 <= k < occs.len() ==> is_match_at(t, p, #[trigger] occs[k] as int)
    &&& forall|k: int| 0 <= k < occs.len() - 1 ==> #[trigger] occs[k] + p.len() <= occs[k + 1]
}

/// If a non-empty pattern `p` occurs at `occs.len()` pairwise
/// non-overlapping offsets in `t`, the matcher reports at least that many
/// matches: the naive scan does not skip ahead after a match, so overlapping
/// occurrences can only add to the count.
pub proof fn lemma_count_at_least_non_overlapping(t: Seq<u8>, p: Seq<u8>, occs: Seq<usize>)
    requires
        p.len() > 0,
        t.len() <= usize::MAX,
        non_overlapping_occurrences(t, p, occs),
    ensures
        all_matches(t, p).len() >= occs.len(),
{
    if occs.len() > 0 {
        assert(is_match_at(t, p, occs[0] as int));
        let bound = t.len() - p.len() + 1;
        lemma_matches_below_props(t, p, bound);
        let r = all_matches(t, p);
        assert forall|k1: int, k2: int| 0 <= k1 < k2 < occs.len() implies occs[k1] < occs[k2] by {
            lemma_occurrences_increasing(t, p, occs, k1, k2);
        }
        assert forall|k: int| 0 <= k < occs.len() implies r.contains(#[trigger] occs[k]) by {
            assert(is_match_at(t, p, occs[k] as int));
            assert(r.contains((occs[k] as int) as usize));
        }
        lemma_increasing_subset_len(occs, r);
    }
}

/// Non-overlapping occurrences of a non-empty pattern stand in strictly
/// increasing order.
proof fn lemma_occurrences_increasing(t: Seq<u8>, p: Seq<u8>, occs: Seq<usize>, k1: int, k2: int)
    requires
        p.len() > 0,
        non_overlapping_occurrences(t, p, occs),
        0 <= k1 < k2 < occs.len(),
    ensures
        occs[k1] < occs[k2],
    decreases k2 - k1,
{
    assert(occs[k1] + p.len() <= occs[k1 + 1]);
    if k1 + 1 < k2 {
        lemma_occurrences_increasing(t, p, occs, k1 + 1, k2);
    }
}

/// A strictly increasing sequence whose elements all occur in another
/// strictly increasing sequence is no longer than it.
proof fn lemma_increasing_subset_len(a: Seq<usize>, b: Seq<usize>)
    requires
        forall|k1: int, k2: int| 0 <= k1 < k2 < a.len() ==> a[k1] < a[k2],
        forall|k1: int, k2: int| 0 <= k1 < k2 < b.len() ==> b[k1] < b[k2],
        forall|k: int| 0 <= k < a.len() ==> b.contains(#[trigger] a[k]),
    ensures
        a.len() <= b.len(),
    decreases a.len(),
{
    if a.len() > 0 {
        let x = a[a.len() - 1];
        assert(b.contains(x));
        let w = choose|w: int| 0 <= w < b.len() && b[w] == x;
        let a0 = a.drop_last();
        let b0 = b.take(w);
        assert forall|k: int| 0 <= k < a0.len() implies b0.contains(#[trigger] a0[k]) by {
            assert(a0[k] == a[k]);
            assert(a[k] < x);
            assert(b.contains(a[k]));
            let v = choose|v: int| 0 <= v < b.len() && b[v] == a[k];
            assert(v < w) by {
                if v > w {
                    assert(b[w] < b[v]);
                }
            }
            assert(b0[v] == a[k]);
        }
        assert(forall|k1: int, k2: int| 0 <= k1 < k2 < a0.len() ==> a0[k1] < a0[k2]);
        assert(forall|k1: int, k2: int| 0 <= k1 < k2 < b0.len() ==> b0[k1] < b0[k2]);
        lemma_increasing_subset_len(a0, b0);
    }
}

} // verus!
