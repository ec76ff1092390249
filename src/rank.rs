//! Ordering of documents by score: descending, ties kept in store order.

use vstd::prelude::*;

verus! {

/// Document `a` ranks ahead of document `b`: a higher score, or the same
/// score and an earlier place in the store.
pub open spec fn ranks_ahead(s: Seq<usize>, a: int, b: int) -> bool {
    s[a] > s[b] || (s[a] == s[b] && a < b)
}

/// `r` is the list of at most `k` documents of positive score, best first:
/// each listed document has a positive score, the list is ordered by
/// `ranks_ahead`, and a document of positive score is missing only when the
/// list is full and every listed document ranks ahead of it.
pub open spec fn is_ranking(s: Seq<usize>, k: usize, r: Seq<usize>) -> bool {
    &&& r.len() <= k
    &&& forall|j: int| 0 <= j < r.len() ==> #[trigger] r[j] < s.len() && s[r[j] as int] > 0
    &&& forall|j: int, l: int|
        0 <= j < l < r.len() ==> ranks_ahead(s, #[trigger] r[j] as int, #[trigger] r[l] as int)
    &&& forall|x: int|
        0 <= x < s.len() && #[trigger] s[x] > 0 && !r.contains(x as usize) ==> r.len() == k
            && forall|j: int| 0 <= j < r.len() ==> ranks_ahead(s, #[trigger] r[j] as int, x)
}

/// A ranking never lists a document of score zero, nor more than `k`
/// documents.
pub proof fn lemma_ranking_positive_and_bounded(s: Seq<usize>, k: usize, r: Seq<usize>)
    requires
        is_ranking(s, k, r),
    ensures
        r.len() <= k,
        forall|j: int| 0 <= j < r.len() ==> s[#[trigger] r[j] as int] != 0,
{
}

/// At most one list is a ranking of given scores: the conditions of
/// `is_ranking` fix the result.
pub proof fn lemma_ranking_unique(s: Seq<usize>, k: usize, r1: Seq<usize>, r2: Seq<usize>)
    requires
        is_ranking(s, k, r1),
        is_ranking(s, k, r2),
    ensures
        r1 == r2,
{
    if r1 != r2 {
        let n = if r1.len() <= r2.len() {
            r1.len()
        } else {
            r2.len()
        };
        if forall|m: int| 0 <= m < n ==> r1[m] == r2[m] {
            assert(r1.len() != r2.len()) by {
                if r1.len() == r2.len() {
                    assert(r1 =~= r2);
                }
            }
            if r1.len() < r2.len() {
                lemma_prefix_same_length(s, k, r1, r2);
            } else {
                lemma_prefix_same_length(s, k, r2, r1);
            }
            assert(false);
        } else {
            let m = choose|m: int| 0 <= m < n && r1[m] != r2[m];
            lemma_same_at(s, k, r1, r2, m);
            assert(false);
        }
    }
}

/// Two rankings that agree on the shorter one's places have the same length.
proof fn lemma_prefix_same_length(s: Seq<usize>, k: usize, r1: Seq<usize>, r2: Seq<usize>)
    requires
        is_ranking(s, k, r1),
        is_ranking(s, k, r2),
        r1.len() <= r2.len(),
        forall|m: int| 0 <= m < r1.len() ==> r1[m] == r2[m],
    ensures
        r1.len() == r2.len(),
{
    if r1.len() < r2.len() {
        let m = r1.len() as int;
        let b = r2[m];
        if r1.contains(b) {
            let q = choose|q: int| 0 <= q < r1.len() && r1[q] == b;
            assert(ranks_ahead(s, r2[q] as int, r2[m] as int));
        } else {
            assert(s[b as int] > 0);
        }
    }
}

/// Two rankings of the same scores agree at every common place.
proof fn lemma_same_at(s: Seq<usize>, k: usize, r1: Seq<usize>, r2: Seq<usize>, m: int)
    requires
        is_ranking(s, k, r1),
        is_ranking(s, k, r2),
        0 <= m < r1.len(),
        0 <= m < r2.len(),
    ensures
        r1[m] == r2[m],
    decreases m,
{
    if exists|j: int| 0 <= j < m && r1[j] != r2[j] {
        let j = choose|j: int| 0 <= j < m && r1[j] != r2[j];
        lemma_same_at(s, k, r1, r2, j);
    } else if r1[m] != r2[m] {
        let a = r1[m];
        let b = r2[m];
        if ranks_ahead(s, a as int, b as int) {
            lemma_not_ahead_at_difference(s, k, r1, r2, m);
        } else {
            lemma_not_ahead_at_difference(s, k, r2, r1, m);
        }
    }
}

/// With the lists equal before `m` and different at `m`, `r1[m]` does not
/// rank ahead of `r2[m]`: it would have no place in `r2`.
proof fn lemma_not_ahead_at_difference(s: Seq<usize>, k: usize, r1: Seq<usize>, r2: Seq<usize>, m: int)
    requires
        is_ranking(s, k, r1),
        is_ranking(s, k, r2),
        0 <= m < r1.len(),
        0 <= m < r2.len(),
        forall|j: int| 0 <= j < m ==> r1[j] == r2[j],
        r1[m] != r2[m],
    ensures
        !ranks_ahead(s, r1[m] as int, r2[m] as int),
{
    let a = r1[m];
    let b = r2[m];
    if r2.contains(a) {
        let q = choose|q: int| 0 <= q < r2.len() && r2[q] == a;
        if q < m {
            assert(ranks_ahead(s, r1[q] as int, r1[m] as int));
        } else if q > m {
            assert(ranks_ahead(s, r2[m] as int, r2[q] as int));
        }
    } else {
        assert(s[a as int] > 0);
        assert(ranks_ahead(s, r2[m] as int, a as int));
    }
}

/// The indices of the `top_k` best-scoring documents of positive score, best
/// first; among equal scores the earlier index comes first.
pub fn rank_by_score(scores: &Vec<usize>, top_k: usize) -> (r: Vec<usize>)
    ensures
        is_ranking(scores@, top_k, r@),
{
    let ghost s = scores@;
    let mut v: Vec<usize> = Vec::new();
    let mut i: usize = 0;
    while i < scores.len()
        invariant
            s == scores@,
            i <= s.len(),
            forall|j: int| 0 <= j < v@.len() ==> #[trigger] v@[j] < i && s[v@[j] as int] > 0,
            forall|j: int, l: int|
                0 <= j < l < v@.len() ==> ranks_ahead(s, #[trigger] v@[j] as int, #[trigger] v@[l] as int),
            forall|x: int| 0 <= x < i && #[trigger] s[x] > 0 ==> v@.contains(x as usize),
        decreases s.len() - i,
    {
        if scores[i] > 0 {
            let mut pos: usize = 0;
            while pos < v.len() && scores[v[pos]] >= scores[i]
                invariant
                    s == scores@,
                    i < s.len(),
                    pos <= v@.len(),
                    forall|j: int| 0 <= j < v@.len() ==> #[trigger] v@[j] < i && s[v@[j] as int] > 0,
                    forall|a: int| 0 <= a < pos ==> s[#[trigger] v@[a] as int] >= s[i as int],
                decreases v@.len() - pos,
            {
                pos = pos + 1;
            }
            let ghost old_v = v@;
            v.insert(pos, i);
            assert forall|j: int, l: int| 0 <= j < l < v@.len() implies ranks_ahead(
                s,
                #[trigger] v@[j] as int,
                #[trigger] v@[l] as int,
            ) by {
                if l < pos {
                    assert(v@[j] == old_v[j] && v@[l] == old_v[l]);
                } else if l == pos {
                    assert(v@[j] == old_v[j]);
                } else if j == pos {
                    assert(v@[l] == old_v[l - 1]);
                    assert(pos < old_v.len());
                    assert(s[old_v[pos as int] as int] < s[i as int]);
                    if l - 1 > pos {
                        assert(ranks_ahead(s, old_v[pos as int] as int, old_v[l - 1] as int));
                    }
                } else if j < pos {
                    assert(v@[j] == old_v[j] && v@[l] == old_v[l - 1]);
                } else {
                    assert(v@[j] == old_v[j - 1] && v@[l] == old_v[l - 1]);
                }
            }
            assert forall|x: int| 0 <= x < i + 1 && #[trigger] s[x] > 0 implies v@.contains(
                x as usize,
            ) by {
                if x == i {
                    assert(v@[pos as int] == i);
                } else {
                    let m = choose|m: int| 0 <= m < old_v.len() && old_v[m] == x as usize;
                    if m < pos {
                        assert(v@[m] == x as usize);
                    } else {
                        assert(v@[m + 1] == x as usize);
                    }
                }
            }
        }
        i = i + 1;
    }
    let ghost full = v@;
    v.truncate(top_k);
    proof {
        assert forall|x: int|
            0 <= x < s.len() && #[trigger] s[x] > 0 && !v@.contains(x as usize) implies v@.len()
            == top_k && forall|j: int| 0 <= j < v@.len() ==> ranks_ahead(s, #[trigger] v@[j] as int, x) by {
            let m = choose|m: int| 0 <= m < full.len() && full[m] == x as usize;
            if m < top_k {
                assert(v@[m] == x as usize);
            }
            assert forall|j: int| 0 <= j < v@.len() implies ranks_ahead(s, #[trigger] v@[j] as int, x) by {
                assert(v@[j] == full[j]);
            }
        }
    }
    v
}

} // verus!
