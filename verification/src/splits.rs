//! Splitting a group of training samples: which splits are candidates, how
//! they are scored, and which one is best.
//!
//! Feature values reach the library as keys: integers that are ordered as the
//! values they stand for, so that `key(a) < key(b)` exactly when `a < b`.
use vstd::prelude::*;
use crate::counting::{counts_match, lists_classes_of};
use crate::tree::labels_of;

verus! {

/// The samples whose key for feature `f` is below `threshold`.
pub open spec fn below_threshold(rows: Seq<Seq<u64>>, f: usize, threshold: u64) -> spec_fn(usize) -> bool {
    |i: usize| rows[i as int][f as int] < threshold
}

/// The samples whose key for feature `f` is not below `threshold`.
pub open spec fn not_below_threshold(rows: Seq<Seq<u64>>, f: usize, threshold: u64) -> spec_fn(
    usize,
) -> bool {
    |i: usize| !(rows[i as int][f as int] < threshold)
}

/// Sample `i` comes before sample `e` when the samples are ordered by their
/// key for feature `f`, equal keys by index.
pub open spec fn sorts_before(rows: Seq<Seq<u64>>, f: usize, i: usize, e: usize) -> bool {
    rows[i as int][f as int] < rows[e as int][f as int] || (rows[i as int][f as int]
        == rows[e as int][f as int] && i < e)
}

/// The samples that come no later than `e` for feature `f`: those before
/// it, and `e` itself.
pub open spec fn up_to(rows: Seq<Seq<u64>>, f: usize, e: usize) -> spec_fn(usize) -> bool {
    |i: usize| sorts_before(rows, f, i, e) || i == e
}

/// The samples that come after `e` for feature `f`.
pub open spec fn after(rows: Seq<Seq<u64>>, f: usize, e: usize) -> spec_fn(usize) -> bool {
    |i: usize| !(sorts_before(rows, f, i, e) || i == e)
}

/// Pair `a` comes no later than pair `b` when (key, sample) pairs are
/// ordered by key, then by sample.
pub open spec fn pair_le(a: (u64, usize), b: (u64, usize)) -> bool {
    a.0 < b.0 || (a.0 == b.0 && a.1 <= b.1)
}

/// The samples `idx`, each paired with its key for feature `f`.
pub open spec fn keyed(rows: Seq<Seq<u64>>, f: usize, idx: Seq<usize>) -> Seq<(u64, usize)> {
    idx.map_values(|i: usize| (rows[i as int][f as int], i))
}

/// The samples of (key, sample) pairs, in order.
pub open spec fn samples_of(pairs: Seq<(u64, usize)>) -> Seq<usize> {
    pairs.map_values(|pr: (u64, usize)| pr.1)
}

/// In a sorted sequence of (key, sample) pairs whose keys are the samples'
/// keys for feature `f`, the samples below the key at position `r`, where a
/// run of equal keys begins, are exactly those at earlier positions.
pub proof fn lemma_sorted_below(pairs: Seq<(u64, usize)>, rows: Seq<Seq<u64>>, f: usize, r: int)
    requires
        forall|i: int, j: int| 0 <= i < j < pairs.len() ==> pair_le(#[trigger] pairs[i], #[trigger] pairs[j]),
        forall|j: int| 0 <= j < pairs.len() ==> #[trigger] pairs[j].0 == rows[pairs[j].1 as int][f as int],
        0 <= r < pairs.len(),
        r == 0 || pairs[r - 1].0 < pairs[r].0,
    ensures
        samples_of(pairs).filter(below_threshold(rows, f, pairs[r].0)) == samples_of(pairs).take(r),
        samples_of(pairs).filter(not_below_threshold(rows, f, pairs[r].0)) == samples_of(pairs).skip(r),
{
    let order = samples_of(pairs);
    let t = pairs[r].0;
    assert forall|j: int| 0 <= j < r implies #[trigger] below_threshold(rows, f, t)(order[j]) by {
        assert(order[j] == pairs[j].1);
        assert(pairs[j].0 == rows[pairs[j].1 as int][f as int]);
        if j < r - 1 {
            assert(pair_le(pairs[j], pairs[r - 1]));
        }
    }
    assert forall|j: int| r <= j < order.len() implies !#[trigger] below_threshold(rows, f, t)(order[j]) by {
        assert(order[j] == pairs[j].1);
        assert(pairs[j].0 == rows[pairs[j].1 as int][f as int]);
        if j > r {
            assert(pair_le(pairs[r], pairs[j]));
        }
    }
    crate::seq_facts::lemma_filter_prefix(order, below_threshold(rows, f, t), not_below_threshold(rows, f, t), r);
}

/// In a sorted sequence of (key, sample) pairs whose keys are the samples'
/// keys for feature `f`, every sample up to position `p` comes no later than
/// the sample at `p`.
pub proof fn lemma_sorted_up_to(pairs: Seq<(u64, usize)>, rows: Seq<Seq<u64>>, f: usize, p: int)
    requires
        forall|i: int, j: int| 0 <= i < j < pairs.len() ==> pair_le(#[trigger] pairs[i], #[trigger] pairs[j]),
        forall|j: int| 0 <= j < pairs.len() ==> #[trigger] pairs[j].0 == rows[pairs[j].1 as int][f as int],
        0 <= p < pairs.len(),
    ensures
        samples_of(pairs).filter(up_to(rows, f, pairs[p].1)).len() >= p + 1,
{
    let order = samples_of(pairs);
    let e = pairs[p].1;
    assert forall|j: int| 0 <= j < p + 1 implies #[trigger] up_to(rows, f, e)(order[j]) by {
        assert(order[j] == pairs[j].1);
        assert(pairs[j].0 == rows[pairs[j].1 as int][f as int]);
        assert(pairs[p].0 == rows[pairs[p].1 as int][f as int]);
        if j < p {
            assert(pair_le(pairs[j], pairs[p]));
        }
    }
    crate::seq_facts::lemma_filter_len_at_least(order, up_to(rows, f, e), p + 1);
}

/// In a sorted sequence of (key, sample) pairs whose keys are the samples'
/// keys for feature `f`, a sample found only at the first position is the
/// only one that comes no later than itself.
pub proof fn lemma_sorted_first_only(pairs: Seq<(u64, usize)>, rows: Seq<Seq<u64>>, f: usize)
    requires
        forall|i: int, j: int| 0 <= i < j < pairs.len() ==> pair_le(#[trigger] pairs[i], #[trigger] pairs[j]),
        forall|j: int| 0 <= j < pairs.len() ==> #[trigger] pairs[j].0 == rows[pairs[j].1 as int][f as int],
        pairs.len() > 0,
        forall|j: int| 1 <= j < pairs.len() ==> #[trigger] pairs[j].1 != pairs[0].1,
    ensures
        samples_of(pairs).filter(up_to(rows, f, pairs[0].1)).len() == 1,
{
    let order = samples_of(pairs);
    let e = pairs[0].1;
    assert(up_to(rows, f, e)(order[0]));
    assert forall|j: int| 1 <= j < order.len() implies !#[trigger] up_to(rows, f, e)(order[j]) by {
        assert(order[j] == pairs[j].1);
        assert(pairs[j].0 == rows[pairs[j].1 as int][f as int]);
        assert(pairs[0].0 == rows[pairs[0].1 as int][f as int]);
        assert(pair_le(pairs[0], pairs[j]));
    }
    crate::seq_facts::lemma_filter_prefix(order, up_to(rows, f, e), after(rows, f, e), 1);
}

/// Sorts (key, sample) pairs in ascending order: std's `slice::sort`, which
/// orders tuples lexicographically. Believed of it: the result holds the
/// same pairs, each as often as before, and no pair comes after a pair
/// greater than itself.
#[verifier::external_body]
pub(crate) fn sort_pairs(v: &mut Vec<(u64, usize)>)
    ensures
        final(v)@.to_multiset() == old(v)@.to_multiset(),
        forall|i: int, j: int| 0 <= i < j < final(v)@.len() ==> pair_le(#[trigger] final(v)@[i], #[trigger] final(v)@[j]),
{
    v.sort();
}

/// Splitting the samples `idx` at sample `e` for feature `f` is a candidate:
/// the feature exists and, in the order of key then sample, `e` is not the
/// first of the samples (another entry comes no later than it).
pub open spec fn is_candidate(rows: Seq<Seq<u64>>, ncols: nat, idx: Seq<usize>, f: usize, e: usize) -> bool {
    &&& f < ncols
    &&& idx.contains(e)
    &&& idx.filter(up_to(rows, f, e)).len() >= 2
}

/// `t` is the key for feature `f` of one of the samples `idx`.
pub open spec fn is_key_of_some(rows: Seq<Seq<u64>>, idx: Seq<usize>, f: usize, t: u64) -> bool {
    exists|e: usize| idx.contains(e) && t == #[trigger] rows[e as int][f as int]
}

/// A group of two entries or more has a candidate split for feature 0,
/// when there is a feature.
pub proof fn lemma_two_samples_have_candidate(rows: Seq<Seq<u64>>, ncols: nat, idx: Seq<usize>) -> (e: usize)
    requires
        ncols > 0,
        idx.len() >= 2,
    ensures
        is_candidate(rows, ncols, idx, 0, e),
{
    let a = idx[0];
    let b = idx[1];
    let e = if sorts_before(rows, 0, a, b) || a == b {
        b
    } else {
        a
    };
    assert(up_to(rows, 0, e)(idx[0]) && up_to(rows, 0, e)(idx[1]));
    assert forall|j: int| 0 <= j < 2 implies #[trigger] up_to(rows, 0, e)(idx[j]) by {}
    crate::seq_facts::lemma_filter_len_at_least(idx, up_to(rows, 0, e), 2);
    assert(idx[if e == b { 1int } else { 0int }] == e);
    e
}

/// Score `s = (loss key, feature, threshold key, sample)` was given to the
/// candidate split at threshold `s.2` for feature `s.1`, with the counts
/// listed by `classes`: `split_loss` returned `s.0` for the label counts `lc`
/// of the samples whose key is below the threshold and `rc` of the others.
pub open spec fn scored_with<G: Fn(&Vec<usize>, &Vec<usize>) -> u64>(
    rows: Seq<Seq<u64>>,
    y: Seq<usize>,
    idx: Seq<usize>,
    split_loss: G,
    s: (u64, usize, u64, usize),
    classes: Seq<usize>,
    lc: Vec<usize>,
    rc: Vec<usize>,
) -> bool {
    &&& lists_classes_of(classes, labels_of(y, idx))
    &&& counts_match(classes, lc@, labels_of(y, idx.filter(below_threshold(rows, s.1, s.2))))
    &&& counts_match(classes, rc@, labels_of(y, idx.filter(not_below_threshold(rows, s.1, s.2))))
    &&& call_ensures(split_loss, (&lc, &rc), s.0)
}

/// `s` scores a candidate split of the samples `idx`.
pub open spec fn is_scored_split<G: Fn(&Vec<usize>, &Vec<usize>) -> u64>(
    rows: Seq<Seq<u64>>,
    ncols: nat,
    y: Seq<usize>,
    idx: Seq<usize>,
    split_loss: G,
    s: (u64, usize, u64, usize),
) -> bool {
    &&& is_candidate(rows, ncols, idx, s.1, s.3)
    &&& s.2 == rows[s.3 as int][s.1 as int]
    &&& exists|classes: Seq<usize>, lc: Vec<usize>, rc: Vec<usize>|
        #[trigger] scored_with(rows, y, idx, split_loss, s, classes, lc, rc)
}

/// Some score in `scores` is for the split at sample `e` for feature `f`.
pub open spec fn has_score_for(scores: Seq<(u64, usize, u64, usize)>, f: usize, e: usize) -> bool {
    exists|j: int| 0 <= j < scores.len() && scores[j].1 == f && scores[j].3 == e
}

/// `scores` scores candidate splits of the samples `idx`, every one of them.
pub open spec fn scores_all_candidates<G: Fn(&Vec<usize>, &Vec<usize>) -> u64>(
    rows: Seq<Seq<u64>>,
    ncols: nat,
    y: Seq<usize>,
    idx: Seq<usize>,
    split_loss: G,
    scores: Seq<(u64, usize, u64, usize)>,
) -> bool {
    &&& forall|j: int|
        0 <= j < scores.len() ==> #[trigger] is_scored_split(rows, ncols, y, idx, split_loss, scores[j])
    &&& forall|f: usize, e: usize| #[trigger] is_candidate(rows, ncols, idx, f, e) ==> has_score_for(scores, f, e)
}

/// `scores[j]` is the first of the best scores: no score precedes it, and it
/// precedes every score before it.
pub open spec fn is_first_minimum(scores: Seq<(u64, usize, u64, usize)>, j: int) -> bool {
    &&& 0 <= j < scores.len()
    &&& forall|k: int| 0 <= k < scores.len() ==> !#[trigger] split_precedes(scores[k], scores[j])
    &&& forall|k: int| 0 <= k < j ==> #[trigger] split_precedes(scores[j], scores[k])
}

/// `(f, t)` is the best split of the samples `idx`: the feature and threshold
/// key of the first best score among the scores of all candidates, or
/// `(0, key of sample 0 for feature 0)` when there is no candidate.
pub open spec fn is_best_split<G: Fn(&Vec<usize>, &Vec<usize>) -> u64>(
    rows: Seq<Seq<u64>>,
    ncols: nat,
    y: Seq<usize>,
    idx: Seq<usize>,
    split_loss: G,
    f: usize,
    t: u64,
) -> bool {
    ||| exists|scores: Seq<(u64, usize, u64, usize)>, j: int|
        #[trigger] scores_all_candidates(rows, ncols, y, idx, split_loss, scores) && #[trigger] is_first_minimum(
            scores,
            j,
        ) && scores[j].1 == f && scores[j].2 == t
    ||| (forall|g: usize, e: usize| !is_candidate(rows, ncols, idx, g, e)) && f == 0 && t == rows[0][0]
}

/// What `is_best_split` says, for any split loss function.
pub proof fn lemma_is_best_split_unfold<G: Fn(&Vec<usize>, &Vec<usize>) -> u64>(
    rows: Seq<Seq<u64>>,
    ncols: nat,
    y: Seq<usize>,
    idx: Seq<usize>,
    split_loss: G,
    f: usize,
    t: u64,
)
    ensures
        is_best_split(rows, ncols, y, idx, split_loss, f, t) == ({
            ||| exists|scores: Seq<(u64, usize, u64, usize)>, j: int|
                #[trigger] scores_all_candidates(rows, ncols, y, idx, split_loss, scores)
                    && #[trigger] is_first_minimum(scores, j) && scores[j].1 == f && scores[j].2 == t
            ||| (forall|g: usize, e: usize| !is_candidate(rows, ncols, idx, g, e)) && f == 0 && t
                == rows[0][0]
        }),
{
}

/// `split_precedes` is a strict total order.
pub proof fn lemma_split_precedes_is_strict_total_order(
    a: (u64, usize, u64, usize),
    b: (u64, usize, u64, usize),
    c: (u64, usize, u64, usize),
)
    ensures
        !split_precedes(a, a),
        split_precedes(a, b) && split_precedes(b, c) ==> split_precedes(a, c),
        !split_precedes(a, b) && !split_precedes(b, a) ==> a == b,
{
}

/// A split with a strictly lower loss key always comes first, whatever its
/// feature, threshold and sample.
pub proof fn lemma_lower_loss_precedes(a: (u64, usize, u64, usize), b: (u64, usize, u64, usize))
    requires
        a.0 < b.0,
    ensures
        split_precedes(a, b),
        !split_precedes(b, a),
{
}

/// Among splits of equal loss, the one on the lower feature comes first, and
/// on the same feature the one with the lower threshold, then the lower
/// sample: the order in which the scan meets them.
pub proof fn lemma_equal_loss_scan_order(a: (u64, usize, u64, usize), b: (u64, usize, u64, usize))
    requires
        a.0 == b.0,
    ensures
        a.1 < b.1 ==> split_precedes(a, b),
        a.1 == b.1 && a.2 < b.2 ==> split_precedes(a, b),
        a.1 == b.1 && a.2 == b.2 && a.3 < b.3 ==> split_precedes(a, b),
        split_precedes(a, b) ==> a.1 < b.1 || (a.1 == b.1 && a.2 < b.2) || (a.1 == b.1 && a.2 == b.2 && a.3 < b.3),
{
}

/// The first best score has the lowest loss key of all the scores, and no
/// earlier score has that loss key.
pub proof fn lemma_first_minimum_has_lowest_loss(scores: Seq<(u64, usize, u64, usize)>, j: int)
    requires
        is_first_minimum(scores, j),
    ensures
        forall|k: int| 0 <= k < scores.len() ==> scores[j].0 <= #[trigger] scores[k].0,
        forall|k: int| 0 <= k < j ==> scores[j].0 < #[trigger] scores[k].0 || (scores[j].0 == scores[k].0
            && split_precedes(scores[j], scores[k])),
{
    assert forall|k: int| 0 <= k < scores.len() implies scores[j].0 <= #[trigger] scores[k].0 by {
        if scores[k].0 < scores[j].0 {
            lemma_lower_loss_precedes(scores[k], scores[j]);
        }
    }
    assert forall|k: int| 0 <= k < j implies scores[j].0 < #[trigger] scores[k].0 || (scores[j].0
        == scores[k].0 && split_precedes(scores[j], scores[k])) by {
        assert(split_precedes(scores[j], scores[k]));
        if scores[k].0 < scores[j].0 {
            lemma_lower_loss_precedes(scores[k], scores[j]);
        }
    }
}

/// The position of the first best score by `split_precedes`, or `None` when
/// there are no scores.
pub fn best_split(scores: &Vec<(u64, usize, u64, usize)>) -> (r: Option<usize>)
    ensures
        r is None <==> scores@.len() == 0,
        r matches Some(j) ==> is_first_minimum(scores@, j as int),
{
    let n = scores.len();
    if n == 0 {
        return None;
    }
    let mut best: usize = 0;
    let mut i: usize = 1;
    while i < n
        invariant
            n == scores@.len(),
            1 <= i <= n,
            best < i,
            forall|k: int| 0 <= k < i ==> !#[trigger] split_precedes(scores@[k], scores@[best as int]),
            forall|k: int| 0 <= k < best ==> #[trigger] split_precedes(scores@[best as int], scores@[k]),
        decreases n - i,
    {
        let ghost old_best = best as int;
        if is_better_split(scores[i], scores[best]) {
            best = i;
            proof {
                assert forall|k: int| 0 <= k < i + 1 implies !#[trigger] split_precedes(
                    scores@[k],
                    scores@[best as int],
                ) by {
                    lemma_split_precedes_is_strict_total_order(scores@[k], scores@[i as int], scores@[old_best]);
                }
                assert forall|k: int| 0 <= k < best implies #[trigger] split_precedes(
                    scores@[best as int],
                    scores@[k],
                ) by {
                    lemma_split_precedes_is_strict_total_order(scores@[i as int], scores@[old_best], scores@[k]);
                    lemma_split_precedes_is_strict_total_order(scores@[k], scores@[old_best], scores@[k]);
                    if k >= old_best {
                        assert(!split_precedes(scores@[k], scores@[old_best]));
                    }
                }
            }
        }
        proof {
            lemma_split_precedes_is_strict_total_order(scores@[best as int], scores@[best as int], scores@[best as int]);
        }
        i = i + 1;
    }
    Some(best)
}

/// Lexicographic order on (loss key, feature, threshold key, sample index):
/// a split with a lower loss wins, and among equal losses the one met first
/// when the samples are scanned feature by feature in sorted order.
pub open spec fn split_precedes(a: (u64, usize, u64, usize), b: (u64, usize, u64, usize)) -> bool {
    a.0 < b.0 || (a.0 == b.0 && (a.1 < b.1 || (a.1 == b.1 && (a.2 < b.2 || (a.2 == b.2 && a.3
        < b.3)))))
}

/// Whether split `a` is better than split `b`, each given as (loss key,
/// feature, threshold key, sample index).
pub fn is_better_split(a: (u64, usize, u64, usize), b: (u64, usize, u64, usize)) -> (r: bool)
    ensures
        r == split_precedes(a, b),
{
    a.0 < b.0 || (a.0 == b.0 && (a.1 < b.1 || (a.1 == b.1 && (a.2 < b.2 || (a.2 == b.2 && a.3
        < b.3)))))
}

} // verus!
