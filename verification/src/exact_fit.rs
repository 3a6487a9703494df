//! When a grown tree reproduces its training labels: every split it makes
//! separates samples, so a deep enough tree ends with groups of one sample
//! or of one class.
use vstd::prelude::*;
use vstd::seq_lib::group_to_multiset_ensures;
use crate::counting::{count_of, is_most_frequent};
use crate::decision_tree::{all_samples, grows, group_loss_with, is_group_loss};
use crate::seq_facts::{lemma_filter_contains, lemma_filter_partition};
use crate::splits::{
    after,
    below_threshold,
    is_best_split,
    is_candidate,
    is_first_minimum,
    is_scored_split,
    not_below_threshold,
    scores_all_candidates,
    sorts_before,
    up_to,
    lemma_two_samples_have_candidate,
};
use crate::tree::{labels_of, TreeNode};

verus! {

/// `node_loss` gives a loss key above `min_loss_key` to the label counts of
/// every group that holds two or more classes (each count positive).
pub open spec fn separates_classes<F: Fn(&Vec<usize>) -> u64>(node_loss: F, min_loss_key: u64) -> bool {
    forall|c: &Vec<usize>, k: u64|
        #[trigger] call_ensures(node_loss, (c,), k) && k <= min_loss_key && (forall|j: int|
            0 <= j < c@.len() ==> c@[j] > 0) ==> c@.len() <= 1
}

/// No two rows share a key for any of the `ncols` features.
pub open spec fn distinct_columns(rows: Seq<Seq<u64>>, ncols: nat) -> bool {
    forall|i: int, j: int, f: int|
        0 <= i < rows.len() && 0 <= j < rows.len() && i != j && 0 <= f < ncols ==> #[trigger] rows[i][f]
            != #[trigger] rows[j][f]
}

/// Filtering a sequence without duplicates keeps it without duplicates.
proof fn lemma_filter_no_duplicates(s: Seq<usize>, p: spec_fn(usize) -> bool, q: spec_fn(usize) -> bool)
    requires
        s.no_duplicates(),
        forall|x: usize| #[trigger] q(x) == !p(x),
    ensures
        s.filter(p).no_duplicates(),
        s.filter(p).len() + s.filter(q).len() == s.len(),
{
    broadcast use group_to_multiset_ensures;

    lemma_filter_partition(s, p, q);
    s.lemma_multiset_has_no_duplicates();
    let m = s.filter(p).to_multiset();
    assert forall|x: usize| m.contains(x) implies m.count(x) == 1 by {
        assert(s.to_multiset().count(x) >= m.count(x));
        assert(s.to_multiset().contains(x));
    }
    s.filter(p).lemma_multiset_has_no_duplicates_conv();
    assert(s.filter(p).to_multiset().len() + s.filter(q).to_multiset().len() == s.to_multiset().len());
}

/// The best split of a group with a candidate is the split at some
/// candidate sample: its threshold is that sample's key.
proof fn lemma_best_split_at_candidate<G: Fn(&Vec<usize>, &Vec<usize>) -> u64>(
    rows: Seq<Seq<u64>>,
    ncols: nat,
    y: Seq<usize>,
    idx: Seq<usize>,
    split_loss: G,
    f: usize,
    t: u64,
    g: usize,
    e0: usize,
) -> (e: usize)
    requires
        is_best_split(rows, ncols, y, idx, split_loss, f, t),
        is_candidate(rows, ncols, idx, g, e0),
    ensures
        is_candidate(rows, ncols, idx, f, e),
        t == rows[e as int][f as int],
{
    let (scores, j) = choose|scores: Seq<(u64, usize, u64, usize)>, j: int|
        #[trigger] scores_all_candidates(rows, ncols, y, idx, split_loss, scores) && #[trigger] is_first_minimum(
            scores,
            j,
        ) && scores[j].1 == f && scores[j].2 == t;
    assert(is_scored_split(rows, ncols, y, idx, split_loss, scores[j]));
    scores[j].3
}

/// Every label of a group is `c` when the group holds only `c`'s class.
proof fn lemma_one_class(y: Seq<usize>, idx: Seq<usize>, classes: Seq<usize>, i: usize, p: usize)
    requires
        classes.len() <= 1,
        forall|v: usize| #[trigger] classes.contains(v) <==> labels_of(y, idx).contains(v),
        idx.contains(i),
        labels_of(y, idx).contains(p),
    ensures
        p == y[i as int],
{
    let k = choose|k: int| 0 <= k < idx.len() && idx[k] == i;
    assert(labels_of(y, idx)[k] == y[i as int]);
    assert(labels_of(y, idx).contains(y[i as int]));
    assert(classes.contains(y[i as int]));
    assert(classes.contains(p));
}

/// A subtree grown for the distinct samples `idx`, at a depth where at most
/// one sample per remaining level is left to separate, predicts each of those
/// samples' own label.
proof fn lemma_grown_node_reproduces_labels<F: Fn(&Vec<usize>) -> u64, G: Fn(&Vec<usize>, &Vec<usize>) -> u64>(
    node: TreeNode,
    rows: Seq<Seq<u64>>,
    ncols: nat,
    y: Seq<usize>,
    idx: Seq<usize>,
    depth: nat,
    max_depth: nat,
    min_loss_key: u64,
    node_loss: F,
    split_loss: G,
    i: usize,
)
    requires
        grows(node, rows, ncols, y, idx, depth, max_depth, min_loss_key, node_loss, split_loss),
        idx.no_duplicates(),
        forall|x: usize| idx.contains(x) ==> x < rows.len(),
        idx.len() + depth <= max_depth + 1,
        ncols > 0,
        distinct_columns(rows, ncols),
        separates_classes(node_loss, min_loss_key),
        idx.contains(i),
    ensures
        node.predicted(rows[i as int]) == y[i as int],
    decreases node,
{
    let row = rows[i as int];
    match node {
        TreeNode::Leaf { prediction, indices } => {
            assert(idx.len() > 0);
            let labels = labels_of(y, idx);
            assert(is_most_frequent(labels, prediction));
            if idx.len() <= 1 {
                let k = choose|k: int| 0 <= k < labels.len() && labels[k] == prediction;
                assert(idx[k] == i);
            } else {
                let key = choose|k: u64| #[trigger] is_group_loss(y, idx, node_loss, k) && k <= min_loss_key;
                let (classes, counts) = choose|classes: Seq<usize>, counts: Vec<usize>|
                    #[trigger] group_loss_with(y, idx, node_loss, key, classes, counts);
                assert(call_ensures(node_loss, (&counts,), key));
                assert forall|j: int| 0 <= j < counts@.len() implies counts@[j] > 0 by {
                    assert(classes.contains(classes[j]));
                    assert(labels.contains(classes[j]));
                    assert(count_of(labels, classes[j]) > 0) by {
                        broadcast use group_to_multiset_ensures;
                    }
                }
                assert(counts@.len() <= 1);
                lemma_one_class(y, idx, classes, i, prediction);
            }
        },
        TreeNode::Internal { feature: Some(f), threshold: Some(t), left: Some(l), right: Some(r) } => {
            let e0 = lemma_two_samples_have_candidate(rows, ncols, idx);
            let e = lemma_best_split_at_candidate(rows, ncols, y, idx, split_loss, f, t, 0, e0);
            let p = below_threshold(rows, f, t);
            let q = not_below_threshold(rows, f, t);
            let left = idx.filter(p);
            let right = idx.filter(q);
            lemma_filter_no_duplicates(idx, p, q);
            lemma_filter_no_duplicates(idx, q, p);
            let lows = idx.filter(up_to(rows, f, e));
            lemma_filter_no_duplicates(idx, up_to(rows, f, e), after(rows, f, e));
            assert(lows[0] != lows[1]);
            let a = if lows[0] != e {
                lows[0]
            } else {
                lows[1]
            };
            assert(lows.contains(a));
            lemma_filter_contains(idx, up_to(rows, f, e), a);
            assert(sorts_before(rows, f, a, e));
            assert(a != e);
            assert(rows[a as int][f as int] != rows[e as int][f as int]);
            lemma_filter_contains(idx, p, e);
            lemma_filter_contains(idx, q, e);
            lemma_filter_contains(idx, p, a);
            lemma_filter_contains(idx, q, a);
            assert(right.len() >= 1);
            assert(left.len() >= 1);
            assert forall|x: usize| left.contains(x) implies x < rows.len() by {
                lemma_filter_contains(idx, p, x);
            }
            assert forall|x: usize| right.contains(x) implies x < rows.len() by {
                lemma_filter_contains(idx, q, x);
            }
            lemma_filter_contains(idx, p, i);
            lemma_filter_contains(idx, q, i);
            if row[f as int] < t {
                lemma_grown_node_reproduces_labels(
                    *l,
                    rows,
                    ncols,
                    y,
                    left,
                    depth + 1,
                    max_depth,
                    min_loss_key,
                    node_loss,
                    split_loss,
                    i,
                );
            } else {
                lemma_grown_node_reproduces_labels(
                    *r,
                    rows,
                    ncols,
                    y,
                    right,
                    depth + 1,
                    max_depth,
                    min_loss_key,
                    node_loss,
                    split_loss,
                    i,
                );
            }
        },
        _ => {},
    }
}

/// A tree grown at most `max_depth` deep on `n <= max_depth + 1` training
/// rows whose keys differ within every column, with a node loss that gives a
/// key above `min_loss_key` to any group of two or more classes, predicts
/// each training row's own label.
pub proof fn lemma_deep_tree_reproduces_training_labels<
    F: Fn(&Vec<usize>) -> u64,
    G: Fn(&Vec<usize>, &Vec<usize>) -> u64,
>(
    t: TreeNode,
    rows: Seq<Seq<u64>>,
    ncols: nat,
    y: Seq<usize>,
    max_depth: nat,
    min_loss_key: u64,
    node_loss: F,
    split_loss: G,
    i: usize,
)
    requires
        grows(t, rows, ncols, y, all_samples(rows.len()), 0, max_depth, min_loss_key, node_loss, split_loss),
        rows.len() <= max_depth + 1,
        rows.len() <= usize::MAX,
        ncols > 0,
        distinct_columns(rows, ncols),
        separates_classes(node_loss, min_loss_key),
        i < rows.len(),
    ensures
        t.predicted(rows[i as int]) == y[i as int],
{
    let all = all_samples(rows.len());
    assert forall|a: int, b: int| 0 <= a < all.len() && 0 <= b < all.len() && a != b implies all[a]
        != all[b] by {
        assert(all[a] == a as usize && all[b] == b as usize);
        assert(a < rows.len() && b < rows.len());
    }
    assert(all.no_duplicates());
    assert forall|x: usize| all.contains(x) implies x < rows.len() by {
        let k = choose|k: int| 0 <= k < all.len() && all[k] == x;
    }
    assert(all[i as int] == i);
    lemma_grown_node_reproduces_labels(
        t,
        rows,
        ncols,
        y,
        all,
        0,
        max_depth,
        min_loss_key,
        node_loss,
        split_loss,
        i,
    );
}

} // verus!
