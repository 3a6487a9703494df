//! A decision tree classifier over feature keys.
//!
//! How impure a group of samples is, and how good a split is, is measured
//! outside the library; the measures come back as loss keys, ordered as the
//! losses are, by the two loss functions that `fit` takes.
use vstd::prelude::*;
use vstd::seq_lib::{group_to_multiset_ensures, to_multiset_contains, to_multiset_len};
use crate::arrays::{IndexArray, KeyMatrix};
use crate::counting::{
    count_of,
    counts_for,
    counts_match,
    is_most_frequent,
    lemma_count_empty,
    lemma_count_push,
    lists_classes_of,
    most_frequent,
    copy_counts,
    position_of,
    tally,
};
use crate::splits::{
    below_threshold, best_split, has_score_for, is_best_split, is_candidate, is_scored_split,
    is_key_of_some, keyed, lemma_two_samples_have_candidate, lemma_sorted_below, lemma_sorted_first_only, lemma_sorted_up_to, not_below_threshold,
    pair_le, samples_of, scored_with, scores_all_candidates, sort_pairs, up_to,
};
use crate::seq_facts::{
    lemma_filter_contains,
    lemma_filter_partition,
    lemma_filter_same_items,
    lemma_filter_take_step,
    lemma_map_same_items,
};
use crate::tree::{labels_of, leaf_prediction_ok, TreeNode};

verus! {

/// Labels of a one-step-longer prefix.
proof fn lemma_labels_push(y: Seq<usize>, s: Seq<usize>, a: usize)
    ensures
        labels_of(y, s.push(a)) == labels_of(y, s).push(y[a as int]),
{
    assert(labels_of(y, s.push(a)) =~= labels_of(y, s).push(y[a as int]));
}

/// Label counts carry over between index sequences with the same items.
proof fn lemma_counts_transfer(classes: Seq<usize>, counts: Seq<usize>, y: Seq<usize>, a: Seq<usize>, b: Seq<usize>)
    requires
        a.to_multiset() == b.to_multiset(),
        counts_match(classes, counts, labels_of(y, a)),
    ensures
        counts_match(classes, counts, labels_of(y, b)),
{
    let h = |i: usize| y[i as int];
    lemma_map_same_items(a, b, h);
    assert(labels_of(y, a) =~= a.map_values(h));
    assert(labels_of(y, b) =~= b.map_values(h));
}

/// How often a value occurs after putting one in front.
proof fn lemma_count_insert_front(s: Seq<usize>, a: usize, v: usize)
    ensures
        count_of(s.insert(0, a), v) == count_of(s, v) + (if a == v {
            1nat
        } else {
            0nat
        }),
{
    broadcast use vstd::seq_lib::to_multiset_insert;
    broadcast use group_to_multiset_ensures;

}

/// `key` is the loss key that `node_loss` returned for the label counts of
/// the samples `idx`, listed by `classes`.
pub open spec fn group_loss_with<F: Fn(&Vec<usize>) -> u64>(
    y: Seq<usize>,
    idx: Seq<usize>,
    node_loss: F,
    key: u64,
    classes: Seq<usize>,
    counts: Vec<usize>,
) -> bool {
    &&& lists_classes_of(classes, labels_of(y, idx))
    &&& counts_match(classes, counts@, labels_of(y, idx))
    &&& call_ensures(node_loss, (&counts,), key)
}

/// `key` is a loss key that `node_loss` returned for the label counts of the samples `idx`.
pub open spec fn is_group_loss<F: Fn(&Vec<usize>) -> u64>(
    y: Seq<usize>,
    idx: Seq<usize>,
    node_loss: F,
    key: u64,
) -> bool {
    exists|classes: Seq<usize>, counts: Vec<usize>| #[trigger]
        group_loss_with(y, idx, node_loss, key, classes, counts)
}

/// `node` is the subtree grown for the training samples `idx` found `depth`
/// levels below the root: a leaf keeping `idx` that predicts 0 when `idx` is
/// empty, and otherwise a most frequent label of `idx`, when the tree is
/// `max_depth` deep there, `idx` has one sample, or the group's loss key is at
/// most `min_loss_key`; else an internal node with the best split of `idx`,
/// whose children are grown one level deeper for the samples below and not
/// below its threshold.
pub open spec fn grows<F: Fn(&Vec<usize>) -> u64, G: Fn(&Vec<usize>, &Vec<usize>) -> u64>(
    node: TreeNode,
    rows: Seq<Seq<u64>>,
    ncols: nat,
    y: Seq<usize>,
    idx: Seq<usize>,
    depth: nat,
    max_depth: nat,
    min_loss_key: u64,
    node_loss: F,
    split_loss: G,
) -> bool
    decreases node,
{
    match node {
        TreeNode::Leaf { prediction, indices } => {
            &&& indices@ == idx
            &&& if idx.len() == 0 {
                prediction == 0
            } else {
                &&& is_most_frequent(labels_of(y, idx), prediction)
                &&& (depth >= max_depth || idx.len() <= 1 || exists|k: u64|
                    #[trigger] is_group_loss(y, idx, node_loss, k) && k <= min_loss_key)
            }
        },
        TreeNode::Internal { feature: Some(f), threshold: Some(t), left: Some(l), right: Some(r) } => {
            &&& idx.len() >= 2
            &&& depth < max_depth
            &&& exists|k: u64| #[trigger] is_group_loss(y, idx, node_loss, k) && k > min_loss_key
            &&& is_best_split(rows, ncols, y, idx, split_loss, f, t)
            &&& grows(
                *l,
                rows,
                ncols,
                y,
                idx.filter(below_threshold(rows, f, t)),
                depth + 1,
                max_depth,
                min_loss_key,
                node_loss,
                split_loss,
            )
            &&& grows(
                *r,
                rows,
                ncols,
                y,
                idx.filter(not_below_threshold(rows, f, t)),
                depth + 1,
                max_depth,
                min_loss_key,
                node_loss,
                split_loss,
            )
        },
        _ => false,
    }
}

/// What `grows` says of a leaf, for any loss functions.
pub proof fn lemma_grows_leaf<F: Fn(&Vec<usize>) -> u64, G: Fn(&Vec<usize>, &Vec<usize>) -> u64>(
    prediction: usize,
    indices: IndexArray,
    rows: Seq<Seq<u64>>,
    ncols: nat,
    y: Seq<usize>,
    idx: Seq<usize>,
    depth: nat,
    max_depth: nat,
    min_loss_key: u64,
    node_loss: F,
    split_loss: G,
)
    ensures
        grows(
            TreeNode::Leaf { prediction, indices },
            rows,
            ncols,
            y,
            idx,
            depth,
            max_depth,
            min_loss_key,
            node_loss,
            split_loss,
        ) == {
            &&& indices@ == idx
            &&& if idx.len() == 0 {
                prediction == 0
            } else {
                &&& is_most_frequent(labels_of(y, idx), prediction)
                &&& (depth >= max_depth || idx.len() <= 1 || exists|k: u64|
                    #[trigger] is_group_loss(y, idx, node_loss, k) && k <= min_loss_key)
            }
        },
{
}

/// What `grows` says of an internal node, for any loss functions.
pub proof fn lemma_grows_internal<F: Fn(&Vec<usize>) -> u64, G: Fn(&Vec<usize>, &Vec<usize>) -> u64>(
    f: usize,
    t: u64,
    l: TreeNode,
    r: TreeNode,
    rows: Seq<Seq<u64>>,
    ncols: nat,
    y: Seq<usize>,
    idx: Seq<usize>,
    depth: nat,
    max_depth: nat,
    min_loss_key: u64,
    node_loss: F,
    split_loss: G,
)
    ensures
        grows(
            TreeNode::Internal {
                feature: Some(f),
                threshold: Some(t),
                left: Some(Box::new(l)),
                right: Some(Box::new(r)),
            },
            rows,
            ncols,
            y,
            idx,
            depth,
            max_depth,
            min_loss_key,
            node_loss,
            split_loss,
        ) == {
            &&& idx.len() >= 2
            &&& depth < max_depth
            &&& exists|k: u64| #[trigger] is_group_loss(y, idx, node_loss, k) && k > min_loss_key
            &&& is_best_split(rows, ncols, y, idx, split_loss, f, t)
            &&& grows(
                l,
                rows,
                ncols,
                y,
                idx.filter(below_threshold(rows, f, t)),
                depth + 1,
                max_depth,
                min_loss_key,
                node_loss,
                split_loss,
            )
            &&& grows(
                r,
                rows,
                ncols,
                y,
                idx.filter(not_below_threshold(rows, f, t)),
                depth + 1,
                max_depth,
                min_loss_key,
                node_loss,
                split_loss,
            )
        },
{
}

/// Routing each row of `x` through `t` tests only features that `x` has.
pub open spec fn routes_rows(t: TreeNode, x: KeyMatrix) -> bool {
    forall|i: int| 0 <= i < x.num_rows() ==> #[trigger] t.routes_within(x.rows()[i], x.num_cols())
}

/// Every loss key that `node_loss` can give the group of samples `idx` is
/// at most `min_loss_key`: the group is not split for its loss.
pub open spec fn stops_at<F: Fn(&Vec<usize>) -> u64>(y: Seq<usize>, idx: Seq<usize>, node_loss: F, min_loss_key: u64) -> bool {
    forall|k: u64| #[trigger] is_group_loss(y, idx, node_loss, k) ==> k <= min_loss_key
}

/// The sample indices `0 .. n`.
pub open spec fn all_samples(n: nat) -> Seq<usize> {
    Seq::new(n, |i: int| i as usize)
}

/// What a tree grown on training data with keys `rows` (of `ncols` features)
/// and labels `y` is: complete, at most `max_depth` deep, testing only
/// features of the data; its leaves keep every training sample exactly once,
/// each training row is routed to the leaf that keeps it, and every leaf
/// predicts a most frequent label among the samples it keeps.
pub open spec fn is_grown_from(
    t: TreeNode,
    rows: Seq<Seq<u64>>,
    ncols: nat,
    y: Seq<usize>,
    max_depth: nat,
) -> bool {
    &&& t.is_complete()
    &&& t.height() <= max_depth
    &&& t.uses_features_below(ncols)
    &&& t.leaves_predict_majority(y)
    &&& t.all_indices().to_multiset() == all_samples(rows.len()).to_multiset()
    &&& forall|i: usize| i < rows.len() ==> #[trigger] t.routes_to_own_leaf(rows[i as int], i)
}

/// For each training row, a grown tree predicts a most frequent label among
/// the training samples of the leaf that the row reaches, and that row is one
/// of them.
pub proof fn lemma_training_row_gets_leaf_majority(
    t: TreeNode,
    rows: Seq<Seq<u64>>,
    ncols: nat,
    y: Seq<usize>,
    max_depth: nat,
    i: usize,
)
    requires
        is_grown_from(t, rows, ncols, y, max_depth),
        i < rows.len(),
    ensures
        t.routes_to_own_leaf(rows[i as int], i),
        is_most_frequent(t.leaf_labels(y, rows[i as int]), t.predicted(rows[i as int])),
{
    let row = rows[i as int];
    assert(t.routes_to_own_leaf(row, i));
    t.lemma_leaf_of_predicts_majority(y, row);
    match t.leaf_of(row) {
        TreeNode::Leaf { prediction, indices } => {
            assert(indices@.len() > 0);
            assert(labels_of(y, indices@).len() > 0);
        },
        _ => {},
    }
}

/// Predictions follow the rows: when each row of `rows2` is the row of
/// `rows1` at position `order[k]`, a tree's predictions for `rows2` are its
/// predictions for `rows1` taken in that order (a permutation of the rows
/// permutes the predictions the same way).
pub proof fn lemma_predictions_follow_rows(
    t: TreeNode,
    rows1: Seq<Seq<u64>>,
    rows2: Seq<Seq<u64>>,
    order: Seq<int>,
    r1: Seq<usize>,
    r2: Seq<usize>,
)
    requires
        order.len() == rows2.len(),
        forall|k: int| 0 <= k < order.len() ==> 0 <= #[trigger] order[k] < rows1.len(),
        forall|k: int| 0 <= k < order.len() ==> #[trigger] rows2[k] == rows1[order[k]],
        r1.len() == rows1.len(),
        forall|i: int| 0 <= i < rows1.len() ==> #[trigger] r1[i] == t.predicted(rows1[i]),
        r2.len() == rows2.len(),
        forall|i: int| 0 <= i < rows2.len() ==> #[trigger] r2[i] == t.predicted(rows2[i]),
    ensures
        forall|k: int| 0 <= k < order.len() ==> #[trigger] r2[k] == r1[order[k]],
{
    assert forall|k: int| 0 <= k < order.len() implies #[trigger] r2[k] == r1[order[k]] by {
        assert(rows2[k] == rows1[order[k]]);
        assert(r1[order[k]] == t.predicted(rows1[order[k]]));
    }
}

/// A tree grown on training data whose labels are all `c` predicts `c` for
/// every training row.
pub proof fn lemma_single_class_data(
    t: TreeNode,
    rows: Seq<Seq<u64>>,
    ncols: nat,
    y: Seq<usize>,
    max_depth: nat,
    c: usize,
    i: usize,
)
    requires
        is_grown_from(t, rows, ncols, y, max_depth),
        i < rows.len(),
        forall|j: int| 0 <= j < rows.len() ==> #[trigger] y[j] == c,
    ensures
        t.predicted(rows[i as int]) == c,
{
    broadcast use group_to_multiset_ensures;

    let row = rows[i as int];
    lemma_training_row_gets_leaf_majority(t, rows, ncols, y, max_depth, i);
    let p = t.predicted(row);
    match t.leaf_of(row) {
        TreeNode::Leaf { prediction, indices } => {
            let labels = labels_of(y, indices@);
            assert(labels.contains(p));
            let m = choose|m: int| 0 <= m < labels.len() && labels[m] == p;
            let j = indices@[m];
            assert(indices@.contains(j));
            t.lemma_leaf_indices_in_tree(row, j);
            assert(t.all_indices().to_multiset().count(j) > 0);
            assert(all_samples(rows.len()).to_multiset().count(j) > 0);
            assert(all_samples(rows.len()).contains(j));
            let k = choose|k: int| 0 <= k < rows.len() && all_samples(rows.len())[k] == j;
            assert(j < rows.len());
            assert(y[j as int] == c);
        },
        _ => {},
    }
}

/// A decision tree classifier.
pub struct DecisionTreeClassifier {
    max_depth: usize,
    min_loss_key: u64,
    data_x: Option<KeyMatrix>,
    data_y: Option<IndexArray>,
    root: Option<TreeNode>,
}

impl DecisionTreeClassifier {
    /// The fitted tree is complete and tests only features of the training data.
    #[verifier::type_invariant]
    spec fn inv(self) -> bool {
        match self.root {
            Some(t) => t.is_complete() && match self.data_x {
                Some(x) => t.uses_features_below(x.num_cols()),
                None => false,
            },
            None => true,
        }
    }

    /// The fitted tree, if any.
    pub closed spec fn tree(self) -> Option<TreeNode> {
        self.root
    }

    pub closed spec fn max_depth(self) -> nat {
        self.max_depth as nat
    }

    /// The key of the loss at or below which a group of samples becomes a leaf.
    pub closed spec fn min_loss_key(self) -> u64 {
        self.min_loss_key
    }

    /// The feature keys of the training samples, once fitted.
    pub closed spec fn training_rows(self) -> Option<Seq<Seq<u64>>> {
        match self.data_x {
            Some(x) => Some(x.rows()),
            None => None,
        }
    }

    /// The class labels of the training samples, once fitted.
    pub closed spec fn training_labels(self) -> Option<Seq<usize>> {
        match self.data_y {
            Some(y) => Some(y@),
            None => None,
        }
    }

    /// The training data is there, rectangular, and has a label for each row.
    pub closed spec fn has_data(self) -> bool {
        &&& self.data_x is Some
        &&& self.data_y is Some
        &&& self.data_x.unwrap().is_rectangular()
        &&& self.data_y.unwrap()@.len() >= self.data_x.unwrap().num_rows()
    }

    pub closed spec fn x(self) -> KeyMatrix {
        self.data_x.unwrap()
    }

    pub closed spec fn y(self) -> Seq<usize> {
        self.data_y.unwrap()@
    }

    /// Indices that name training samples.
    pub closed spec fn valid_indices(self, idx: Seq<usize>) -> bool {
        forall|k: int| 0 <= k < idx.len() ==> #[trigger] idx[k] < self.x().num_rows()
    }

    /// The training labels are there.
    spec fn has_labels(self) -> bool {
        self.data_y is Some
    }

    /// Indices that name training labels.
    spec fn labelled_indices(self, idx: Seq<usize>) -> bool {
        forall|k: int| 0 <= k < idx.len() ==> #[trigger] idx[k] < self.y().len()
    }

    /// The training feature keys are there, one key per feature in every row.
    spec fn has_features(self) -> bool {
        &&& self.data_x is Some
        &&& self.data_x.unwrap().is_rectangular()
    }

    /// Creates an unfitted classifier that grows trees at most `max_depth`
    /// deep and stops splitting a group whose loss key is at most `min_loss_key`.
    pub fn new(max_depth: usize, min_loss_key: u64) -> (r: Self)
        ensures
            r.tree() is None,
            r.max_depth() == max_depth,
            r.min_loss_key() == min_loss_key,
            r.training_rows() is None,
            r.training_labels() is None,
    {
        DecisionTreeClassifier { max_depth, min_loss_key, data_x: None, data_y: None, root: None }
    }

    /// The labels of the training samples at the given indices.
    fn labels_at(&self, indices: &IndexArray) -> (r: Vec<usize>)
        requires
            self.has_labels(),
            self.labelled_indices(indices@),
        ensures
            r@ == labels_of(self.y(), indices@),
    {
        let y = self.data_y.as_ref().unwrap();
        let n = indices.len();
        let mut out: Vec<usize> = Vec::new();
        let mut k: usize = 0;
        while k < n
            invariant
                n == indices@.len(),
                k <= n,
                self.has_labels(),
                self.labelled_indices(indices@),
                *y == self.data_y.unwrap(),
                out@ == labels_of(self.y(), indices@.take(k as int)),
            decreases n - k,
        {
            let i = indices.get(k);
            assert(i < self.y().len());
            let label = y.get(i);
            proof {
                lemma_labels_push(self.y(), indices@.take(k as int), i);
                assert(indices@.take(k + 1) =~= indices@.take(k as int).push(i));
            }
            out.push(label);
            k = k + 1;
        }
        assert(indices@.take(n as int) =~= indices@);
        out
    }

    /// A most frequent label among the training samples at the given indices,
    /// or `None` when there are no indices.
    fn calculate_leaf_prediction(&self, indices: &IndexArray) -> (r: Option<usize>)
        requires
            self.has_labels(),
            self.labelled_indices(indices@),
        ensures
            r is None <==> indices@.len() == 0,
            r matches Some(c) ==> is_most_frequent(labels_of(self.y(), indices@), c),
    {
        let labels = self.labels_at(indices);
        most_frequent(&labels)
    }

    /// Splits the samples by their key for `feature`: those below `threshold`
    /// go left, the others right, each side in the given order.
    fn split_data(&self, indices: IndexArray, feature: usize, threshold: u64) -> (r: (
        IndexArray,
        IndexArray,
    ))
        requires
            self.has_features(),
            self.valid_indices(indices@),
            feature < self.x().num_cols(),
        ensures
            r.0@ == indices@.filter(below_threshold(self.x().rows(), feature, threshold)),
            r.1@ == indices@.filter(not_below_threshold(self.x().rows(), feature, threshold)),
    {
        let x = self.data_x.as_ref().unwrap();
        let ghost p = below_threshold(self.x().rows(), feature, threshold);
        let ghost q = not_below_threshold(self.x().rows(), feature, threshold);
        let n = indices.len();
        let mut left: Vec<usize> = Vec::new();
        let mut right: Vec<usize> = Vec::new();
        let mut k: usize = 0;
        while k < n
            invariant
                n == indices@.len(),
                k <= n,
                self.has_features(),
                self.valid_indices(indices@),
                *x == self.x(),
                feature < self.x().num_cols(),
                p == below_threshold(self.x().rows(), feature, threshold),
                q == not_below_threshold(self.x().rows(), feature, threshold),
                left@ == indices@.take(k as int).filter(p),
                right@ == indices@.take(k as int).filter(q),
            decreases n - k,
        {
            let i = indices.get(k);
            assert(i < self.x().num_rows());
            proof {
                lemma_filter_take_step(indices@, p, k as int);
                lemma_filter_take_step(indices@, q, k as int);
            }
            if x.get(i, feature) < threshold {
                left.push(i);
            } else {
                right.push(i);
            }
            k = k + 1;
        }
        assert(indices@.take(n as int) =~= indices@);
        (IndexArray::new(left), IndexArray::new(right))
    }
    /// Scores every candidate split of the samples at the given indices.
    ///
    /// For each feature in order, the samples are sorted by their key for it
    /// (equal keys by sample) and swept once with running label counts. At
    /// every position after the first, the threshold is that sample's key and
    /// the score is the loss key that `split_loss` gives for the label counts
    /// of the samples whose key is below the threshold (left) and of the
    /// others (right), with the feature, the threshold key and the sample.
    fn score_splits<G>(&self, indices: &IndexArray, split_loss: &G) -> (scores: Vec<(u64, usize, u64, usize)>) where
        G: Fn(&Vec<usize>, &Vec<usize>) -> u64,

        requires
            self.has_data(),
            self.valid_indices(indices@),
            forall|a: &Vec<usize>, b: &Vec<usize>| #[trigger] split_loss.requires((a, b)),
        ensures
            scores_all_candidates(self.x().rows(), self.x().num_cols(), self.y(), indices@, *split_loss, scores@),
    {
        broadcast use group_to_multiset_ensures;

        let x = self.data_x.as_ref().unwrap();
        let y = self.data_y.as_ref().unwrap();
        let nf = x.ncols();
        let n = indices.len();
        let labels = self.labels_at(indices);
        let (classes, _counts) = tally(&labels);
        let nc = classes.len();
        let ghost rows = self.x().rows();
        let ghost ncols = self.x().num_cols();
        let mut scores: Vec<(u64, usize, u64, usize)> = Vec::new();
        let mut feature: usize = 0;
        while feature < nf
            invariant
                self.has_data(),
                self.valid_indices(indices@),
                *x == self.x(),
                *y == self.data_y.unwrap(),
                rows == self.x().rows(),
                ncols == self.x().num_cols(),
                nf == ncols,
                n == indices@.len(),
                feature <= nf,
                nc == classes@.len(),
                labels@ == labels_of(self.y(), indices@),
                lists_classes_of(classes@, labels@),
                forall|a: &Vec<usize>, b: &Vec<usize>| #[trigger] split_loss.requires((a, b)),
                forall|j: int|
                    0 <= j < scores@.len() ==> #[trigger] is_scored_split(rows, ncols, self.y(), indices@, *split_loss, scores@[j]),
                forall|f: usize, e: usize|
                    f < feature && #[trigger] is_candidate(rows, ncols, indices@, f, e) ==> has_score_for(scores@, f, e),
            decreases nf - feature,
        {
            let mut pairs: Vec<(u64, usize)> = Vec::new();
            let mut k: usize = 0;
            while k < n
                invariant
                    self.has_data(),
                    self.valid_indices(indices@),
                    *x == self.x(),
                    rows == self.x().rows(),
                    n == indices@.len(),
                    k <= n,
                    feature < nf,
                    nf == self.x().num_cols(),
                    pairs@ == keyed(rows, feature, indices@.take(k as int)),
                decreases n - k,
            {
                let i = indices.get(k);
                assert(i < self.x().num_rows());
                let key = x.get(i, feature);
                pairs.push((key, i));
                k = k + 1;
                assert(indices@.take(k as int) =~= indices@.take(k - 1).push(i));
                assert(pairs@ =~= keyed(rows, feature, indices@.take(k as int)));
            }
            assert(indices@.take(n as int) =~= indices@);
            let ghost unsorted = pairs@;
            sort_pairs(&mut pairs);
            let ghost sorted = pairs@;
            let ghost order = samples_of(sorted);
            proof {
                let h = |pr: (u64, usize)| pr.1;
                lemma_map_same_items(sorted, unsorted, h);
                to_multiset_len(sorted);
                to_multiset_len(unsorted);
                assert(order =~= sorted.map_values(h));
                assert(indices@ =~= unsorted.map_values(h));
                assert forall|j: int| 0 <= j < sorted.len() implies #[trigger] sorted[j].0 == rows[sorted[j].1 as int][feature as int]
                    && sorted[j].1 < self.x().num_rows() by {
                    assert(sorted.contains(sorted[j]));
                    to_multiset_contains(sorted, sorted[j]);
                    to_multiset_contains(unsorted, sorted[j]);
                    assert(unsorted.contains(sorted[j]));
                    let m = choose|m: int| 0 <= m < unsorted.len() && unsorted[m] == sorted[j];
                    assert(unsorted[m] == (rows[indices@[m] as int][feature as int], indices@[m]));
                    assert(indices@[m] < self.x().num_rows());
                }
            }
            let mut lc: Vec<usize> = Vec::new();
            let mut c: usize = 0;
            while c < nc
                invariant
                    c <= nc,
                    lc@.len() == c,
                    forall|m: int| 0 <= m < c ==> lc@[m] == 0,
                decreases nc - c,
            {
                lc.push(0);
                c = c + 1;
            }
            let mut rc = counts_for(&classes, &labels);
            proof {
                lemma_counts_transfer(classes@, rc@, self.y(), indices@, order);
                assert(order.skip(0) =~= order);
                assert(order.take(0) =~= Seq::<usize>::empty());
                assert(labels_of(self.y(), order.take(0)) =~= Seq::<usize>::empty());
                assert forall|m: int| 0 <= m < nc implies #[trigger] lc@[m] == count_of(
                    labels_of(self.y(), order.take(0)),
                    classes@[m],
                ) by {
                    lemma_count_empty(classes@[m]);
                }
            }
            let mut run_start: usize = 0;
            let mut run_lc = copy_counts(&lc);
            let mut run_rc = copy_counts(&rc);
            let mut p: usize = 0;
            while p < n
                invariant
                    self.has_data(),
                    self.valid_indices(indices@),
                    *x == self.x(),
                    *y == self.data_y.unwrap(),
                    rows == self.x().rows(),
                    ncols == self.x().num_cols(),
                    nf == ncols,
                    n == indices@.len(),
                    feature < nf,
                    nc == classes@.len(),
                    labels@ == labels_of(self.y(), indices@),
                    lists_classes_of(classes@, labels@),
                    forall|a: &Vec<usize>, b: &Vec<usize>| #[trigger] split_loss.requires((a, b)),
                    sorted == pairs@,
                    order == samples_of(sorted),
                    sorted.len() == n,
                    order.to_multiset() == indices@.to_multiset(),
                    forall|i: int, j: int| 0 <= i < j < sorted.len() ==> pair_le(#[trigger] sorted[i], #[trigger] sorted[j]),
                    forall|j: int|
                        0 <= j < sorted.len() ==> #[trigger] sorted[j].0 == rows[sorted[j].1 as int][feature as int]
                            && sorted[j].1 < self.x().num_rows(),
                    p <= n,
                    lc@.len() == nc,
                    rc@.len() == nc,
                    forall|m: int| 0 <= m < nc ==> #[trigger] lc@[m] <= p,
                    counts_match(classes@, lc@, labels_of(self.y(), order.take(p as int))),
                    counts_match(classes@, rc@, labels_of(self.y(), order.skip(p as int))),
                    run_start <= p,
                    p > 0 ==> run_start < p && sorted[run_start as int].0 == sorted[p - 1].0,
                    run_start > 0 ==> sorted[run_start - 1].0 < sorted[run_start as int].0,
                    counts_match(classes@, run_lc@, labels_of(self.y(), order.take(run_start as int))),
                    counts_match(classes@, run_rc@, labels_of(self.y(), order.skip(run_start as int))),
                    forall|j: int|
                        0 <= j < scores@.len() ==> #[trigger] is_scored_split(rows, ncols, self.y(), indices@, *split_loss, scores@[j]),
                    forall|f: usize, e: usize|
                        f < feature && #[trigger] is_candidate(rows, ncols, indices@, f, e) ==> has_score_for(scores@, f, e),
                    forall|e: usize, j: int|
                        #![trigger is_candidate(rows, ncols, indices@, feature, e), order[j]]
                        1 <= j < p && order[j] == e && is_candidate(rows, ncols, indices@, feature, e)
                            ==> has_score_for(scores@, feature, e),
                decreases n - p,
            {
                let (ek, e) = pairs[p];
                let ghost old_scores = scores@;
                assert(order[p as int] == e);
                if p == 0 || pairs[p - 1].0 != ek {
                    run_start = p;
                    run_lc = copy_counts(&lc);
                    run_rc = copy_counts(&rc);
                }
                proof {
                    if p > 0 {
                        assert(pair_le(sorted[p - 1], sorted[p as int]));
                    }
                    assert(sorted[run_start as int].0 == ek);
                }
                if p > 0 {
                    let key = split_loss(&run_lc, &run_rc);
                    proof {
                        let bp = below_threshold(rows, feature, ek);
                        let np = not_below_threshold(rows, feature, ek);
                        lemma_sorted_below(sorted, rows, feature, run_start as int);
                        lemma_filter_same_items(indices@, order, bp);
                        lemma_filter_same_items(indices@, order, np);
                        lemma_counts_transfer(classes@, run_lc@, self.y(), order.take(run_start as int), indices@.filter(bp));
                        lemma_counts_transfer(classes@, run_rc@, self.y(), order.skip(run_start as int), indices@.filter(np));
                        lemma_sorted_up_to(sorted, rows, feature, p as int);
                        lemma_filter_same_items(indices@, order, up_to(rows, feature, e));
                        to_multiset_len(indices@.filter(up_to(rows, feature, e)));
                        to_multiset_len(order.filter(up_to(rows, feature, e)));
                        to_multiset_contains(order, e);
                        to_multiset_contains(indices@, e);
                        assert(is_candidate(rows, ncols, indices@, feature, e));
                        let score = (key, feature, ek, e);
                        assert(scored_with(rows, self.y(), indices@, *split_loss, score, classes@, run_lc, run_rc));
                        assert(is_scored_split(rows, ncols, self.y(), indices@, *split_loss, score));
                    }
                    scores.push((key, feature, ek, e));
                    proof {
                        assert(has_score_for(scores@, feature, e)) by {
                            assert(scores@[scores@.len() - 1] == (key, feature, ek, e));
                        }
                    }
                }
                proof {
                    to_multiset_contains(order, e);
                    to_multiset_contains(indices@, e);
                    assert(indices@.contains(e));
                }
                let label = y.get(e);
                proof {
                    let m = choose|m: int| 0 <= m < indices@.len() && indices@[m] == e;
                    assert(labels@[m] == label);
                    assert(labels@.contains(label));
                    assert(classes@.contains(label));
                }
                match position_of(&classes, label) {
                    Some(ci) => {
                        let ghost skip_next = order.skip(p + 1);
                        proof {
                            assert(order.skip(p as int) =~= skip_next.insert(0, e));
                            assert(labels_of(self.y(), order.skip(p as int)) =~= labels_of(self.y(), skip_next).insert(0, label));
                            lemma_count_insert_front(labels_of(self.y(), skip_next), label, label);
                            assert(rc@[ci as int] == count_of(labels_of(self.y(), order.skip(p as int)), classes@[ci as int]));
                        }
                        let l = lc[ci];
                        lc.set(ci, l + 1);
                        let r = rc[ci];
                        rc.set(ci, r - 1);
                        proof {
                            let before_take = order.take(p as int);
                            assert(order.take(p + 1) =~= before_take.push(e));
                            assert(labels_of(self.y(), order.take(p + 1)) =~= labels_of(self.y(), before_take).push(label));
                            assert forall|m: int| 0 <= m < nc implies #[trigger] lc@[m] == count_of(
                                labels_of(self.y(), order.take(p + 1)),
                                classes@[m],
                            ) by {
                                lemma_count_push(labels_of(self.y(), before_take), label, classes@[m]);
                            }
                            assert forall|m: int| 0 <= m < nc implies #[trigger] rc@[m] == count_of(
                                labels_of(self.y(), skip_next),
                                classes@[m],
                            ) by {
                                lemma_count_insert_front(labels_of(self.y(), skip_next), label, classes@[m]);
                            }
                            assert forall|e2: usize, j: int|
                                #![trigger is_candidate(rows, ncols, indices@, feature, e2), order[j]]
                                1 <= j < p + 1 && order[j] == e2 && is_candidate(rows, ncols, indices@, feature, e2)
                                    implies has_score_for(scores@, feature, e2) by {
                                if j < p {
                                    assert(has_score_for(old_scores, feature, e2));
                                    let k = choose|k: int|
                                        0 <= k < old_scores.len() && old_scores[k].1 == feature && old_scores[k].3 == e2;
                                    assert(scores@[k] == old_scores[k]);
                                }
                            }
                            assert forall|j: int|
                                0 <= j < scores@.len() implies #[trigger] is_scored_split(rows, ncols, self.y(), indices@, *split_loss, scores@[j]) by {
                            }
                            assert forall|f: usize, e2: usize|
                                f < feature && #[trigger] is_candidate(rows, ncols, indices@, f, e2) implies has_score_for(scores@, f, e2) by {
                                assert(has_score_for(old_scores, f, e2));
                                let k = choose|k: int| 0 <= k < old_scores.len() && old_scores[k].1 == f && old_scores[k].3 == e2;
                                assert(scores@[k] == old_scores[k]);
                            }
                        }
                    },
                    None => {
                        proof {
                            assert(false);
                        }
                    },
                }
                p = p + 1;
            }
            proof {
                assert forall|f: usize, e: usize|
                    f < feature + 1 && #[trigger] is_candidate(rows, ncols, indices@, f, e) implies has_score_for(scores@, f, e) by {
                    if f == feature {
                        to_multiset_contains(order, e);
                        to_multiset_contains(indices@, e);
                        assert(order.contains(e));
                        if forall|j: int| 1 <= j < n ==> #[trigger] order[j] != e {
                            let j0 = choose|j0: int| 0 <= j0 < order.len() && order[j0] == e;
                            assert(j0 == 0);
                            assert forall|j: int| 1 <= j < sorted.len() implies #[trigger] sorted[j].1 != sorted[0].1 by {
                                assert(order[j] == sorted[j].1);
                            }
                            lemma_sorted_first_only(sorted, rows, feature);
                            lemma_filter_same_items(indices@, order, up_to(rows, feature, e));
                            to_multiset_len(indices@.filter(up_to(rows, feature, e)));
                            to_multiset_len(order.filter(up_to(rows, feature, e)));
                            assert(false);
                        }
                        let j = choose|j: int| 1 <= j < n && order[j] == e;
                        assert(order[j] == e);
                    }
                }
            }
            feature = feature + 1;
        }
        scores
    }

    /// The best split of the samples at the given indices, as `(feature,
    /// threshold key)`: the first minimum by `split_precedes` among the scored
    /// candidates (see `score_splits`), or `(0, key of sample 0 for feature 0)`
    /// when there is no candidate, which happens only with fewer than two
    /// indices. A split sends left the samples whose key is below the
    /// threshold, and scores them so.
    fn find_best_split<G>(&self, indices: &IndexArray, split_loss: &G) -> (r: (usize, u64)) where
        G: Fn(&Vec<usize>, &Vec<usize>) -> u64,

        requires
            self.has_data(),
            self.valid_indices(indices@),
            self.x().num_rows() > 0,
            self.x().num_cols() > 0,
            forall|a: &Vec<usize>, b: &Vec<usize>| #[trigger] split_loss.requires((a, b)),
        ensures
            r.0 < self.x().num_cols(),
            is_best_split(self.x().rows(), self.x().num_cols(), self.y(), indices@, *split_loss, r.0, r.1),
            indices@.len() >= 2 ==> is_key_of_some(self.x().rows(), indices@, r.0, r.1),
    {
        let x = self.data_x.as_ref().unwrap();
        let scores = self.score_splits(indices, split_loss);
        match best_split(&scores) {
            Some(j) => {
                let (_, feature, threshold, _) = scores[j];
                proof {
                    assert(is_scored_split(self.x().rows(), self.x().num_cols(), self.y(), indices@, *split_loss, scores@[j as int]));
                    let e = scores@[j as int].3;
                    assert(indices@.contains(e) && threshold == self.x().rows()[e as int][feature as int]);
                    assert(is_key_of_some(self.x().rows(), indices@, feature, threshold));
                }
                (feature, threshold)
            },
            None => {
                proof {
                    assert forall|f: usize, e: usize| !is_candidate(self.x().rows(), self.x().num_cols(), indices@, f, e) by {
                        if is_candidate(self.x().rows(), self.x().num_cols(), indices@, f, e) {
                            assert(has_score_for(scores@, f, e));
                        }
                    }
                    if indices@.len() >= 2 {
                        let e = lemma_two_samples_have_candidate(self.x().rows(), self.x().num_cols(), indices@);
                        assert(is_candidate(self.x().rows(), self.x().num_cols(), indices@, 0, e));
                        assert(false);
                    }
                }
                (0, x.get(0, 0))
            },
        }
    }

    /// Grows the subtree for the training samples at the given indices, found
    /// `depth` levels below the root.
    ///
    /// A group becomes a leaf when it is empty (predicting 0), when the tree is
    /// `max_depth` deep here or the group has at most one sample, or when the
    /// loss key that `node_loss` gives for its label counts is at most
    /// `min_loss_key`; a leaf predicts a most frequent label of its group.
    /// Otherwise the group is split as `find_best_split` chooses and both
    /// sides are grown one level deeper.
    pub fn build_tree<F, G>(&self, indices: IndexArray, depth: usize, node_loss: &F, split_loss: &G) -> (node: TreeNode) where
        F: Fn(&Vec<usize>) -> u64,
        G: Fn(&Vec<usize>, &Vec<usize>) -> u64,

        requires
            self.has_data(),
            self.valid_indices(indices@),
            self.x().num_cols() > 0 || indices@.len() <= 1 || depth >= self.max_depth() || stops_at(
                self.y(),
                indices@,
                *node_loss,
                self.min_loss_key(),
            ),
            forall|c: &Vec<usize>| #[trigger] node_loss.requires((c,)),
            forall|a: &Vec<usize>, b: &Vec<usize>| #[trigger] split_loss.requires((a, b)),
        ensures
            node.is_complete(),
            depth >= self.max_depth() ==> node.height() == 0,
            depth < self.max_depth() ==> node.height() <= self.max_depth() - depth,
            node.uses_features_below(self.x().num_cols()),
            node.leaves_predict_majority(self.y()),
            node.all_indices().to_multiset() =~= indices@.to_multiset(),
            forall|i: usize|
                indices@.contains(i) ==> #[trigger] node.routes_to_own_leaf(self.x().rows()[i as int], i),
            grows(
                node,
                self.x().rows(),
                self.x().num_cols(),
                self.y(),
                indices@,
                depth as nat,
                self.max_depth(),
                self.min_loss_key(),
                *node_loss,
                *split_loss,
            ),
        decreases self.max_depth() - depth,
    {
        let n = indices.len();
        if n == 0 {
            proof {
                crate::counting::lemma_count_empty(0);
                assert(labels_of(self.y(), indices@) =~= Seq::<usize>::empty());
            }
            return TreeNode::Leaf { prediction: 0, indices };
        }
        if depth >= self.max_depth || n <= 1 {
            return self.make_leaf(indices);
        }
        let labels = self.labels_at(&indices);
        let (classes, counts) = tally(&labels);
        let loss = node_loss(&counts);
        proof {
            assert(group_loss_with(self.y(), indices@, *node_loss, loss, classes@, counts));
            assert(is_group_loss(self.y(), indices@, *node_loss, loss));
        }
        if loss <= self.min_loss_key {
            return self.make_leaf(indices);
        }
        proof {
            assert(indices@[0] < self.x().num_rows());
        }
        let (best_feature, best_threshold) = self.find_best_split(&indices, split_loss);
        let ghost idx = indices@;
        let ghost p = below_threshold(self.x().rows(), best_feature, best_threshold);
        let ghost q = not_below_threshold(self.x().rows(), best_feature, best_threshold);
        let (index_left, index_right) = self.split_data(indices, best_feature, best_threshold);
        proof {
            assert forall|k: int| 0 <= k < index_left@.len() implies #[trigger] index_left@[k]
                < self.x().num_rows() by {
                assert(index_left@.contains(index_left@[k]));
                lemma_filter_contains(idx, p, index_left@[k]);
                let j = choose|j: int| 0 <= j < idx.len() && idx[j] == index_left@[k];
            }
            assert forall|k: int| 0 <= k < index_right@.len() implies #[trigger] index_right@[k]
                < self.x().num_rows() by {
                assert(index_right@.contains(index_right@[k]));
                lemma_filter_contains(idx, q, index_right@[k]);
                let j = choose|j: int| 0 <= j < idx.len() && idx[j] == index_right@[k];
            }
        }
        let left = self.build_tree(index_left, depth + 1, node_loss, split_loss);
        let right = self.build_tree(index_right, depth + 1, node_loss, split_loss);
        let node = TreeNode::Internal {
            feature: Some(best_feature),
            threshold: Some(best_threshold),
            left: Some(Box::new(left)),
            right: Some(Box::new(right)),
        };
        proof {
            lemma_filter_partition(idx, p, q);
            assert(node.all_indices() == left.all_indices() + right.all_indices());
            assert((left.all_indices() + right.all_indices()).to_multiset() =~= left.all_indices().to_multiset().add(
                right.all_indices().to_multiset(),
            )) by {
                vstd::seq_lib::lemma_multiset_commutative(left.all_indices(), right.all_indices());
            }
            assert forall|i: usize| idx.contains(i) implies #[trigger] node.routes_to_own_leaf(
                self.x().rows()[i as int],
                i,
            ) by {
                let row = self.x().rows()[i as int];
                assert(row[best_feature as int] == self.x().key(i as int, best_feature as int));
                if self.x().key(i as int, best_feature as int) < best_threshold {
                    lemma_filter_contains(idx, p, i);
                    assert(left.routes_to_own_leaf(row, i));
                } else {
                    lemma_filter_contains(idx, q, i);
                    assert(right.routes_to_own_leaf(row, i));
                }
            }
        }
        node
    }

    /// A leaf for the training samples at the given indices, predicting a most
    /// frequent label among them.
    fn make_leaf(&self, indices: IndexArray) -> (node: TreeNode)
        requires
            self.has_data(),
            self.valid_indices(indices@),
            indices@.len() > 0,
        ensures
            node matches TreeNode::Leaf { prediction, indices: kept } && kept@ == indices@
                && is_most_frequent(labels_of(self.y(), indices@), prediction),
            node.is_complete(),
            node.height() == 0,
            node.leaves_predict_majority(self.y()),
            node.all_indices() == indices@,
            forall|i: usize|
                indices@.contains(i) ==> #[trigger] node.routes_to_own_leaf(self.x().rows()[i as int], i),
    {
        match self.calculate_leaf_prediction(&indices) {
            Some(prediction) => TreeNode::Leaf { prediction, indices },
            None => {
                proof {
                    assert(false);
                }
                TreeNode::Leaf { prediction: 0, indices }
            },
        }
    }
    /// Fits the classifier to training data: feature keys `x`, one row per
    /// sample, and class labels `y`, one per row.
    ///
    /// `node_loss` gives the loss key of a group of samples from its label
    /// counts; `split_loss` gives the loss key of a split from the label counts
    /// on its left and on its right (each count vector lists the same classes
    /// in the same order). Data without features cannot be split, so with two
    /// rows or more and a tree allowed to grow, the loss of the whole data
    /// must stop splitting.
    pub fn fit<F, G>(&mut self, x: &KeyMatrix, y: &IndexArray, node_loss: &F, split_loss: &G) where
        F: Fn(&Vec<usize>) -> u64,
        G: Fn(&Vec<usize>, &Vec<usize>) -> u64,

        requires
            y@.len() >= x.num_rows(),
            x.num_cols() > 0 || x.num_rows() <= 1 || old(self).max_depth() == 0 || stops_at(
                y@,
                all_samples(x.num_rows()),
                *node_loss,
                old(self).min_loss_key(),
            ),
            forall|c: &Vec<usize>| #[trigger] node_loss.requires((c,)),
            forall|a: &Vec<usize>, b: &Vec<usize>| #[trigger] split_loss.requires((a, b)),
        ensures
            final(self).max_depth() == old(self).max_depth(),
            final(self).min_loss_key() == old(self).min_loss_key(),
            final(self).training_rows() == Some(x.rows()),
            final(self).training_labels() == Some(y@),
            final(self).has_data(),
            final(self).x().rows() == x.rows(),
            final(self).x().num_cols() == x.num_cols(),
            final(self).y() == y@,
            final(self).tree() matches Some(t) && is_grown_from(
                t,
                x.rows(),
                x.num_cols(),
                y@,
                old(self).max_depth(),
            ) && grows(
                t,
                x.rows(),
                x.num_cols(),
                y@,
                all_samples(x.num_rows()),
                0,
                old(self).max_depth(),
                old(self).min_loss_key(),
                *node_loss,
                *split_loss,
            ),
    {
        let n = x.nrows();
        let _nc = x.ncols();  // every row has this many keys
        self.root = None;
        self.data_x = Some(x.duplicate());
        self.data_y = Some(y.duplicate());
        let mut all: Vec<usize> = Vec::new();
        let mut k: usize = 0;
        while k < n
            invariant
                k <= n,
                all@ == all_samples(k as nat),
            decreases n - k,
        {
            all.push(k);
            k = k + 1;
            assert(all@ =~= all_samples(k as nat));
        }
        let index = IndexArray::new(all);
        assert(self.x().rows() == x.rows());
        let root = self.build_tree(index, 0, node_loss, split_loss);
        proof {
            assert forall|i: usize| i < x.num_rows() implies #[trigger] root.routes_to_own_leaf(
                x.rows()[i as int],
                i,
            ) by {
                assert(all_samples(n as nat)[i as int] == i);
                assert(all_samples(n as nat).contains(i));
            }
        }
        self.root = Some(root);
    }

    /// The predicted class of each row of feature keys: the prediction of the
    /// leaf that the row reaches. An unfitted classifier predicts nothing.
    pub fn predict(&self, x: &KeyMatrix) -> (r: IndexArray)
        requires
            self.tree() matches Some(t) ==> routes_rows(t, *x),
        ensures
            self.tree() is None ==> r@.len() == 0,
            self.tree() matches Some(t) ==> {
                &&& r@.len() == x.num_rows()
                &&& forall|i: int| 0 <= i < x.num_rows() ==> #[trigger] r@[i] == t.predicted(x.rows()[i])
            },
    {
        proof {
            use_type_invariant(self);
        }
        let mut predictions: Vec<usize> = Vec::new();
        match &self.root {
            Some(root) => {
                let nr = x.nrows();
                let nc = x.ncols();
                proof {
                    assert(self.tree() == Some(*root));
                    assert(routes_rows(*root, *x));
                }
                let mut i: usize = 0;
                while i < nr
                    invariant
                        i <= nr,
                        nr == x.num_rows(),
                        nc == x.num_cols(),
                        forall|j: int| 0 <= j < nr ==> #[trigger] root.routes_within(x.rows()[j], x.num_cols()),
                        root.is_complete(),
                        forall|j: int| 0 <= j < nr ==> #[trigger] x.rows()[j].len() == nc,
                        predictions@.len() == i,
                        forall|j: int| 0 <= j < i ==> #[trigger] predictions@[j] == root.predicted(x.rows()[j]),
                    decreases nr - i,
                {
                    let ghost row = x.rows()[i as int];
                    let ghost before = predictions@;
                    assert(root.routes_within(x.rows()[i as int], x.num_cols()));
                    let mut current: &TreeNode = root;
                    loop
                        invariant_except_break
                            current.is_complete(),
                            current.routes_within(row, x.num_cols()),
                            current.leaf_of(row) == root.leaf_of(row),
                            predictions@ == before,
                        invariant
                            i < nr,
                            nr == x.num_rows(),
                            nc == x.num_cols(),
                            row == x.rows()[i as int],
                            row.len() == nc,
                        ensures
                            predictions@ == before.push(root.predicted(row)),
                        decreases current.height(),
                    {
                        match current {
                            TreeNode::Leaf { prediction, .. } => {
                                predictions.push(*prediction);
                                break ;
                            },
                            TreeNode::Internal {
                                feature: Some(f),
                                threshold: Some(t),
                                left: Some(l),
                                right: Some(rt),
                            } => {
                                let value = x.get(i, *f);
                                if value < *t {
                                    current = &**l;
                                } else {
                                    current = &**rt;
                                }
                            },
                            _ => {
                                proof {
                                    assert(false);
                                }
                                break ;
                            },
                        }
                    }
                    i = i + 1;
                }
            },
            None => {},
        }
        IndexArray::new(predictions)
    }
    /// Gives up the fitted tree.
    pub(crate) fn into_tree(self) -> (r: Option<TreeNode>)
        ensures
            r == self.tree(),
            r matches Some(t) ==> t.is_complete(),
    {
        proof {
            use_type_invariant(&self);
        }
        self.root
    }
    /// Whether `predict` can route every row of `x`: each row reaches a leaf
    /// testing only features that the rows have.
    pub fn can_predict(&self, x: &KeyMatrix) -> (ok: bool)
        ensures
            ok == (self.tree() matches Some(t) ==> routes_rows(t, *x)),
    {
        proof {
            use_type_invariant(self);
        }
        match &self.root {
            Some(t) => {
                let nr = x.nrows();
                let _nc = x.ncols();  // every row has this many keys
                let mut i: usize = 0;
                while i < nr
                    invariant
                        i <= nr,
                        nr == x.num_rows(),
                        self.root == Some(*t),
                        t.is_complete(),
                        forall|j: int| 0 <= j < nr ==> #[trigger] x.rows()[j].len() == x.num_cols(),
                        forall|j: int| 0 <= j < i ==> #[trigger] t.routes_within(x.rows()[j], x.num_cols()),
                    decreases nr - i,
                {
                    if !t.can_route(x, i) {
                        proof {
                            assert(!routes_rows(*t, *x));
                            assert(self.tree() == Some(*t));
                        }
                        return false;
                    }
                    i = i + 1;
                }
                true
            },
            None => true,
        }
    }
}

} // verus!
