//! Decision tree nodes, and what a tree predicts for a row of feature keys.
use vstd::prelude::*;
use crate::arrays::{IndexArray, KeyMatrix};
use crate::counting::is_most_frequent;

verus! {

/// A node of a decision tree.
///
/// An internal node sends a row to `left` when the row's key for `feature` is
/// below `threshold`, and to `right` otherwise. A leaf predicts `prediction`
/// and keeps the indices of the training samples that reached it.
pub enum TreeNode {
    Internal {
        feature: Option<usize>,
        threshold: Option<u64>,
        left: Option<Box<TreeNode>>,
        right: Option<Box<TreeNode>>,
    },
    Leaf { prediction: usize, indices: IndexArray },
}

/// The labels of the samples at the given indices, in order.
pub open spec fn labels_of(y: Seq<usize>, idx: Seq<usize>) -> Seq<usize> {
    idx.map_values(|i: usize| y[i as int])
}

/// What a leaf over the given labels predicts: a most frequent label, or 0
/// when no sample reached it.
pub open spec fn leaf_prediction_ok(labels: Seq<usize>, prediction: usize) -> bool {
    if labels.len() == 0 {
        prediction == 0
    } else {
        is_most_frequent(labels, prediction)
    }
}

impl TreeNode {
    /// Every internal node has its feature, its threshold and both children.
    pub open spec fn is_complete(self) -> bool
        decreases self,
    {
        match self {
            TreeNode::Leaf { .. } => true,
            TreeNode::Internal {
                feature: Some(_),
                threshold: Some(_),
                left: Some(l),
                right: Some(r),
            } => l.is_complete() && r.is_complete(),
            TreeNode::Internal { .. } => false,
        }
    }

    /// The number of internal nodes on the longest path from this node to a leaf.
    pub open spec fn height(self) -> nat
        decreases self,
    {
        match self {
            TreeNode::Internal { left: Some(l), right: Some(r), .. } => {
                let hl = l.height();
                let hr = r.height();
                1 + if hl >= hr {
                    hl
                } else {
                    hr
                }
            },
            _ => 0,
        }
    }

    /// Every internal node tests a feature below `n`.
    pub open spec fn uses_features_below(self, n: nat) -> bool
        decreases self,
    {
        match self {
            TreeNode::Internal { feature: Some(f), left: Some(l), right: Some(r), .. } => f < n
                && l.uses_features_below(n) && r.uses_features_below(n),
            _ => true,
        }
    }

    /// The leaf that a row of feature keys reaches from this node.
    pub open spec fn leaf_of(self, row: Seq<u64>) -> TreeNode
        decreases self,
    {
        match self {
            TreeNode::Internal {
                feature: Some(f),
                threshold: Some(t),
                left: Some(l),
                right: Some(r),
            } => if row[f as int] < t {
                l.leaf_of(row)
            } else {
                r.leaf_of(row)
            },
            _ => self,
        }
    }

    /// What the tree predicts for a row of feature keys.
    pub open spec fn predicted(self, row: Seq<u64>) -> usize {
        match self.leaf_of(row) {
            TreeNode::Leaf { prediction, .. } => prediction,
            _ => 0,
        }
    }

    /// The training indices that the leaves keep, leaf by leaf from left to right.
    pub open spec fn all_indices(self) -> Seq<usize>
        decreases self,
    {
        match self {
            TreeNode::Leaf { indices, .. } => indices@,
            TreeNode::Internal { left: Some(l), right: Some(r), .. } => l.all_indices()
                + r.all_indices(),
            _ => Seq::empty(),
        }
    }

    /// Every leaf predicts a most frequent label of the training samples it keeps
    /// (0 when it keeps none).
    pub open spec fn leaves_predict_majority(self, y: Seq<usize>) -> bool
        decreases self,
    {
        match self {
            TreeNode::Leaf { prediction, indices } => leaf_prediction_ok(
                labels_of(y, indices@),
                prediction,
            ),
            TreeNode::Internal { left: Some(l), right: Some(r), .. } => l.leaves_predict_majority(y)
                && r.leaves_predict_majority(y),
            _ => true,
        }
    }

    /// The row reaches a leaf that keeps training index `i`.
    pub open spec fn routes_to_own_leaf(self, row: Seq<u64>, i: usize) -> bool {
        match self.leaf_of(row) {
            TreeNode::Leaf { indices, .. } => indices@.contains(i),
            _ => false,
        }
    }

    /// A complete tree sends every row to a leaf.
    pub proof fn lemma_reaches_leaf(self, row: Seq<u64>)
        requires
            self.is_complete(),
        ensures
            self.leaf_of(row) is Leaf,
        decreases self,
    {
        match self {
            TreeNode::Internal {
                feature: Some(f),
                threshold: Some(t),
                left: Some(l),
                right: Some(r),
            } => {
                l.lemma_reaches_leaf(row);
                r.lemma_reaches_leaf(row);
            },
            _ => {},
        }
    }
    /// A tree whose leaves all predict a most frequent label of their samples
    /// sends every row to such a leaf.
    pub proof fn lemma_leaf_of_predicts_majority(self, y: Seq<usize>, row: Seq<u64>)
        requires
            self.is_complete(),
            self.leaves_predict_majority(y),
        ensures
            self.leaf_of(row) matches TreeNode::Leaf { prediction, indices } && leaf_prediction_ok(
                labels_of(y, indices@),
                prediction,
            ),
        decreases self,
    {
        match self {
            TreeNode::Internal {
                feature: Some(f),
                threshold: Some(t),
                left: Some(l),
                right: Some(r),
            } => {
                l.lemma_leaf_of_predicts_majority(y, row);
                r.lemma_leaf_of_predicts_majority(y, row);
            },
            _ => {},
        }
    }

    /// The samples of the leaf a row reaches are among the samples of the tree.
    pub proof fn lemma_leaf_indices_in_tree(self, row: Seq<u64>, i: usize)
        requires
            self.is_complete(),
            self.routes_to_own_leaf(row, i),
        ensures
            self.all_indices().contains(i),
        decreases self,
    {
        match self {
            TreeNode::Internal {
                feature: Some(f),
                threshold: Some(t),
                left: Some(l),
                right: Some(r),
            } => {
                if row[f as int] < t {
                    l.lemma_leaf_indices_in_tree(row, i);
                    let k = choose|k: int| 0 <= k < l.all_indices().len() && l.all_indices()[k] == i;
                    assert((l.all_indices() + r.all_indices())[k] == i);
                } else {
                    r.lemma_leaf_indices_in_tree(row, i);
                    let k = choose|k: int| 0 <= k < r.all_indices().len() && r.all_indices()[k] == i;
                    assert((l.all_indices() + r.all_indices())[l.all_indices().len() + k] == i);
                }
            },
            _ => {},
        }
    }

    /// The labels of the samples kept by the leaf a row reaches.
    pub open spec fn leaf_labels(self, y: Seq<usize>, row: Seq<u64>) -> Seq<usize> {
        match self.leaf_of(row) {
            TreeNode::Leaf { indices, .. } => labels_of(y, indices@),
            _ => Seq::empty(),
        }
    }
    /// Routing `row` from this node tests only features below `n`.
    pub open spec fn routes_within(self, row: Seq<u64>, n: nat) -> bool
        decreases self,
    {
        match self {
            TreeNode::Internal {
                feature: Some(f),
                threshold: Some(t),
                left: Some(l),
                right: Some(r),
            } => f < n && if row[f as int] < t {
                l.routes_within(row, n)
            } else {
                r.routes_within(row, n)
            },
            _ => true,
        }
    }

    /// Whether routing row `r` of `x` from this node tests only features that `x` has.
    pub fn can_route(&self, x: &KeyMatrix, r: usize) -> (ok: bool)
        requires
            self.is_complete(),
            r < x.num_rows(),
            x.rows()[r as int].len() == x.num_cols(),
        ensures
            ok == self.routes_within(x.rows()[r as int], x.num_cols()),
        decreases self,
    {
        match self {
            TreeNode::Leaf { .. } => true,
            TreeNode::Internal { feature: Some(f), threshold: Some(t), left: Some(l), right: Some(rt) } => {
                let nc = x.ncols();
                if *f >= nc {
                    false
                } else if x.get(r, *f) < *t {
                    l.can_route(x, r)
                } else {
                    rt.can_route(x, r)
                }
            },
            _ => {
                proof {
                    assert(false);
                }
                false
            },
        }
    }
}

} // verus!
