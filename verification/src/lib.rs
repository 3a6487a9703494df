//! Decision tree and random forest classifiers over feature keys.
//!
//! Training data is a matrix of feature keys (`arrays::KeyMatrix`), one row per
//! sample, with a class label per sample (`arrays::IndexArray`). A key stands
//! for a feature value and is ordered as the values are. Trees are grown by
//! `decision_tree::DecisionTreeClassifier::fit`, which measures groups and
//! splits with loss functions given by the caller; `forest::RandomForest`
//! grows trees on bootstrap samples and predicts by majority vote.
use vstd::prelude::*;

pub mod arrays;
pub mod counting;
pub mod seq_facts;
pub mod tree;
pub mod splits;
pub mod decision_tree;
pub mod exact_fit;
pub mod sampling;
pub mod forest;
pub mod determinism;

verus! {

} // verus!
