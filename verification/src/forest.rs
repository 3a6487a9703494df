//! A random forest: decision trees grown on bootstrap samples, voting by majority.
use vstd::prelude::*;
use crate::arrays::{nonzero_size, IndexArray, KeyMatrix};
use crate::counting::{is_most_frequent, most_frequent};
use crate::decision_tree::{all_samples, grows, is_grown_from, routes_rows, stops_at, DecisionTreeClassifier};
use crate::sampling::{draw_bootstrap, from_random_source, lemma_random_source_is_a_draw};
use crate::tree::TreeNode;

verus! {

/// `b` holds `count` sample indices, each below `n`.
pub open spec fn is_bootstrap(b: Seq<usize>, count: nat, n: nat) -> bool {
    &&& b.len() == count
    &&& forall|k: int| 0 <= k < b.len() ==> #[trigger] b[k] < n
}

/// The feature keys of the samples that `b` picks, in order.
pub open spec fn picked_rows(rows: Seq<Seq<u64>>, b: Seq<usize>) -> Seq<Seq<u64>> {
    b.map_values(|i: usize| rows[i as int])
}

/// The labels of the samples that `b` picks, in order.
pub open spec fn picked_labels(y: Seq<usize>, b: Seq<usize>) -> Seq<usize> {
    b.map_values(|i: usize| y[i as int])
}

/// Every bootstrap sample of `count` of the `n` samples is a group that
/// `node_loss` does not split for its loss: its loss keys are at most
/// `min_loss_key`.
pub open spec fn bootstraps_stop<F: Fn(&Vec<usize>) -> u64>(
    y: Seq<usize>,
    count: nat,
    n: nat,
    node_loss: F,
    min_loss_key: u64,
) -> bool {
    forall|b: Seq<usize>|
        #[trigger] is_bootstrap(b, count, n) ==> stops_at(picked_labels(y, b), all_samples(count), node_loss, min_loss_key)
}

/// `t` is the tree grown on the bootstrap sample `b` of `count` rows of the
/// training data `x`, `y`, at most `max_depth` deep, with the given losses.
pub open spec fn grown_on<F: Fn(&Vec<usize>) -> u64, G: Fn(&Vec<usize>, &Vec<usize>) -> u64>(
    t: TreeNode,
    b: Seq<usize>,
    x: KeyMatrix,
    y: Seq<usize>,
    count: nat,
    max_depth: nat,
    min_loss_key: u64,
    node_loss: F,
    split_loss: G,
) -> bool {
    &&& is_bootstrap(b, count, x.num_rows())
    &&& is_grown_from(t, picked_rows(x.rows(), b), x.num_cols(), picked_labels(y, b), max_depth)
    &&& grows(
        t,
        picked_rows(x.rows(), b),
        x.num_cols(),
        picked_labels(y, b),
        all_samples(count),
        0,
        max_depth,
        min_loss_key,
        node_loss,
        split_loss,
    )
}

/// A tree grown on a bootstrap sample is complete and tests only features
/// of the data.
pub proof fn lemma_grown_on_tree<F: Fn(&Vec<usize>) -> u64, G: Fn(&Vec<usize>, &Vec<usize>) -> u64>(
    t: TreeNode,
    b: Seq<usize>,
    x: KeyMatrix,
    y: Seq<usize>,
    count: nat,
    max_depth: nat,
    min_loss_key: u64,
    node_loss: F,
    split_loss: G,
)
    requires
        grown_on(t, b, x, y, count, max_depth, min_loss_key, node_loss, split_loss),
    ensures
        t.is_complete(),
        t.uses_features_below(x.num_cols()),
{
}

/// Every tree tests only features below `n`.
pub open spec fn all_use_features_below(trees: Seq<TreeNode>, n: nat) -> bool {
    forall|k: int| 0 <= k < trees.len() ==> #[trigger] trees[k].uses_features_below(n)
}

/// What each tree predicts for a row.
pub open spec fn votes_for(trees: Seq<TreeNode>, row: Seq<u64>) -> Seq<usize> {
    trees.map_values(|t: TreeNode| t.predicted(row))
}

/// When every vote is `c`, the most frequent vote is `c`.
pub proof fn lemma_unanimous_vote(votes: Seq<usize>, c: usize, winner: usize)
    requires
        forall|k: int| 0 <= k < votes.len() ==> #[trigger] votes[k] == c,
        is_most_frequent(votes, winner),
    ensures
        winner == c,
{
    let k = choose|k: int| 0 <= k < votes.len() && votes[k] == winner;
}

/// A forest of one tree predicts what that tree predicts.
pub proof fn lemma_one_tree_forest(t: TreeNode, row: Seq<u64>, winner: usize)
    requires
        is_most_frequent(votes_for(seq![t], row), winner),
    ensures
        winner == t.predicted(row),
{
    let votes = votes_for(seq![t], row);
    assert(votes[0] == t.predicted(row));
    lemma_unanimous_vote(votes, t.predicted(row), winner);
}

/// The votes follow the rows: when each row of `rows2` is the row of `rows1`
/// at position `order[k]`, a prediction of the forest for row `k` of `rows2`
/// is a most frequent vote for row `order[k]` of `rows1`.
pub proof fn lemma_votes_follow_rows(
    trees: Seq<TreeNode>,
    rows1: Seq<Seq<u64>>,
    rows2: Seq<Seq<u64>>,
    order: Seq<int>,
    r2: Seq<usize>,
)
    requires
        order.len() == rows2.len(),
        forall|k: int| 0 <= k < order.len() ==> 0 <= #[trigger] order[k] < rows1.len(),
        forall|k: int| 0 <= k < order.len() ==> #[trigger] rows2[k] == rows1[order[k]],
        r2.len() == rows2.len(),
        forall|i: int| 0 <= i < rows2.len() ==> is_most_frequent(votes_for(trees, rows2[i]), #[trigger] r2[i]),
    ensures
        forall|k: int| 0 <= k < order.len() ==> is_most_frequent(votes_for(trees, rows1[order[k]]), #[trigger] r2[k]),
{
    assert forall|k: int| 0 <= k < order.len() implies is_most_frequent(
        votes_for(trees, rows1[order[k]]),
        #[trigger] r2[k],
    ) by {
        assert(rows2[k] == rows1[order[k]]);
        assert(is_most_frequent(votes_for(trees, rows2[k]), r2[k]));
    }
}

/// While the sample size is 0, a fit grows each tree on as many draws as
/// the training data has rows.
pub proof fn lemma_draw_count_all_rows(forest: RandomForest, n: nat)
    requires
        forest.sample_size() == 0,
    ensures
        forest.draw_count(n) == n,
{
}

/// A set sample size is the number of draws of every fit.
pub proof fn lemma_draw_count_sample_size(forest: RandomForest, n: nat)
    requires
        forest.sample_size() > 0,
    ensures
        forest.draw_count(n) == forest.sample_size(),
{
}

/// A random forest classifier.
pub struct RandomForest {
    trees: Vec<TreeNode>,
    n_trees: usize,
    sample_size: usize,
    max_depth: usize,
    min_loss_key: u64,
    samples: Ghost<Seq<Seq<usize>>>,
}

impl RandomForest {
    /// Every tree of the forest is complete.
    #[verifier::type_invariant]
    spec fn inv(self) -> bool {
        forall|k: int| 0 <= k < self.trees@.len() ==> #[trigger] self.trees@[k].is_complete()
    }

    pub closed spec fn trees(self) -> Seq<TreeNode> {
        self.trees@
    }

    /// The bootstrap samples that the last fit drew, one per tree, in order:
    /// each a sequence of training row indices.
    pub closed spec fn bootstrap_samples(self) -> Seq<Seq<usize>> {
        self.samples@
    }

    pub closed spec fn n_trees(self) -> nat {
        self.n_trees as nat
    }

    /// How many samples each tree is grown on (0: as many as the training data has).
    pub closed spec fn sample_size(self) -> nat {
        self.sample_size as nat
    }

    pub closed spec fn max_depth(self) -> nat {
        self.max_depth as nat
    }

    pub closed spec fn min_loss_key(self) -> u64 {
        self.min_loss_key
    }

    /// Creates an unfitted forest of 10 trees, each at most 10 deep, that
    /// stops splitting a group whose loss key is at most `min_loss_key`.
    pub fn new(min_loss_key: u64) -> (r: Self)
        ensures
            r.trees().len() == 0,
            r.bootstrap_samples().len() == 0,
            r.n_trees() == 10,
            r.sample_size() == 0,
            r.max_depth() == 10,
            r.min_loss_key() == min_loss_key,
    {
        RandomForest {
            trees: Vec::new(),
            n_trees: 10,
            sample_size: 0,
            max_depth: 10,
            min_loss_key,
            samples: Ghost(Seq::empty()),
        }
    }

    /// What `node` predicts for row `r` of `x`.
    pub fn predict_tree(&self, x: &KeyMatrix, r: usize, node: &TreeNode) -> (p: usize)
        requires
            node.is_complete(),
            node.routes_within(x.rows()[r as int], x.num_cols()),
            r < x.num_rows(),
            x.rows()[r as int].len() == x.num_cols(),
        ensures
            p == node.predicted(x.rows()[r as int]),
        decreases node,
    {
        match node {
            TreeNode::Leaf { prediction, .. } => *prediction,
            TreeNode::Internal { feature: Some(f), threshold: Some(t), left: Some(l), right: Some(rt) } => {
                if x.get(r, *f) < *t {
                    self.predict_tree(x, r, l)
                } else {
                    self.predict_tree(x, r, rt)
                }
            },
            _ => {
                proof {
                    assert(false);
                }
                0
            },
        }
    }

    /// A most frequent vote.
    fn majority_vote(&self, votes: &Vec<usize>) -> (c: usize)
        requires
            votes@.len() > 0,
        ensures
            is_most_frequent(votes@, c),
    {
        match most_frequent(votes) {
            Some(c) => c,
            None => {
                proof {
                    assert(false);
                }
                0
            },
        }
    }

    /// How many rows each tree is grown on when fitting data of `n` rows:
    /// all of them while the sample size is 0, else the sample size.
    pub open spec fn draw_count(self, n: nat) -> nat {
        if self.sample_size() == 0 {
            n
        } else {
            self.sample_size()
        }
    }

    /// Fits the forest: each of its trees is a decision tree grown on a
    /// bootstrap sample of the training data, drawn at random with
    /// replacement; `bootstrap_samples()` keeps the draws, tree by tree. A
    /// sample size of 0 means all available rows, for every fit.
    /// `node_loss` and `split_loss` are as for `DecisionTreeClassifier::fit`.
    pub fn fit<F, G>(&mut self, x: &KeyMatrix, y: &IndexArray, node_loss: &F, split_loss: &G) where
        F: Fn(&Vec<usize>) -> u64,
        G: Fn(&Vec<usize>, &Vec<usize>) -> u64,

        requires
            y@.len() >= x.num_rows(),
            x.num_rows() > 0 || old(self).sample_size() == 0,
            x.num_cols() > 0 || old(self).draw_count(x.num_rows()) <= 1 || old(self).max_depth() == 0
                || bootstraps_stop(
                y@,
                old(self).draw_count(x.num_rows()),
                x.num_rows(),
                *node_loss,
                old(self).min_loss_key(),
            ),
            nonzero_size(old(self).draw_count(x.num_rows()), x.num_cols()) <= isize::MAX,
            old(self).draw_count(x.num_rows()) * x.num_cols() * 8 <= isize::MAX,
            forall|c: &Vec<usize>| #[trigger] node_loss.requires((c,)),
            forall|a: &Vec<usize>, b: &Vec<usize>| #[trigger] split_loss.requires((a, b)),
        ensures
            final(self).sample_size() == old(self).sample_size(),
            final(self).n_trees() == old(self).n_trees(),
            final(self).max_depth() == old(self).max_depth(),
            final(self).min_loss_key() == old(self).min_loss_key(),
            final(self).trees().len() == old(self).n_trees(),
            all_use_features_below(final(self).trees(), x.num_cols()),
            final(self).bootstrap_samples().len() == final(self).trees().len(),
            old(self).sample_size() == 0 ==> forall|k: int|
                0 <= k < final(self).trees().len() ==> #[trigger] final(self).bootstrap_samples()[k].len()
                    == x.num_rows(),
            old(self).sample_size() > 0 ==> forall|k: int|
                0 <= k < final(self).trees().len() ==> #[trigger] final(self).bootstrap_samples()[k].len()
                    == old(self).sample_size(),
            forall|k: int, j: int|
                0 <= k < final(self).trees().len() && 0 <= j < final(self).bootstrap_samples()[k].len()
                    ==> from_random_source(x.num_rows() as usize, #[trigger] final(self).bootstrap_samples()[k][j]),
            forall|k: int|
                0 <= k < final(self).trees().len() ==> #[trigger] grown_on(
                    final(self).trees()[k],
                    final(self).bootstrap_samples()[k],
                    *x,
                    y@,
                    old(self).draw_count(x.num_rows()),
                    final(self).max_depth(), final(self).min_loss_key(), *node_loss, *split_loss,
                ),
    {
        proof {
            use_type_invariant(&*self);
        }
        let n_samples = x.nrows();
        let n_features = x.ncols();
        let count = if self.sample_size == 0 {
            n_samples
        } else {
            self.sample_size
        };
        let mut trees: Vec<TreeNode> = Vec::new();
        let ghost mut samples: Seq<Seq<usize>> = Seq::empty();
        let mut t: usize = 0;
        while t < self.n_trees
            invariant
                t <= self.n_trees,
                trees@.len() == t,
                samples.len() == t,
                n_samples == x.num_rows(),
                n_features == x.num_cols(),
                *self == *old(self),
                count == old(self).draw_count(x.num_rows()),
                count > 0 ==> n_samples > 0,
                x.num_cols() > 0 || count <= 1 || self.max_depth == 0 || bootstraps_stop(
                    y@,
                    count as nat,
                    x.num_rows(),
                    *node_loss,
                    self.min_loss_key,
                ),
                nonzero_size(count as nat, x.num_cols()) <= isize::MAX,
                count * x.num_cols() * 8 <= isize::MAX,
                y@.len() >= x.num_rows(),
                forall|i: int| 0 <= i < x.num_rows() ==> #[trigger] x.rows()[i].len() == x.num_cols(),
                forall|c: &Vec<usize>| #[trigger] node_loss.requires((c,)),
                forall|a: &Vec<usize>, b: &Vec<usize>| #[trigger] split_loss.requires((a, b)),
                forall|k: int, j: int|
                    0 <= k < t && 0 <= j < samples[k].len() ==> from_random_source(
                        n_samples,
                        #[trigger] samples[k][j],
                    ),
                forall|k: int|
                    0 <= k < t ==> #[trigger] grown_on(
                        trees@[k],
                        samples[k],
                        *x,
                        y@,
                        count as nat,
                        self.max_depth as nat, self.min_loss_key, *node_loss, *split_loss,
                    ),
            decreases old(self).n_trees - t,
        {
            let indices = draw_bootstrap(count, n_samples);
            proof {
                assert forall|j: int| 0 <= j < indices@.len() implies from_random_source(
                    n_samples,
                    #[trigger] indices@[j],
                ) by {
                    lemma_random_source_is_a_draw(n_samples, indices@[j]);
                }
            }
            let x_bootstrap = x.select_rows(&indices);
            let y_bootstrap = y.select(&indices);
            proof {
                assert(x_bootstrap.rows() =~= picked_rows(x.rows(), indices@));
                assert(y_bootstrap@ =~= picked_labels(y@, indices@));
                assert(is_bootstrap(indices@, count as nat, x.num_rows()));
            }
            let mut dtc = DecisionTreeClassifier::new(self.max_depth, self.min_loss_key);
            dtc.fit(&x_bootstrap, &y_bootstrap, node_loss, split_loss);
            match dtc.into_tree() {
                Some(root) => {
                    trees.push(root);
                },
                None => {
                    proof {
                        assert(false);
                    }
                },
            }
            proof {
                let old_samples = samples;
                samples = samples.push(indices@);
                assert forall|k: int, j: int|
                    0 <= k < t + 1 && 0 <= j < samples[k].len() implies from_random_source(
                    n_samples,
                    #[trigger] samples[k][j],
                ) by {
                    if k < t {
                        assert(samples[k] == old_samples[k]);
                    }
                }
            }
            t = t + 1;
        }
        proof {
            assert forall|k: int| 0 <= k < trees@.len() implies #[trigger] samples[k].len() == count by {
                assert(grown_on(
                    trees@[k],
                    samples[k],
                    *x,
                    y@,
                    count as nat,
                    self.max_depth as nat, self.min_loss_key, *node_loss, *split_loss,
                ));
            }
        }
        proof {
            assert forall|k: int| #![trigger trees@[k]] 0 <= k < trees@.len() implies trees@[k].is_complete()
                && trees@[k].uses_features_below(x.num_cols()) by {
                lemma_grown_on_tree(
                    trees@[k],
                    samples[k],
                    *x,
                    y@,
                    count as nat,
                    self.max_depth as nat, self.min_loss_key, *node_loss, *split_loss,
                );
            }
        }
        self.trees = trees;
        self.samples = Ghost(samples);
    }

    /// The predicted class of each row of feature keys: a most frequent vote
    /// among the trees' predictions for the row.
    pub fn predict(&self, x: &KeyMatrix) -> (r: IndexArray)
        requires
            x.num_rows() > 0 ==> self.trees().len() > 0,
            forall|k: int| 0 <= k < self.trees().len() ==> #[trigger] routes_rows(self.trees()[k], *x),
        ensures
            r@.len() == x.num_rows(),
            forall|i: int|
                0 <= i < x.num_rows() ==> is_most_frequent(
                    votes_for(self.trees(), x.rows()[i]),
                    #[trigger] r@[i],
                ),
    {
        proof {
            use_type_invariant(self);
        }
        let nr = x.nrows();
        let _nc = x.ncols();  // every row has this many keys
        let nt = self.trees.len();
        let mut predictions: Vec<usize> = Vec::new();
        let mut i: usize = 0;
        while i < nr
            invariant
                i <= nr,
                nr == x.num_rows(),
                nt == self.trees@.len(),
                nr > 0 ==> nt > 0,
                forall|k: int| 0 <= k < nt ==> #[trigger] routes_rows(self.trees@[k], *x),
                forall|k: int| 0 <= k < nt ==> #[trigger] self.trees@[k].is_complete(),
                forall|j: int| 0 <= j < nr ==> #[trigger] x.rows()[j].len() == x.num_cols(),
                predictions@.len() == i,
                forall|j: int|
                    0 <= j < i ==> is_most_frequent(
                        votes_for(self.trees@, x.rows()[j]),
                        #[trigger] predictions@[j],
                    ),
            decreases nr - i,
        {
            let ghost row = x.rows()[i as int];
            let mut votes: Vec<usize> = Vec::new();
            let mut k: usize = 0;
            while k < nt
                invariant
                    k <= nt,
                    i < nr,
                    nr == x.num_rows(),
                    nt == self.trees@.len(),
                    nt > 0,
                    forall|m: int| 0 <= m < nt ==> #[trigger] routes_rows(self.trees@[m], *x),
                    forall|m: int| 0 <= m < nt ==> #[trigger] self.trees@[m].is_complete(),
                    row == x.rows()[i as int],
                    row.len() == x.num_cols(),
                    votes@ == votes_for(self.trees@.take(k as int), row),
                decreases nt - k,
            {
                proof {
                    assert(routes_rows(self.trees@[k as int], *x));
                    assert(self.trees@[k as int].routes_within(x.rows()[i as int], x.num_cols()));
                }
                let p = self.predict_tree(x, i, &self.trees[k]);
                votes.push(p);
                k = k + 1;
                assert(votes@ =~= votes_for(self.trees@.take(k as int), row));
            }
            assert(self.trees@.take(nt as int) =~= self.trees@);
            let c = self.majority_vote(&votes);
            predictions.push(c);
            i = i + 1;
        }
        IndexArray::new(predictions)
    }
    /// How many trees the forest has.
    pub fn num_trees(&self) -> (r: usize)
        ensures
            r == self.trees().len(),
    {
        self.trees.len()
    }

    /// Whether `predict` can take the rows of `x`: there are trees when
    /// there are rows, and routing each row through each tree tests only
    /// features that the rows have.
    pub fn can_predict(&self, x: &KeyMatrix) -> (ok: bool)
        ensures
            ok == ((x.num_rows() > 0 ==> self.trees().len() > 0) && forall|k: int|
                0 <= k < self.trees().len() ==> #[trigger] routes_rows(self.trees()[k], *x)),
    {
        proof {
            use_type_invariant(self);
        }
        let nr = x.nrows();
        let _nc = x.ncols();  // every row has this many keys
        let nt = self.trees.len();
        if nr > 0 && nt == 0 {
            return false;
        }
        let mut k: usize = 0;
        while k < nt
            invariant
                k <= nt,
                nt == self.trees@.len(),
                nr == x.num_rows(),
                forall|m: int| 0 <= m < nt ==> #[trigger] self.trees@[m].is_complete(),
                forall|j: int| 0 <= j < nr ==> #[trigger] x.rows()[j].len() == x.num_cols(),
                forall|m: int| 0 <= m < k ==> #[trigger] routes_rows(self.trees@[m], *x),
            decreases nt - k,
        {
            let mut i: usize = 0;
            while i < nr
                invariant
                    i <= nr,
                    k < nt,
                    nt == self.trees@.len(),
                    nr == x.num_rows(),
                    self.trees@[k as int].is_complete(),
                    forall|j: int| 0 <= j < nr ==> #[trigger] x.rows()[j].len() == x.num_cols(),
                    forall|j: int|
                        0 <= j < i ==> #[trigger] self.trees@[k as int].routes_within(x.rows()[j], x.num_cols()),
                decreases nr - i,
            {
                if !self.trees[k].can_route(x, i) {
                    proof {
                        assert(!routes_rows(self.trees@[k as int], *x));
                    }
                    return false;
                }
                i = i + 1;
            }
            k = k + 1;
        }
        true
    }

    /// How many samples each tree is grown on (0 until the first fit).
    pub fn current_sample_size(&self) -> (r: usize)
        ensures
            r == self.sample_size(),
    {
        self.sample_size
    }
}

} // verus!
