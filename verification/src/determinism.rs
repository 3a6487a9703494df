//! A grown tree is determined by its training data, up to which of equally
//! frequent labels its leaves predict, when the loss functions depend on the
//! label counts alone.
use vstd::prelude::*;
use vstd::seq_lib::to_multiset_contains;
use crate::counting::{count_of, counts_match, lists_classes_of};
use crate::decision_tree::{all_samples, grows, group_loss_with, is_group_loss};
use crate::forest::{grown_on, picked_labels, picked_rows};
use crate::arrays::KeyMatrix;
use crate::seq_facts::lemma_map_same_items;
use crate::splits::{
    below_threshold,
    has_score_for,
    is_best_split,
    is_candidate,
    is_first_minimum,
    is_scored_split,
    lemma_first_minimum_has_lowest_loss,
    lemma_split_precedes_is_strict_total_order,
    not_below_threshold,
    scored_with,
    scores_all_candidates,
    split_precedes,
};
use crate::tree::{labels_of, TreeNode};

verus! {

/// The pairs `(a[k], b[k])`.
pub open spec fn paired(a: Seq<usize>, b: Seq<usize>) -> Seq<(usize, usize)> {
    Seq::new(a.len(), |k: int| (a[k], b[k]))
}

/// `node_loss` gives the same key to label counts that hold the same
/// numbers, in whatever order the classes are listed.
pub open spec fn node_loss_by_counts<F: Fn(&Vec<usize>) -> u64>(node_loss: F) -> bool {
    forall|c1: &Vec<usize>, c2: &Vec<usize>, k1: u64, k2: u64|
        #[trigger] call_ensures(node_loss, (c1,), k1) && #[trigger] call_ensures(node_loss, (c2,), k2)
            && c1@.to_multiset() == c2@.to_multiset() ==> k1 == k2
}

/// `split_loss` gives the same key to left and right label counts that hold
/// the same pairs of numbers, in whatever order the classes are listed.
pub open spec fn split_loss_by_counts<G: Fn(&Vec<usize>, &Vec<usize>) -> u64>(split_loss: G) -> bool {
    forall|a1: &Vec<usize>, b1: &Vec<usize>, a2: &Vec<usize>, b2: &Vec<usize>, k1: u64, k2: u64|
        #[trigger] call_ensures(split_loss, (a1, b1), k1) && #[trigger] call_ensures(split_loss, (a2, b2), k2)
            && paired(a1@, b1@).to_multiset() == paired(a2@, b2@).to_multiset() ==> k1 == k2
}

/// Two trees have the same shape, the same splits and leaves that keep the
/// same samples; their leaves' predictions may differ.
pub open spec fn same_but_predictions(a: TreeNode, b: TreeNode) -> bool
    decreases a,
{
    match a {
        TreeNode::Leaf { indices, .. } => match b {
            TreeNode::Leaf { indices: other, .. } => indices@ == other@,
            _ => false,
        },
        TreeNode::Internal { feature: Some(f), threshold: Some(t), left: Some(l), right: Some(r) } => match b {
            TreeNode::Internal {
                feature: Some(f2),
                threshold: Some(t2),
                left: Some(l2),
                right: Some(r2),
            } => f == f2 && t == t2 && same_but_predictions(*l, *l2) && same_but_predictions(*r, *r2),
            _ => false,
        },
        _ => false,
    }
}

/// Two lists of the classes of the same labels hold the same classes.
proof fn lemma_class_lists_same_items(c1: Seq<usize>, c2: Seq<usize>, s: Seq<usize>)
    requires
        lists_classes_of(c1, s),
        lists_classes_of(c2, s),
    ensures
        c1.to_multiset() == c2.to_multiset(),
{
    c1.lemma_multiset_has_no_duplicates();
    c2.lemma_multiset_has_no_duplicates();
    assert forall|v: usize| c1.to_multiset().count(v) == c2.to_multiset().count(v) by {
        to_multiset_contains(c1, v);
        to_multiset_contains(c2, v);
        assert(c1.contains(v) == c2.contains(v));
        if c1.contains(v) {
            assert(c1.to_multiset().contains(v));
            assert(c2.to_multiset().contains(v));
        }
    }
    assert(c1.to_multiset() =~= c2.to_multiset());
}

/// Label counts over two lists of the same classes hold the same numbers.
proof fn lemma_counts_same_items(c1: Seq<usize>, c2: Seq<usize>, n1: Seq<usize>, n2: Seq<usize>, s: Seq<usize>)
    requires
        lists_classes_of(c1, s),
        lists_classes_of(c2, s),
        counts_match(c1, n1, s),
        counts_match(c2, n2, s),
    ensures
        n1.to_multiset() == n2.to_multiset(),
{
    lemma_class_lists_same_items(c1, c2, s);
    let h = |v: usize| count_of(s, v) as usize;
    lemma_map_same_items(c1, c2, h);
    assert(n1 =~= c1.map_values(h));
    assert(n2 =~= c2.map_values(h));
}

/// Left and right label counts over two lists of the same classes hold the
/// same pairs of numbers.
proof fn lemma_pair_counts_same_items(
    c1: Seq<usize>,
    c2: Seq<usize>,
    l1: Seq<usize>,
    r1: Seq<usize>,
    l2: Seq<usize>,
    r2: Seq<usize>,
    s: Seq<usize>,
    ls: Seq<usize>,
    rs: Seq<usize>,
)
    requires
        lists_classes_of(c1, s),
        lists_classes_of(c2, s),
        counts_match(c1, l1, ls),
        counts_match(c1, r1, rs),
        counts_match(c2, l2, ls),
        counts_match(c2, r2, rs),
    ensures
        paired(l1, r1).to_multiset() == paired(l2, r2).to_multiset(),
{
    lemma_class_lists_same_items(c1, c2, s);
    let h = |v: usize| (count_of(ls, v) as usize, count_of(rs, v) as usize);
    lemma_map_same_items(c1, c2, h);
    assert(paired(l1, r1) =~= c1.map_values(h));
    assert(paired(l2, r2) =~= c2.map_values(h));
}

/// A group has one loss key when `node_loss` depends on the counts alone.
proof fn lemma_group_loss_unique<F: Fn(&Vec<usize>) -> u64>(
    y: Seq<usize>,
    idx: Seq<usize>,
    node_loss: F,
    k1: u64,
    k2: u64,
)
    requires
        node_loss_by_counts(node_loss),
        is_group_loss(y, idx, node_loss, k1),
        is_group_loss(y, idx, node_loss, k2),
    ensures
        k1 == k2,
{
    let (c1, n1) = choose|classes: Seq<usize>, counts: Vec<usize>|
        #[trigger] group_loss_with(y, idx, node_loss, k1, classes, counts);
    let (c2, n2) = choose|classes: Seq<usize>, counts: Vec<usize>|
        #[trigger] group_loss_with(y, idx, node_loss, k2, classes, counts);
    lemma_counts_same_items(c1, c2, n1@, n2@, labels_of(y, idx));
    assert(call_ensures(node_loss, (&n1,), k1));
    assert(call_ensures(node_loss, (&n2,), k2));
}

/// A candidate split has one score when `split_loss` depends on the counts
/// alone.
proof fn lemma_score_unique<G: Fn(&Vec<usize>, &Vec<usize>) -> u64>(
    rows: Seq<Seq<u64>>,
    ncols: nat,
    y: Seq<usize>,
    idx: Seq<usize>,
    split_loss: G,
    s1: (u64, usize, u64, usize),
    s2: (u64, usize, u64, usize),
)
    requires
        split_loss_by_counts(split_loss),
        is_scored_split(rows, ncols, y, idx, split_loss, s1),
        is_scored_split(rows, ncols, y, idx, split_loss, s2),
        s1.1 == s2.1,
        s1.3 == s2.3,
    ensures
        s1 == s2,
{
    let (c1, l1, r1) = choose|classes: Seq<usize>, lc: Vec<usize>, rc: Vec<usize>|
        #[trigger] scored_with(rows, y, idx, split_loss, s1, classes, lc, rc);
    let (c2, l2, r2) = choose|classes: Seq<usize>, lc: Vec<usize>, rc: Vec<usize>|
        #[trigger] scored_with(rows, y, idx, split_loss, s2, classes, lc, rc);
    assert(s1.2 == s2.2);
    lemma_pair_counts_same_items(
        c1,
        c2,
        l1@,
        r1@,
        l2@,
        r2@,
        labels_of(y, idx),
        labels_of(y, idx.filter(below_threshold(rows, s1.1, s1.2))),
        labels_of(y, idx.filter(not_below_threshold(rows, s1.1, s1.2))),
    );
    assert(call_ensures(split_loss, (&l1, &r1), s1.0));
    assert(call_ensures(split_loss, (&l2, &r2), s2.0));
}

/// A group has one best split when `split_loss` depends on the counts alone.
proof fn lemma_best_split_unique<G: Fn(&Vec<usize>, &Vec<usize>) -> u64>(
    rows: Seq<Seq<u64>>,
    ncols: nat,
    y: Seq<usize>,
    idx: Seq<usize>,
    split_loss: G,
    f1: usize,
    t1: u64,
    f2: usize,
    t2: u64,
)
    requires
        split_loss_by_counts(split_loss),
        is_best_split(rows, ncols, y, idx, split_loss, f1, t1),
        is_best_split(rows, ncols, y, idx, split_loss, f2, t2),
    ensures
        f1 == f2,
        t1 == t2,
{
    if exists|sc: Seq<(u64, usize, u64, usize)>, j: int|
        #[trigger] scores_all_candidates(rows, ncols, y, idx, split_loss, sc) && #[trigger] is_first_minimum(sc, j)
            && sc[j].1 == f1 && sc[j].2 == t1 {
        let (sc1, j1) = choose|sc: Seq<(u64, usize, u64, usize)>, j: int|
            #[trigger] scores_all_candidates(rows, ncols, y, idx, split_loss, sc) && #[trigger] is_first_minimum(sc, j)
                && sc[j].1 == f1 && sc[j].2 == t1;
        let a = sc1[j1];
        assert(is_scored_split(rows, ncols, y, idx, split_loss, a));
        assert(is_candidate(rows, ncols, idx, a.1, a.3));
        let (sc2, j2) = choose|sc: Seq<(u64, usize, u64, usize)>, j: int|
            #[trigger] scores_all_candidates(rows, ncols, y, idx, split_loss, sc) && #[trigger] is_first_minimum(sc, j)
                && sc[j].1 == f2 && sc[j].2 == t2;
        let b = sc2[j2];
        assert(is_scored_split(rows, ncols, y, idx, split_loss, b));
        assert(is_candidate(rows, ncols, idx, b.1, b.3));
        assert(has_score_for(sc1, b.1, b.3));
        let k1 = choose|k: int| 0 <= k < sc1.len() && sc1[k].1 == b.1 && sc1[k].3 == b.3;
        assert(is_scored_split(rows, ncols, y, idx, split_loss, sc1[k1]));
        lemma_score_unique(rows, ncols, y, idx, split_loss, sc1[k1], b);
        assert(!split_precedes(b, a));
        assert(has_score_for(sc2, a.1, a.3));
        let k2 = choose|k: int| 0 <= k < sc2.len() && sc2[k].1 == a.1 && sc2[k].3 == a.3;
        assert(is_scored_split(rows, ncols, y, idx, split_loss, sc2[k2]));
        lemma_score_unique(rows, ncols, y, idx, split_loss, sc2[k2], a);
        assert(!split_precedes(a, b));
        lemma_split_precedes_is_strict_total_order(a, b, a);
    } else {
        if exists|sc: Seq<(u64, usize, u64, usize)>, j: int|
            #[trigger] scores_all_candidates(rows, ncols, y, idx, split_loss, sc) && #[trigger] is_first_minimum(sc, j)
                && sc[j].1 == f2 && sc[j].2 == t2 {
            let (sc2, j2) = choose|sc: Seq<(u64, usize, u64, usize)>, j: int|
                #[trigger] scores_all_candidates(rows, ncols, y, idx, split_loss, sc) && #[trigger] is_first_minimum(sc, j)
                    && sc[j].1 == f2 && sc[j].2 == t2;
            let b = sc2[j2];
            assert(is_scored_split(rows, ncols, y, idx, split_loss, b));
            assert(is_candidate(rows, ncols, idx, b.1, b.3));
        }
    }
}

/// The best split of a group has the lowest weighted loss: when `split_loss`
/// depends on the counts alone, the best split's score has a loss key at
/// most that of every scored candidate split of the group.
pub proof fn lemma_best_split_has_lowest_loss<G: Fn(&Vec<usize>, &Vec<usize>) -> u64>(
    rows: Seq<Seq<u64>>,
    ncols: nat,
    y: Seq<usize>,
    idx: Seq<usize>,
    split_loss: G,
    f: usize,
    t: u64,
    s: (u64, usize, u64, usize),
)
    requires
        split_loss_by_counts(split_loss),
        is_best_split(rows, ncols, y, idx, split_loss, f, t),
        is_scored_split(rows, ncols, y, idx, split_loss, s),
    ensures
        exists|b: (u64, usize, u64, usize)|
            #[trigger] is_scored_split(rows, ncols, y, idx, split_loss, b) && b.1 == f && b.2 == t && b.0 <= s.0,
{
    assert(is_candidate(rows, ncols, idx, s.1, s.3));
    let (sc, j) = choose|sc: Seq<(u64, usize, u64, usize)>, j: int|
        #[trigger] scores_all_candidates(rows, ncols, y, idx, split_loss, sc) && #[trigger] is_first_minimum(sc, j)
            && sc[j].1 == f && sc[j].2 == t;
    let b = sc[j];
    assert(is_scored_split(rows, ncols, y, idx, split_loss, b));
    assert(has_score_for(sc, s.1, s.3));
    let k = choose|k: int| 0 <= k < sc.len() && sc[k].1 == s.1 && sc[k].3 == s.3;
    assert(is_scored_split(rows, ncols, y, idx, split_loss, sc[k]));
    lemma_score_unique(rows, ncols, y, idx, split_loss, sc[k], s);
    lemma_first_minimum_has_lowest_loss(sc, j);
    assert(b.0 <= sc[k].0);
}

/// Two trees grown on the same samples with loss functions that depend on
/// the label counts alone differ at most in which of equally frequent labels
/// their leaves predict.
pub proof fn lemma_grown_trees_agree<F: Fn(&Vec<usize>) -> u64, G: Fn(&Vec<usize>, &Vec<usize>) -> u64>(
    t1: TreeNode,
    t2: TreeNode,
    rows: Seq<Seq<u64>>,
    ncols: nat,
    y: Seq<usize>,
    idx: Seq<usize>,
    depth: nat,
    max_depth: nat,
    min_loss_key: u64,
    node_loss: F,
    split_loss: G,
)
    requires
        node_loss_by_counts(node_loss),
        split_loss_by_counts(split_loss),
        grows(t1, rows, ncols, y, idx, depth, max_depth, min_loss_key, node_loss, split_loss),
        grows(t2, rows, ncols, y, idx, depth, max_depth, min_loss_key, node_loss, split_loss),
    ensures
        same_but_predictions(t1, t2),
    decreases t1,
{
    match t1 {
        TreeNode::Leaf { .. } => {
            match t2 {
                TreeNode::Internal { .. } => {
                    let k2 = choose|k: u64| #[trigger] is_group_loss(y, idx, node_loss, k) && k > min_loss_key;
                    if idx.len() >= 2 && depth < max_depth {
                        let k1 = choose|k: u64| #[trigger] is_group_loss(y, idx, node_loss, k) && k <= min_loss_key;
                        lemma_group_loss_unique(y, idx, node_loss, k1, k2);
                    }
                },
                _ => {},
            }
        },
        TreeNode::Internal { feature: Some(f), threshold: Some(t), left: Some(l), right: Some(r) } => {
            match t2 {
                TreeNode::Leaf { .. } => {
                    let k1 = choose|k: u64| #[trigger] is_group_loss(y, idx, node_loss, k) && k > min_loss_key;
                    let k2 = choose|k: u64| #[trigger] is_group_loss(y, idx, node_loss, k) && k <= min_loss_key;
                    lemma_group_loss_unique(y, idx, node_loss, k1, k2);
                },
                TreeNode::Internal {
                    feature: Some(f2),
                    threshold: Some(u),
                    left: Some(l2),
                    right: Some(r2),
                } => {
                    lemma_best_split_unique(rows, ncols, y, idx, split_loss, f, t, f2, u);
                    lemma_grown_trees_agree(
                        *l,
                        *l2,
                        rows,
                        ncols,
                        y,
                        idx.filter(below_threshold(rows, f, t)),
                        depth + 1,
                        max_depth,
                        min_loss_key,
                        node_loss,
                        split_loss,
                    );
                    lemma_grown_trees_agree(
                        *r,
                        *r2,
                        rows,
                        ncols,
                        y,
                        idx.filter(not_below_threshold(rows, f, t)),
                        depth + 1,
                        max_depth,
                        min_loss_key,
                        node_loss,
                        split_loss,
                    );
                },
                _ => {},
            }
        },
        _ => {},
    }
}

/// A tree of a fitted forest is, up to which of equally frequent labels its
/// leaves predict, the tree that `DecisionTreeClassifier::fit` grows on the
/// rows and labels its bootstrap sample picks (as that function's `ensures`
/// describes it), when the loss functions depend on the label counts alone.
pub proof fn lemma_forest_tree_is_fitted_tree<F: Fn(&Vec<usize>) -> u64, G: Fn(&Vec<usize>, &Vec<usize>) -> u64>(
    t: TreeNode,
    b: Seq<usize>,
    x: KeyMatrix,
    y: Seq<usize>,
    count: nat,
    max_depth: nat,
    min_loss_key: u64,
    node_loss: F,
    split_loss: G,
    fitted: TreeNode,
)
    requires
        node_loss_by_counts(node_loss),
        split_loss_by_counts(split_loss),
        grown_on(t, b, x, y, count, max_depth, min_loss_key, node_loss, split_loss),
        grows(
            fitted,
            picked_rows(x.rows(), b),
            x.num_cols(),
            picked_labels(y, b),
            all_samples(count),
            0,
            max_depth,
            min_loss_key,
            node_loss,
            split_loss,
        ),
    ensures
        same_but_predictions(t, fitted),
{
    lemma_grown_trees_agree(
        t,
        fitted,
        picked_rows(x.rows(), b),
        x.num_cols(),
        picked_labels(y, b),
        all_samples(count),
        0,
        max_depth,
        min_loss_key,
        node_loss,
        split_loss,
    );
}

} // verus!
