use deltaml::arrays::{IndexArray, KeyMatrix};
use deltaml::counting::{counts_for, most_frequent, tally};
use deltaml::decision_tree::DecisionTreeClassifier;
use deltaml::splits::{best_split, is_better_split};
use deltaml::forest::RandomForest;
use deltaml::tree::TreeNode;
use ndarray::{Array1, Array2};

/// An integer key for a feature or loss value, ordered as the values are.
fn order_key(v: f64) -> u64 {
    assert!(!v.is_nan(), "NaN has no place in the order");
    let v = if v == 0.0 { 0.0 } else { v };
    let bits = v.to_bits();
    if bits >> 63 == 1 {
        !bits
    } else {
        bits | (1u64 << 63)
    }
}

/// The entropy (in bits) of a group with the given label counts.
fn entropy(class_counts: &Vec<usize>) -> f64 {
    let subset_size = class_counts.iter().sum::<usize>() as f64;
    class_counts
        .iter()
        .map(|&count| {
            if count == 0 {
                0 as f64
            } else {
                let p = (count as f64) / subset_size;
                (-p) * libm::log2(p)
            }
        })
        .sum::<f64>()
}

fn node_loss(counts: &Vec<usize>) -> u64 {
    order_key(entropy(counts))
}

fn split_loss(left: &Vec<usize>, right: &Vec<usize>) -> u64 {
    let n_left = left.iter().sum::<usize>();
    let num_rows = n_left + right.iter().sum::<usize>();
    let total = entropy(left) * (n_left as f64) / (num_rows as f64)
        + entropy(right) * ((num_rows - n_left) as f64) / (num_rows as f64);
    order_key(total)
}

fn key_matrix(x: &Array2<f64>) -> KeyMatrix {
    KeyMatrix::new(x.nrows(), x.ncols(), x.iter().map(|&v| order_key(v)).collect()).unwrap()
}

fn labels(y: &Array1<f64>) -> IndexArray {
    IndexArray::new(y.iter().map(|&v| v as usize).collect())
}

fn fit_tree(model: &mut DecisionTreeClassifier, x: &Array2<f64>, y: &Array1<f64>) {
    model.fit(&key_matrix(x), &labels(y), &node_loss, &split_loss);
}

fn predict_tree(model: &DecisionTreeClassifier, x: &Array2<f64>) -> Vec<usize> {
    model.predict(&key_matrix(x)).to_vec()
}

#[test]
fn test_decision_tree_fit_predict() {
    let (train, test) = linfa_datasets::iris().split_with_ratio(0.8);

    // Convert train data to ndarray format
    let x_train = Array2::from_shape_vec(
        (train.records().nrows(), train.records().ncols()),
        train.records().to_owned().into_raw_vec(),
    )
    .unwrap();

    let y_train = Array1::from_shape_vec(
        train.targets().len(),
        train.targets().iter().map(|&x| x as f64).collect(),
    )
    .unwrap();

    // Convert test data to ndarray format
    let x_test = Array2::from_shape_vec(
        (test.records().nrows(), test.records().ncols()),
        test.records().to_owned().into_raw_vec(),
    )
    .unwrap();

    let y_test = Array1::from_shape_vec(
        test.targets().len(),
        test.targets().iter().map(|&x| x as f64).collect(),
    )
    .unwrap();

    let mut model = DecisionTreeClassifier::new(10, order_key(1e-6));
    fit_tree(&mut model, &x_train, &y_train);

    let predictions: Vec<f64> = predict_tree(&model, &x_test).iter().map(|&p| p as f64).collect();

    // Calculate and print the accuracy
    let correct_predictions = predictions
        .iter()
        .zip(y_test.iter())
        .filter(|(&pred, &actual)| (pred - actual).abs() < 1e-6)
        .count();
    let accuracy = correct_predictions as f64 / y_test.len() as f64;
    println!("Test accuracy: {:.2}%", accuracy * 100.0);
}

#[test]
fn test_random_forest_fit_and_predict() {
    let (train, test) = linfa_datasets::iris().split_with_ratio(0.8);

    // Convert train data to ndarray format
    let x_train = Array2::from_shape_vec(
        (train.records().nrows(), train.records().ncols()),
        train.records().to_owned().into_raw_vec(),
    )
    .unwrap();

    let y_train = Array1::from_shape_vec(
        train.targets().len(),
        train.targets().iter().map(|&x| x as f64).collect(),
    )
    .unwrap();

    // Convert test data to ndarray format
    let x_test = Array2::from_shape_vec(
        (test.records().nrows(), test.records().ncols()),
        test.records().to_owned().into_raw_vec(),
    )
    .unwrap();

    let y_test = Array1::from_shape_vec(
        test.targets().len(),
        test.targets().iter().map(|&x| x as f64).collect(),
    )
    .unwrap();

    let mut model = RandomForest::new(order_key(1e-6));

    println!("Fitting the model...");
    model.fit(&key_matrix(&x_train), &labels(&y_train), &node_loss, &split_loss);
    println!("Model fitted.");

    let predictions: Vec<f64> =
        model.predict(&key_matrix(&x_test)).to_vec().iter().map(|&p| p as f64).collect();
    assert_eq!(predictions.len(), x_test.nrows());

    // Calculate and print the accuracy
    let correct_predictions = predictions
        .iter()
        .zip(y_test.iter())
        .filter(|(&pred, &actual)| (pred - actual).abs() < 1e-6)
        .count();
    let accuracy = correct_predictions as f64 / y_test.len() as f64;
    println!("Test accuracy: {:.2}%", accuracy * 100.0);
}

#[test]
fn test_tree_predicts_training_labels_of_separable_data() {
    let x = Array2::from_shape_vec((4, 1), vec![1.0, 2.0, 3.0, 4.0]).unwrap();
    let y = Array1::from_vec(vec![0.0, 0.0, 1.0, 1.0]);
    let mut model = DecisionTreeClassifier::new(10, order_key(1e-6));
    fit_tree(&mut model, &x, &y);
    assert_eq!(predict_tree(&model, &x), vec![0, 0, 1, 1]);
    let new_rows = Array2::from_shape_vec((3, 1), vec![0.5, 2.5, 10.0]).unwrap();
    assert_eq!(predict_tree(&model, &new_rows), vec![0, 0, 1]);
}

#[test]
fn test_tree_threshold_is_key_of_first_right_sample() {
    // The best split puts {1, 2} left: its threshold is the key of 3.0, so
    // 2.99 goes left and 3.0 goes right.
    let x = Array2::from_shape_vec((4, 1), vec![4.0, 1.0, 3.0, 2.0]).unwrap();
    let y = Array1::from_vec(vec![1.0, 0.0, 1.0, 0.0]);
    let mut model = DecisionTreeClassifier::new(10, order_key(1e-6));
    fit_tree(&mut model, &x, &y);
    let rows = Array2::from_shape_vec((2, 1), vec![2.99, 3.0]).unwrap();
    assert_eq!(predict_tree(&model, &rows), vec![0, 1]);
}

#[test]
fn test_tree_splits_on_the_informative_feature() {
    // Feature 0 is noise, feature 1 separates the classes.
    let x = Array2::from_shape_vec(
        (4, 2),
        vec![1.0, 10.0, 2.0, 20.0, 1.0, 30.0, 2.0, 40.0],
    )
    .unwrap();
    let y = Array1::from_vec(vec![5.0, 5.0, 7.0, 7.0]);
    let mut model = DecisionTreeClassifier::new(10, order_key(1e-6));
    fit_tree(&mut model, &x, &y);
    let rows = Array2::from_shape_vec((2, 2), vec![1.0, 15.0, 1.0, 35.0]).unwrap();
    assert_eq!(predict_tree(&model, &rows), vec![5, 7]);
}

#[test]
fn test_tree_prefers_the_first_feature_on_equal_loss() {
    // Both features separate the classes perfectly; the first one is used.
    let x = Array2::from_shape_vec((2, 2), vec![1.0, 2.0, 2.0, 1.0]).unwrap();
    let y = Array1::from_vec(vec![0.0, 1.0]);
    let mut model = DecisionTreeClassifier::new(10, order_key(1e-6));
    fit_tree(&mut model, &x, &y);
    // A row that only feature 0 calls class 0.
    let rows = Array2::from_shape_vec((1, 2), vec![1.0, 5.0]).unwrap();
    assert_eq!(predict_tree(&model, &rows), vec![0]);
}

#[test]
fn test_tree_single_class_data() {
    let x = Array2::from_shape_vec((3, 2), vec![1.0, 5.0, 2.0, 4.0, 3.0, 3.0]).unwrap();
    let y = Array1::from_vec(vec![2.0, 2.0, 2.0]);
    let mut model = DecisionTreeClassifier::new(10, order_key(1e-6));
    fit_tree(&mut model, &x, &y);
    assert_eq!(predict_tree(&model, &x), vec![2, 2, 2]);
}

#[test]
fn test_tree_depth_zero_is_one_majority_leaf() {
    let x = Array2::from_shape_vec((5, 1), vec![1.0, 2.0, 3.0, 4.0, 5.0]).unwrap();
    let y = Array1::from_vec(vec![1.0, 3.0, 3.0, 1.0, 3.0]);
    let mut model = DecisionTreeClassifier::new(0, order_key(1e-6));
    fit_tree(&mut model, &x, &y);
    assert_eq!(predict_tree(&model, &x), vec![3, 3, 3, 3, 3]);
}

#[test]
fn test_tree_high_min_loss_stops_at_root() {
    let x = Array2::from_shape_vec((3, 1), vec![1.0, 2.0, 3.0]).unwrap();
    let y = Array1::from_vec(vec![4.0, 4.0, 6.0]);
    let mut model = DecisionTreeClassifier::new(10, u64::MAX);
    fit_tree(&mut model, &x, &y);
    assert_eq!(predict_tree(&model, &x), vec![4, 4, 4]);
}

#[test]
fn test_tree_without_training_rows_predicts_zero() {
    let x = Array2::<f64>::from_shape_vec((0, 2), vec![]).unwrap();
    let y = Array1::<f64>::from_vec(vec![]);
    let mut model = DecisionTreeClassifier::new(10, order_key(1e-6));
    fit_tree(&mut model, &x, &y);
    let rows = Array2::from_shape_vec((2, 2), vec![1.0, 2.0, 3.0, 4.0]).unwrap();
    assert_eq!(predict_tree(&model, &rows), vec![0, 0]);
}

#[test]
fn test_unfitted_tree_predicts_nothing() {
    let model = DecisionTreeClassifier::new(10, order_key(1e-6));
    let rows = Array2::from_shape_vec((2, 1), vec![1.0, 2.0]).unwrap();
    assert_eq!(predict_tree(&model, &rows), Vec::<usize>::new());
}

#[test]
fn test_forest_unanimous_on_single_class_data() {
    let x = Array2::from_shape_vec((4, 2), vec![1.0, 2.0, 3.0, 4.0, 5.0, 6.0, 7.0, 8.0]).unwrap();
    let y = Array1::from_vec(vec![9.0, 9.0, 9.0, 9.0]);
    let mut model = RandomForest::new(order_key(1e-6));
    model.fit(&key_matrix(&x), &labels(&y), &node_loss, &split_loss);
    let rows = Array2::from_shape_vec((2, 2), vec![0.0, 0.0, 100.0, 100.0]).unwrap();
    assert_eq!(model.predict(&key_matrix(&rows)).to_vec(), vec![9, 9]);
    assert_eq!(model.predict(&key_matrix(&x)).to_vec(), vec![9, 9, 9, 9]);
}

#[test]
fn test_forest_refit_draws_from_the_new_data() {
    // A sample size of 0 means all available rows at every fit: a refit on
    // other data, even on none, draws from that data.
    let x = Array2::from_shape_vec((3, 1), vec![1.0, 2.0, 3.0]).unwrap();
    let y = Array1::from_vec(vec![1.0, 1.0, 1.0]);
    let mut model = RandomForest::new(order_key(1e-6));
    model.fit(&key_matrix(&x), &labels(&y), &node_loss, &split_loss);
    let rows = Array2::from_shape_vec((1, 1), vec![2.0]).unwrap();
    assert_eq!(model.predict(&key_matrix(&rows)).to_vec(), vec![1]);
    let x2 = Array2::from_shape_vec((5, 1), vec![1.0, 2.0, 3.0, 4.0, 5.0]).unwrap();
    let y2 = Array1::from_vec(vec![4.0, 4.0, 4.0, 4.0, 4.0]);
    model.fit(&key_matrix(&x2), &labels(&y2), &node_loss, &split_loss);
    assert_eq!(model.current_sample_size(), 0);
    assert_eq!(model.num_trees(), 10);
    assert_eq!(model.predict(&key_matrix(&rows)).to_vec(), vec![4]);
    let empty = Array2::<f64>::from_shape_vec((0, 1), vec![]).unwrap();
    let no_labels = Array1::<f64>::from_vec(vec![]);
    model.fit(&key_matrix(&empty), &labels(&no_labels), &node_loss, &split_loss);
    assert_eq!(model.predict(&key_matrix(&rows)).to_vec(), vec![0]);
}

#[test]
fn test_forest_on_empty_data() {
    let x = Array2::<f64>::from_shape_vec((0, 1), vec![]).unwrap();
    let y = Array1::<f64>::from_vec(vec![]);
    let mut model = RandomForest::new(order_key(1e-6));
    model.fit(&key_matrix(&x), &labels(&y), &node_loss, &split_loss);
    let rows = Array2::from_shape_vec((1, 1), vec![2.0]).unwrap();
    assert_eq!(model.predict(&key_matrix(&rows)).to_vec(), vec![0]);
}

#[test]
fn test_unfitted_forest_predicts_nothing_for_no_rows() {
    let model = RandomForest::new(order_key(1e-6));
    let rows = Array2::<f64>::from_shape_vec((0, 3), vec![]).unwrap();
    assert_eq!(model.predict(&key_matrix(&rows)).to_vec(), Vec::<usize>::new());
}

#[test]
fn test_most_frequent_values() {
    assert_eq!(most_frequent(&vec![]), None);
    assert_eq!(most_frequent(&vec![3, 1, 3, 2]), Some(3));
    assert_eq!(most_frequent(&vec![7]), Some(7));
    let tie = most_frequent(&vec![1, 2, 2, 1]).unwrap();
    assert!(tie == 1 || tie == 2);
}

#[test]
fn test_tally_and_counts() {
    let (classes, counts) = tally(&vec![4, 2, 4, 4, 9]);
    assert_eq!(classes, vec![4, 2, 9]);
    assert_eq!(counts, vec![3, 1, 1]);
    assert_eq!(counts_for(&vec![9, 2, 4], &vec![4, 4, 9]), vec![1, 0, 2]);
    let (classes, counts) = tally(&vec![]);
    assert!(classes.is_empty() && counts.is_empty());
}

#[test]
fn test_is_better_split_order() {
    assert!(is_better_split((1, 5, 5, 5), (2, 0, 0, 0)));
    assert!(!is_better_split((2, 0, 0, 0), (1, 5, 5, 5)));
    assert!(is_better_split((1, 0, 9, 9), (1, 1, 0, 0)));
    assert!(is_better_split((1, 1, 2, 9), (1, 1, 3, 0)));
    assert!(is_better_split((1, 1, 2, 3), (1, 1, 2, 4)));
    assert!(!is_better_split((1, 1, 2, 3), (1, 1, 2, 3)));
}

#[test]
fn test_key_matrix_shapes() {
    assert!(KeyMatrix::new(2, 3, vec![1, 2, 3, 4, 5, 6]).is_some());
    assert!(KeyMatrix::new(2, 3, vec![1, 2, 3, 4, 5]).is_none());
    assert!(KeyMatrix::new(0, 3, vec![]).is_some());
    assert!(KeyMatrix::new(usize::MAX, 0, vec![]).is_none());
}

#[test]
fn test_index_array_round_trip() {
    let a = IndexArray::new(vec![5, 0, 7]);
    assert_eq!(a.to_vec(), vec![5, 0, 7]);
    assert_eq!(IndexArray::new(vec![]).to_vec(), Vec::<usize>::new());
}

#[test]
fn test_best_split_first_minimum() {
    assert_eq!(best_split(&vec![]), None);
    assert_eq!(best_split(&vec![(5, 0, 1, 1), (3, 1, 0, 2), (3, 0, 9, 9), (4, 0, 0, 0)]), Some(2));
    assert_eq!(best_split(&vec![(2, 0, 1, 1), (2, 0, 1, 1)]), Some(0));
}

#[test]
fn test_can_predict_needs_the_tested_features() {
    // Only feature 1 separates, so the tree tests feature 1.
    let x = Array2::from_shape_vec((4, 2), vec![1.0, 10.0, 2.0, 20.0, 1.0, 30.0, 2.0, 40.0]).unwrap();
    let y = Array1::from_vec(vec![5.0, 5.0, 7.0, 7.0]);
    let mut model = DecisionTreeClassifier::new(10, order_key(1e-6));
    fit_tree(&mut model, &x, &y);
    let narrow = Array2::from_shape_vec((1, 1), vec![0.0]).unwrap();
    assert!(!model.can_predict(&key_matrix(&narrow)));
    assert!(model.can_predict(&key_matrix(&x)));
    let no_rows = Array2::<f64>::from_shape_vec((0, 1), vec![]).unwrap();
    assert!(model.can_predict(&key_matrix(&no_rows)));
}

#[test]
fn test_forest_counts_and_sample_size() {
    let x = Array2::from_shape_vec((3, 1), vec![1.0, 2.0, 3.0]).unwrap();
    let y = Array1::from_vec(vec![0.0, 1.0, 1.0]);
    let mut model = RandomForest::new(order_key(1e-6));
    assert_eq!(model.num_trees(), 0);
    assert_eq!(model.current_sample_size(), 0);
    assert!(!model.can_predict(&key_matrix(&x)));
    model.fit(&key_matrix(&x), &labels(&y), &node_loss, &split_loss);
    assert_eq!(model.num_trees(), 10);
    assert_eq!(model.current_sample_size(), 0);
    assert!(model.can_predict(&key_matrix(&x)));
    let predictions = model.predict(&key_matrix(&x)).to_vec();
    assert_eq!(predictions.len(), 3);
    assert!(predictions.iter().all(|&p| p == 0 || p == 1));
}

#[test]
fn test_constant_feature_loses_to_a_separating_one() {
    // Feature 0 is constant: every split on it leaves the left side empty and
    // scores the entropy of the whole group, so the perfect split on feature
    // 1 wins.
    let x = Array2::from_shape_vec((4, 2), vec![0.0, 1.0, 0.0, 2.0, 0.0, 3.0, 0.0, 4.0]).unwrap();
    let y = Array1::from_vec(vec![0.0, 0.0, 1.0, 1.0]);
    let mut model = DecisionTreeClassifier::new(3, order_key(1e-6));
    fit_tree(&mut model, &x, &y);
    assert_eq!(predict_tree(&model, &x), vec![0, 0, 1, 1]);
    let narrow = Array2::from_shape_vec((1, 1), vec![0.0]).unwrap();
    assert!(!model.can_predict(&key_matrix(&narrow)));
}

#[test]
fn test_tied_keys_are_scored_by_the_split_that_is_made() {
    // Rows 1.0, 1.0, 2.0 with labels 0, 1, 1: below 1.0 nothing goes left, so
    // the best threshold is 2.0 and both rows of 1.0 share a leaf.
    let x = Array2::from_shape_vec((3, 1), vec![1.0, 1.0, 2.0]).unwrap();
    let y = Array1::from_vec(vec![0.0, 1.0, 1.0]);
    let mut model = DecisionTreeClassifier::new(1, order_key(1e-6));
    fit_tree(&mut model, &x, &y);
    let rows = Array2::from_shape_vec((4, 1), vec![0.5, 1.0, 1.5, 2.0]).unwrap();
    let p = predict_tree(&model, &rows);
    assert_eq!(p[0], p[1]);
    assert_eq!(p[1], p[2]);
    assert_eq!(p[3], 1);
}

#[test]
fn test_deep_tree_reproduces_training_labels_with_distinct_keys() {
    // Alternating labels: no single threshold separates them, but with a
    // tree at least n - 1 deep every training row gets its own label back.
    let x = Array2::from_shape_vec((6, 1), vec![1.0, 2.0, 3.0, 4.0, 5.0, 6.0]).unwrap();
    let y = Array1::from_vec(vec![0.0, 1.0, 0.0, 1.0, 0.0, 1.0]);
    let mut model = DecisionTreeClassifier::new(5, order_key(1e-6));
    fit_tree(&mut model, &x, &y);
    assert_eq!(predict_tree(&model, &x), vec![0, 1, 0, 1, 0, 1]);
}

#[test]
fn test_predictions_follow_a_permutation_of_the_rows() {
    let x = Array2::from_shape_vec((5, 2), vec![1.0, 9.0, 2.0, 8.0, 3.0, 7.0, 4.0, 6.0, 5.0, 5.0]).unwrap();
    let y = Array1::from_vec(vec![0.0, 0.0, 1.0, 2.0, 2.0]);
    let mut model = DecisionTreeClassifier::new(10, order_key(1e-6));
    fit_tree(&mut model, &x, &y);
    let order = [3usize, 0, 4, 1, 2];
    let mut permuted = Vec::new();
    for &r in order.iter() {
        permuted.push(x[[r, 0]]);
        permuted.push(x[[r, 1]]);
    }
    let px = Array2::from_shape_vec((5, 2), permuted).unwrap();
    let original = predict_tree(&model, &x);
    let reordered = predict_tree(&model, &px);
    for (k, &r) in order.iter().enumerate() {
        assert_eq!(reordered[k], original[r]);
    }
    assert_eq!(original, vec![0, 0, 1, 2, 2]);
}

#[test]
fn test_tied_keys_split_between_distinct_values() {
    // Equal keys never end up on different sides of the chosen split.
    let x = Array2::from_shape_vec((4, 1), vec![1.0, 2.0, 1.0, 2.0]).unwrap();
    let y = Array1::from_vec(vec![0.0, 1.0, 0.0, 1.0]);
    let mut model = DecisionTreeClassifier::new(10, order_key(1e-6));
    fit_tree(&mut model, &x, &y);
    assert_eq!(predict_tree(&model, &x), vec![0, 1, 0, 1]);
    let rows = Array2::from_shape_vec((2, 1), vec![1.5, 2.0]).unwrap();
    assert_eq!(predict_tree(&model, &rows), vec![0, 1]);
}

#[test]
fn test_tree_without_features_on_single_class_data() {
    // No feature to split on, but one class: the entropy 0 stops at the root.
    let x = KeyMatrix::new(3, 0, vec![]).unwrap();
    let y = IndexArray::new(vec![2, 2, 2]);
    let mut model = DecisionTreeClassifier::new(10, order_key(1e-6));
    model.fit(&x, &y, &node_loss, &split_loss);
    assert_eq!(model.predict(&x).to_vec(), vec![2, 2, 2]);
}

#[test]
fn test_build_tree_below_max_depth_is_a_leaf() {
    let x = Array2::from_shape_vec((3, 1), vec![1.0, 2.0, 3.0]).unwrap();
    let y = Array1::from_vec(vec![0.0, 1.0, 1.0]);
    let mut model = DecisionTreeClassifier::new(2, order_key(1e-6));
    fit_tree(&mut model, &x, &y);
    let deep = model.build_tree(IndexArray::new(vec![0, 1, 2]), 5, &node_loss, &split_loss);
    assert!(matches!(deep, TreeNode::Leaf { prediction: 1, .. }));
    let root = model.build_tree(IndexArray::new(vec![0, 1, 2]), 0, &node_loss, &split_loss);
    assert!(matches!(root, TreeNode::Internal { .. }));
}

#[test]
fn test_forest_tree_prediction_agrees_with_the_classifier() {
    let x = Array2::from_shape_vec((5, 2), vec![1.0, 9.0, 2.0, 8.0, 3.0, 7.0, 4.0, 6.0, 5.0, 5.0]).unwrap();
    let y = Array1::from_vec(vec![0.0, 0.0, 1.0, 2.0, 2.0]);
    let mut model = DecisionTreeClassifier::new(10, order_key(1e-6));
    fit_tree(&mut model, &x, &y);
    let tree = model.build_tree(IndexArray::new(vec![0, 1, 2, 3, 4]), 0, &node_loss, &split_loss);
    let forest = RandomForest::new(order_key(1e-6));
    let keys = key_matrix(&x);
    let expected = model.predict(&keys).to_vec();
    for i in 0..5 {
        assert_eq!(forest.predict_tree(&keys, i, &tree), expected[i]);
    }
}
