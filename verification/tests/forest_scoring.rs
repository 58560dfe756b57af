use isolation_forest::error::ForestError;
use isolation_forest::forest::IsolationForest;
use isolation_forest::node::{IsolationTreeNode, PathLength};

const SCALE: f64 = 1_048_576.0;

fn quantize(data: &[Vec<f64>]) -> Vec<Vec<i64>> {
    data.iter().map(|p| p.iter().map(|x| (x * SCALE).round() as i64).collect()).collect()
}

fn correction(size: usize) -> f64 {
    if size <= 1 {
        return 0.0;
    }
    let n = size as f64;
    2.0 * (n.ln() + 0.5772156649) - (2.0 * (n - 1.0) / n)
}

fn anomaly_score(lengths: &[PathLength], subsample_size: usize) -> f64 {
    let average = if lengths.is_empty() {
        0.0
    } else {
        let sum: f64 = lengths.iter().map(|l| l.edges as f64 + correction(l.leaf_size)).sum();
        sum / lengths.len() as f64
    };
    2.0f64.powf(-average / correction(subsample_size))
}

fn height(tree: &IsolationTreeNode) -> usize {
    match tree {
        IsolationTreeNode::Terminal { .. } => 0,
        IsolationTreeNode::Internal { left, right, .. } => 1 + height(left).max(height(right)),
    }
}

fn leaf_total(tree: &IsolationTreeNode) -> usize {
    match tree {
        IsolationTreeNode::Terminal { size, .. } => *size,
        IsolationTreeNode::Internal { left, right, .. } => leaf_total(left) + leaf_total(right),
    }
}

fn toy_dataset() -> Vec<Vec<i64>> {
    quantize(&[
        vec![1.0, 2.0],
        vec![1.1, 2.2],
        vec![1.2, 2.1],
        vec![1.3, 2.0],
        vec![1.2, 2.3],
        vec![10.0, 20.0],
    ])
}

fn grid(n: i64) -> Vec<Vec<i64>> {
    (0..n).map(|i| vec![(i * 31) % 97, (i * 17) % 89, i]).collect()
}

#[test]
fn outlier_scores_highest() {
    let data = toy_dataset();
    let mut forest = IsolationForest::new(100, 4, Some(42)).ok().unwrap();
    assert_eq!(forest.fit(&data), Ok(()));
    let lengths = forest.score(&data).unwrap();
    let scores: Vec<f64> = lengths.iter().map(|l| anomaly_score(l, 4)).collect();
    assert_eq!(scores.len(), 6);
    for i in 0..5 {
        assert!(scores[5] > scores[i]);
    }
    for s in &scores {
        assert!(0.0 < *s && *s <= 1.0);
    }
}

#[test]
fn identical_points_give_leaf_roots_and_equal_scores() {
    let data = vec![vec![7, 7, 7]; 10];
    let mut forest = IsolationForest::new(25, 4, Some(3)).ok().unwrap();
    assert_eq!(forest.fit(&data), Ok(()));
    assert_eq!(forest.trees().len(), 25);
    for tree in forest.trees() {
        assert_eq!(*tree, IsolationTreeNode::Terminal { size: 4, depth: 0 });
    }
    let lengths = forest.score(&data).unwrap();
    let expected = 2.0f64.powf(-correction(4) / correction(4));
    let first = anomaly_score(&lengths[0], 4);
    assert!((first - expected).abs() < 1e-12);
    for l in &lengths {
        assert_eq!(*l, vec![PathLength { edges: 0, leaf_size: 4 }; 25]);
        assert_eq!(anomaly_score(l, 4), first);
    }
}

#[test]
fn identical_points_fewer_than_the_subsample_size() {
    let data = vec![vec![-2]; 3];
    let mut forest = IsolationForest::new(5, 8, Some(3)).ok().unwrap();
    assert_eq!(forest.fit(&data), Ok(()));
    for tree in forest.trees() {
        assert_eq!(*tree, IsolationTreeNode::Terminal { size: 3, depth: 0 });
    }
    let lengths = forest.score_instance(&[-2]).unwrap();
    let expected = 2.0f64.powf(-correction(3) / correction(8));
    assert!((anomaly_score(&lengths, 8) - expected).abs() < 1e-12);
}

#[test]
fn unfit_forest_scores_one() {
    let forest = IsolationForest::new(10, 4, Some(1)).ok().unwrap();
    let lengths = forest.score(&toy_dataset()).unwrap();
    assert_eq!(lengths.len(), 6);
    for l in &lengths {
        assert!(l.is_empty());
        assert_eq!(anomaly_score(l, 4), 1.0);
    }
    assert_eq!(forest.score_instance(&[]).unwrap(), Vec::new());
    assert_eq!(forest.score_instance(&[1, 2, 3, 4]).unwrap(), Vec::new());
}

#[test]
fn score_keeps_length_and_order() {
    let data = grid(40);
    let mut forest = IsolationForest::new(20, 16, Some(9)).ok().unwrap();
    assert_eq!(forest.fit(&data), Ok(()));
    let probes = vec![data[7].clone(), vec![1000, -1000, 5], data[0].clone(), data[7].clone()];
    let all = forest.score(&probes).unwrap();
    assert_eq!(all.len(), 4);
    for (probe, lengths) in probes.iter().zip(all.iter()) {
        assert_eq!(lengths.len(), 20);
        assert_eq!(*lengths, forest.score_instance(probe).unwrap());
    }
    assert_eq!(all[0], all[3]);
    assert_eq!(forest.score(&[]).unwrap().len(), 0);
}

#[test]
fn score_walks_each_tree_in_turn() {
    let data = grid(40);
    let mut forest = IsolationForest::new(12, 16, Some(5)).ok().unwrap();
    assert_eq!(forest.fit(&data), Ok(()));
    let point = vec![50, 50, 50];
    let lengths = forest.score_instance(&point).unwrap();
    for (tree, length) in forest.trees().iter().zip(lengths.iter()) {
        assert_eq!(*length, tree.path_len(&point, 0));
        assert!(length.edges <= 4);
        assert!(1 <= length.leaf_size && length.leaf_size <= 16);
    }
}

#[test]
fn fit_grows_the_configured_number_of_bounded_trees() {
    let data = grid(100);
    let mut forest = IsolationForest::new(30, 10, Some(77)).ok().unwrap();
    assert_eq!(forest.max_tree_height(), 4);
    assert_eq!(forest.fit(&data), Ok(()));
    assert_eq!(forest.trees().len(), 30);
    let mut split = false;
    for tree in forest.trees() {
        assert!(height(tree) <= 4);
        assert_eq!(leaf_total(tree), 10);
        split = split || height(tree) > 0;
    }
    assert!(split);
}

#[test]
fn fit_on_a_small_dataset_uses_every_point() {
    let data = grid(5);
    let mut forest = IsolationForest::new(8, 256, Some(77)).ok().unwrap();
    assert_eq!(forest.fit(&data), Ok(()));
    for tree in forest.trees() {
        assert!(height(tree) <= 8);
        assert_eq!(leaf_total(tree), 5);
    }
}

#[test]
fn fit_replaces_the_ensemble() {
    let mut forest = IsolationForest::new(6, 4, Some(1)).ok().unwrap();
    assert_eq!(forest.fit(&grid(30)), Ok(()));
    assert_eq!(forest.fit(&vec![vec![1, 1]; 9]), Ok(()));
    assert_eq!(forest.trees().len(), 6);
    for tree in forest.trees() {
        assert_eq!(*tree, IsolationTreeNode::Terminal { size: 4, depth: 0 });
    }
    assert_eq!(forest.score_instance(&[1, 1]).unwrap().len(), 6);
    assert_eq!(forest.score_instance(&[1, 1, 1]), Err(ForestError::DimensionMismatch));
}

#[test]
fn equal_seeds_give_equal_forests() {
    let data = grid(60);
    let mut a = IsolationForest::new(40, 8, Some(123)).ok().unwrap();
    let mut b = IsolationForest::new(40, 8, Some(123)).ok().unwrap();
    assert_eq!(a.fit(&data), Ok(()));
    assert_eq!(b.fit(&data), Ok(()));
    assert_eq!(a.trees(), b.trees());
    let lengths_a = a.score(&data).unwrap();
    let lengths_b = b.score(&data).unwrap();
    assert_eq!(lengths_a, lengths_b);
    for (x, y) in lengths_a.iter().zip(lengths_b.iter()) {
        assert_eq!(anomaly_score(x, 8).to_bits(), anomaly_score(y, 8).to_bits());
    }
}

#[test]
fn random_state_advances_across_fits() {
    let data = grid(60);
    let mut a = IsolationForest::new(10, 8, Some(5)).ok().unwrap();
    assert_eq!(a.fit(&data), Ok(()));
    let first: Vec<PathLength> = a.score_instance(&data[0]).unwrap();
    let mut differs = false;
    for _ in 0..5 {
        assert_eq!(a.fit(&data), Ok(()));
        differs = differs || a.score_instance(&data[0]).unwrap() != first;
    }
    assert!(differs);
}

#[test]
fn different_seeds_give_different_forests() {
    let data = grid(60);
    let mut a = IsolationForest::new(40, 8, Some(1)).ok().unwrap();
    let mut b = IsolationForest::new(40, 8, Some(2)).ok().unwrap();
    assert_eq!(a.fit(&data), Ok(()));
    assert_eq!(b.fit(&data), Ok(()));
    assert_ne!(a.trees(), b.trees());
}

#[test]
fn fit_rejects_an_empty_dataset() {
    let mut forest = IsolationForest::new(5, 4, Some(1)).ok().unwrap();
    assert_eq!(forest.fit(&[]), Err(ForestError::EmptyDataset));
    assert!(forest.trees().is_empty());
}

#[test]
fn fit_rejects_points_of_different_widths() {
    let mut forest = IsolationForest::new(5, 4, Some(1)).ok().unwrap();
    assert_eq!(forest.fit(&[vec![1, 2], vec![1, 2, 3]]), Err(ForestError::DimensionMismatch));
    assert!(forest.trees().is_empty());
}

#[test]
fn fit_rejects_points_without_features() {
    let mut forest = IsolationForest::new(5, 4, Some(1)).ok().unwrap();
    assert_eq!(forest.fit(&[vec![], vec![]]), Err(ForestError::NoFeatures));
    assert!(forest.trees().is_empty());
}

#[test]
fn fit_takes_a_single_point_without_features() {
    let mut forest = IsolationForest::new(5, 4, Some(1)).ok().unwrap();
    assert_eq!(forest.fit(&[vec![]]), Ok(()));
    for tree in forest.trees() {
        assert_eq!(*tree, IsolationTreeNode::Terminal { size: 1, depth: 0 });
    }
    assert_eq!(forest.score_instance(&[]).unwrap().len(), 5);
    assert_eq!(forest.score_instance(&[1]), Err(ForestError::DimensionMismatch));
}

#[test]
fn fit_takes_points_without_features_one_at_a_time() {
    let mut forest = IsolationForest::new(5, 1, Some(1)).ok().unwrap();
    assert_eq!(forest.fit(&[vec![], vec![], vec![]]), Ok(()));
    for tree in forest.trees() {
        assert_eq!(*tree, IsolationTreeNode::Terminal { size: 1, depth: 0 });
    }
}

#[test]
fn subsample_of_the_whole_dataset_leaves_the_source_alone() {
    let data = grid(30);
    let small = grid(6);
    let mut a = IsolationForest::new(10, 6, Some(21)).ok().unwrap();
    let mut b = IsolationForest::new(10, 6, Some(21)).ok().unwrap();
    assert_eq!(a.get_random_subsample(&small), small);
    assert_eq!(a.fit(&data), Ok(()));
    assert_eq!(b.fit(&data), Ok(()));
    assert_eq!(a.trees(), b.trees());
}

#[test]
fn rejected_fit_keeps_the_ensemble() {
    let data = grid(20);
    let mut forest = IsolationForest::new(5, 4, Some(1)).ok().unwrap();
    assert_eq!(forest.fit(&data), Ok(()));
    let before = forest.score(&data).unwrap();
    assert_eq!(forest.fit(&[]), Err(ForestError::EmptyDataset));
    assert_eq!(forest.trees().len(), 5);
    assert_eq!(forest.score(&data).unwrap(), before);
}

#[test]
fn score_rejects_points_of_another_width() {
    let mut forest = IsolationForest::new(5, 4, Some(1)).ok().unwrap();
    assert_eq!(forest.fit(&grid(20)), Ok(()));
    assert_eq!(forest.score_instance(&[1, 2]), Err(ForestError::DimensionMismatch));
    assert_eq!(forest.score_instance(&[1, 2, 3, 4]), Err(ForestError::DimensionMismatch));
    assert_eq!(
        forest.score(&[vec![1, 2, 3], vec![1, 2]]),
        Err(ForestError::DimensionMismatch)
    );
    assert!(forest.score(&[vec![1, 2, 3]]).is_ok());
}

#[test]
fn forest_subsample_follows_the_configured_size() {
    let data = grid(30);
    let mut forest = IsolationForest::new(5, 6, Some(1)).ok().unwrap();
    let sample = forest.get_random_subsample(&data);
    assert_eq!(sample.len(), 6);
    for (i, p) in sample.iter().enumerate() {
        assert!(data.contains(p));
        assert!(!sample[..i].contains(p));
    }
    let small = grid(6);
    assert_eq!(forest.get_random_subsample(&small), small);
}
