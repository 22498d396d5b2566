use shap_rs::explainers::clustering::ClusterForest;
use shap_rs::explainers::{FeaturePartition, HierarchicalPartitionExplainer, PartitionExplainer, PartitionNode, PartitionTree};
use shap_rs::ShapError;

fn leaf(j: usize) -> PartitionNode {
    PartitionNode::Feature(j)
}

fn group(a: PartitionNode, b: PartitionNode) -> PartitionNode {
    PartitionNode::Group(Box::new(a), Box::new(b))
}

#[test]
fn checks_hierarchy_permutation_limit_before_generation() {
    fn hierarchy(features: std::ops::Range<usize>) -> PartitionNode {
        let mut nodes = features.map(PartitionNode::Feature).collect::<Vec<_>>();
        while nodes.len() > 1 {
            let right = nodes.pop().unwrap();
            let left = nodes.pop().unwrap();
            nodes.push(PartitionNode::Group(Box::new(left), Box::new(right)));
        }
        nodes.pop().unwrap()
    }
    let tree = PartitionTree::new(hierarchy(0..18), 18).unwrap();
    assert_eq!(tree.permutation_count(), Some(1 << 17));
    let result = HierarchicalPartitionExplainer::from_masker((), (), tree)
        .with_max_permutations(16)
        .check_input(18, 1, 18);
    assert!(matches!(result, Err(ShapError::InvalidConfiguration(_))));
}

#[test]
fn hierarchy_orderings_keep_groups_contiguous() {
    let tree = PartitionTree::new(group(group(leaf(0), leaf(1)), leaf(2)), 3).unwrap();
    assert_eq!(tree.permutation_count(), Some(4));
    assert_eq!(
        tree.permutations(),
        vec![vec![0, 1, 2], vec![2, 0, 1], vec![1, 0, 2], vec![2, 1, 0]]
    );
    for order in tree.permutations() {
        let mut sorted = order.clone();
        sorted.sort();
        assert_eq!(sorted, vec![0, 1, 2]);
    }
}

#[test]
fn hierarchy_must_name_every_feature_once() {
    assert_eq!(
        PartitionTree::new(group(leaf(0), leaf(0)), 2).err(),
        Some(ShapError::InvalidConfiguration(
            "partition tree must contain each feature exactly once".to_string()
        ))
    );
    assert_eq!(
        PartitionTree::new(leaf(0), 0).err(),
        Some(ShapError::InvalidConfiguration("partition tree must contain features".to_string()))
    );
    assert!(PartitionTree::new(leaf(0), 1).unwrap().validate().is_ok());
}

#[test]
fn flat_partitions_are_checked_group_by_group() {
    let p = FeaturePartition::new(vec![vec![0, 2], vec![1]], 3).unwrap();
    assert_eq!(p.groups(), &[vec![0, 2], vec![1]]);
    assert_eq!(p.n_features(), 3);
    assert!(p.validate().is_ok());
    assert_eq!(
        FeaturePartition::new(vec![vec![0], vec![]], 2).err(),
        Some(ShapError::InvalidConfiguration("partition groups cannot be empty".to_string()))
    );
    assert_eq!(
        FeaturePartition::new(vec![vec![0, 0]], 1).err(),
        Some(ShapError::InvalidConfiguration(
            "partition must contain every feature exactly once".to_string()
        ))
    );
    assert_eq!(
        FeaturePartition::new(vec![], 0).err(),
        Some(ShapError::InvalidConfiguration("partition must contain at least one feature".to_string()))
    );
}

#[test]
fn partition_explainer_checks_input_in_order() {
    let p = FeaturePartition::new(vec![vec![0, 2], vec![1]], 3).unwrap();
    let explainer = PartitionExplainer::from_masker((), (), p).with_max_features(2);
    assert_eq!(
        explainer.check_input(4, 1, 4),
        Err(ShapError::DimensionMismatch {
            expected: "partition for 4 features".to_string(),
            found: "partition for 3 features".to_string()
        })
    );
    assert_eq!(explainer.check_input(3, 0, 3), Err(ShapError::EmptyData));
    assert_eq!(
        explainer.check_input(3, 1, 2),
        Err(ShapError::DimensionMismatch { expected: "3 features".to_string(), found: "2".to_string() })
    );
    assert_eq!(
        explainer.check_input(3, 1, 3),
        Err(ShapError::InvalidConfiguration("exact Owen values support at most 2 features".to_string()))
    );
    let explainer = explainer.with_max_features(20);
    assert_eq!(explainer.check_input(3, 1, 3), Ok(()));
    assert_eq!(explainer.group_masks(), vec![5, 2]);
    assert_eq!(explainer.max_features(), 20);
}

#[test]
fn hierarchical_explainer_reports_its_ordering_count() {
    let tree = PartitionTree::new(group(group(leaf(0), leaf(1)), leaf(2)), 3).unwrap();
    let explainer = HierarchicalPartitionExplainer::from_masker((), (), tree);
    assert_eq!(explainer.max_permutations(), 65536);
    assert_eq!(explainer.check_input(3, 2, 3), Ok(4));
    assert_eq!(explainer.check_input(3, 0, 3), Err(ShapError::EmptyData));
    assert_eq!(
        explainer.check_input(3, 2, 5),
        Err(ShapError::DimensionMismatch {
            expected: "3 features in data and hierarchy".to_string(),
            found: "data 5, hierarchy 3".to_string()
        })
    );
    let limited = explainer.with_max_permutations(3);
    assert_eq!(
        limited.check_input(3, 2, 3),
        Err(ShapError::InvalidConfiguration(
            "hierarchy generates 4 permutations, exceeding limit 3".to_string()
        ))
    );
}

#[test]
fn rejects_invalid_deserialized_style_partitions_before_evaluation() {
    assert!(matches!(FeaturePartition::new(vec![vec![0, 0]], 2), Err(ShapError::InvalidConfiguration(_))));
}

#[test]
fn joining_clusters_builds_a_valid_hierarchy() {
    let mut forest = ClusterForest::new(3);
    assert_eq!(forest.len(), 3);
    assert_eq!(forest.members(2), &[2]);
    forest.merge(0, 2);
    assert_eq!(forest.len(), 2);
    assert_eq!(forest.members(0), &[1]);
    assert_eq!(forest.members(1), &[0, 2]);
    forest.merge(0, 1);
    assert_eq!(forest.members(0), &[1, 0, 2]);
    let tree = forest.into_tree().unwrap();
    assert_eq!(tree.root(), &PartitionNode::Group(Box::new(leaf(1)), Box::new(PartitionNode::Group(Box::new(leaf(0)), Box::new(leaf(2))))));
    assert_eq!(tree.n_features(), 3);
}

#[test]
fn an_unfinished_or_empty_forest_is_no_hierarchy() {
    assert_eq!(ClusterForest::new(0).into_tree().err(), Some(ShapError::EmptyBackground));
    let mut forest = ClusterForest::new(3);
    forest.merge(1, 2);
    assert!(matches!(forest.into_tree(), Err(ShapError::InvalidConfiguration(_))));
}

#[test]
fn owen_plan_enumerates_other_groups_and_peers() {
    let p = FeaturePartition::new(vec![vec![0, 2], vec![1], vec![3]], 4).unwrap();
    let explainer = PartitionExplainer::from_masker((), (), p);
    let (outer, inner) = explainer.owen_plan(0, 1);
    assert_eq!(outer, vec![(0, 0), (2, 1), (8, 1), (10, 2)]);
    assert_eq!(inner, vec![(0, 0), (1, 1)]);
    let (outer, inner) = explainer.owen_plan(1, 0);
    assert_eq!(outer, vec![(0, 0), (5, 1), (8, 1), (13, 2)]);
    assert_eq!(inner, vec![(0, 0)]);
}
