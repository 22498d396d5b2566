use shap_rs::explainers::{CausalExplainer, CausalGraph};
use shap_rs::{EvaluationConfig, Link, ShapError};

#[test]
fn lists_topological_orders_of_a_fork() {
    let graph = CausalGraph::new(vec![vec![], vec![0], vec![0]]).unwrap();
    assert!(graph.is_acyclic());
    assert_eq!(graph.n_features(), 3);
    assert_eq!(graph.topological_orders(10), Ok(vec![vec![0, 1, 2], vec![0, 2, 1]]));
    assert_eq!(graph.topological_orders(2).map(|o| o.len()), Ok(2));
    assert_eq!(
        graph.topological_orders(1),
        Err(ShapError::InvalidConfiguration(
            "causal graph generates more than 1 topological orders".to_string()
        ))
    );
}

#[test]
fn a_chain_has_one_order() {
    let graph = CausalGraph::new(vec![vec![1], vec![2], vec![]]).unwrap();
    assert_eq!(graph.topological_orders(5), Ok(vec![vec![2, 1, 0]]));
}

#[test]
fn rejects_empty_invalid_and_cyclic_graphs() {
    assert_eq!(
        CausalGraph::new(vec![]).err(),
        Some(ShapError::InvalidConfiguration("causal graph cannot be empty".to_string()))
    );
    assert_eq!(
        CausalGraph::new(vec![vec![0]]).err(),
        Some(ShapError::InvalidConfiguration("causal graph has invalid or duplicate parents".to_string()))
    );
    assert_eq!(
        CausalGraph::new(vec![vec![], vec![0, 0]]).err(),
        Some(ShapError::InvalidConfiguration("causal graph has invalid or duplicate parents".to_string()))
    );
    assert_eq!(
        CausalGraph::new(vec![vec![1], vec![0]]).err(),
        Some(ShapError::InvalidConfiguration("causal graph contains a cycle".to_string()))
    );
}

#[test]
fn causal_explainer_builders_keep_other_settings() {
    let graph = CausalGraph::new(vec![vec![], vec![0]]).unwrap();
    let explainer = CausalExplainer::new((), (), graph)
        .with_max_orders(7)
        .with_link(Link::Logit);
    assert_eq!(explainer.max_orders(), 7);
    assert_eq!(explainer.link(), Link::Logit);
    assert_eq!(
        explainer.evaluation(),
        EvaluationConfig { coalition_batch_size: 64, cache_capacity: 1 << 20, max_model_rows: None }
    );
    assert_eq!(explainer.graph().parents(), &[vec![], vec![0]]);
}

#[test]
fn causal_explainer_checks_input_in_order() {
    let graph = CausalGraph::new(vec![vec![], vec![0]]).unwrap();
    let explainer = CausalExplainer::new((), (), graph);
    assert_eq!(explainer.check_input(2, 0, 2), Err(ShapError::EmptyData));
    assert_eq!(
        explainer.check_input(2, 1, 3),
        Err(ShapError::DimensionMismatch {
            expected: "2 features in data and causal graph".to_string(),
            found: "data 3, graph 2".to_string(),
        })
    );
    assert_eq!(
        explainer.check_input(3, 1, 3),
        Err(ShapError::DimensionMismatch {
            expected: "3 features in data and causal graph".to_string(),
            found: "data 3, graph 2".to_string(),
        })
    );
    assert_eq!(explainer.check_input(2, 4, 2), Ok(()));
}

#[test]
fn rejects_invalid_deserialized_style_graph_before_evaluation() {
    assert!(matches!(CausalGraph::new(vec![vec![1], vec![0]]), Err(ShapError::InvalidConfiguration(_))));
}
