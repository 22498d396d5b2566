use shap_rs::explainers::permutation::{append_order, orders_plan, permutation_plan};
use shap_rs::explainers::{PermutationExplainer, SamplingExplainer};
use shap_rs::{EvaluationConfig, Link, ShapError};

fn orders_of(steps: &[(usize, usize, usize)], m: usize) -> Vec<Vec<usize>> {
    steps.chunks(m).map(|c| c.iter().map(|s| s.0).collect()).collect()
}

#[test]
fn an_order_becomes_prefix_coalitions_and_steps() {
    let mut requested = vec![0u64];
    let mut steps = Vec::new();
    append_order(&[2, 0, 1], &mut requested, &mut steps);
    assert_eq!(requested, vec![0, 0b100, 0b101, 0b111]);
    assert_eq!(steps, vec![(2, 0, 1), (0, 1, 2), (1, 2, 3)]);
    append_order(&[1, 2, 0], &mut requested, &mut steps);
    assert_eq!(requested[4..], [0b010, 0b110, 0b111]);
    assert_eq!(steps[3..], [(1, 0, 4), (2, 4, 5), (0, 5, 6)]);
}

#[test]
fn antithetic_plans_pair_each_order_with_its_reverse() {
    let (requested, steps) = permutation_plan(5, 4, true, 7);
    assert_eq!(requested.len(), 1 + 4 * 5);
    assert_eq!(steps.len(), 4 * 5);
    let orders = orders_of(&steps, 5);
    for order in &orders {
        let mut sorted = order.clone();
        sorted.sort();
        assert_eq!(sorted, vec![0, 1, 2, 3, 4]);
    }
    let mut reversed = orders[0].clone();
    reversed.reverse();
    assert_eq!(orders[1], reversed);
    let mut reversed = orders[2].clone();
    reversed.reverse();
    assert_eq!(orders[3], reversed);
    assert_eq!(requested[0], 0);
    assert_eq!(requested[5], 0b11111);
    assert_eq!(requested[20], 0b11111);
}

#[test]
fn plans_are_reproducible_and_shuffled() {
    let a = permutation_plan(6, 5, false, 11);
    let b = permutation_plan(6, 5, false, 11);
    assert_eq!(a, b);
    let orders = orders_of(&a.1, 6);
    assert!(orders.iter().any(|o| *o != vec![0, 1, 2, 3, 4, 5]));
}

#[test]
fn odd_plans_end_with_an_unpaired_order() {
    let (requested, steps) = permutation_plan(3, 3, true, 1);
    assert_eq!(requested.len(), 10);
    assert_eq!(steps.len(), 9);
}

#[test]
fn explicit_orders_are_planned_in_turn() {
    let (requested, steps) = orders_plan(&vec![vec![0, 1], vec![1, 0]]);
    assert_eq!(requested, vec![0, 0b01, 0b11, 0b10, 0b11]);
    assert_eq!(steps, vec![(0, 0, 1), (1, 1, 2), (1, 0, 3), (0, 3, 4)]);
}

#[test]
fn permutation_explainer_checks_input_in_order() {
    let explainer = PermutationExplainer::from_masker((), ());
    assert_eq!(explainer.n_permutations(), 128);
    assert!(explainer.antithetic());
    assert_eq!(explainer.check_input(3, 0, 3), Err(ShapError::EmptyData));
    assert_eq!(
        explainer.check_input(3, 2, 4),
        Err(ShapError::DimensionMismatch { expected: "3 features".to_string(), found: "4".to_string() })
    );
    assert_eq!(
        explainer.check_input(63, 2, 63),
        Err(ShapError::InvalidConfiguration(
            "permutation SHAP currently supports at most 62 features".to_string()
        ))
    );
    let none = PermutationExplainer::from_masker((), ()).with_n_permutations(0);
    assert_eq!(
        none.check_input(3, 2, 3),
        Err(ShapError::InvalidConfiguration("n_permutations must be positive".to_string()))
    );
    assert_eq!(explainer.check_input(62, 1, 62), Ok(()));
}

#[test]
fn permutation_builders_set_one_field_each() {
    let config = EvaluationConfig { coalition_batch_size: 2, cache_capacity: 8, max_model_rows: Some(100) };
    let explainer = PermutationExplainer::from_masker((), ())
        .with_seed(9)
        .with_antithetic(false)
        .with_link(Link::Logit)
        .with_evaluation_config(config);
    assert_eq!(explainer.seed(), 9);
    assert!(!explainer.antithetic());
    assert_eq!(explainer.link(), Link::Logit);
    assert_eq!(explainer.evaluation(), config);
    assert_eq!(explainer.n_permutations(), 128);
}

#[test]
fn sampling_repeats_need_two_runs_and_advance_the_seed() {
    let explainer = SamplingExplainer::from_masker((), ()).with_seed(u64::MAX);
    assert_eq!(explainer.nsamples(), 256);
    assert_eq!(
        explainer.check_repeats(1),
        Err(ShapError::InvalidConfiguration(
            "uncertainty estimation requires at least two repeats".to_string()
        ))
    );
    assert!(explainer.check_repeats(2).is_ok());
    assert_eq!(explainer.repeat_seed(0), u64::MAX);
    assert_eq!(explainer.repeat_seed(2), 1);
}
