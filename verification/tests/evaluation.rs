use shap_rs::evaluation::{add_batch_rows, chunk_bounds, CoalitionCache, EvaluationBudget};
use shap_rs::{EvaluationConfig, ShapError};

#[test]
fn rejects_zero_model_row_budget() {
    assert!(EvaluationConfig {
        coalition_batch_size: 1,
        cache_capacity: 1,
        max_model_rows: Some(0),
    }
    .validate()
    .is_err());
}

#[test]
fn default_configuration_is_valid() {
    let config = EvaluationConfig::default();
    assert_eq!(config.coalition_batch_size, 64);
    assert_eq!(config.cache_capacity, 4096);
    assert_eq!(config.max_model_rows, None);
    assert_eq!(config.validate(), Ok(config));
}

#[test]
fn configuration_errors_come_in_order() {
    let config = EvaluationConfig { coalition_batch_size: 0, cache_capacity: 0, max_model_rows: Some(0) };
    assert_eq!(
        config.validate(),
        Err(ShapError::InvalidConfiguration(
            "coalition batch size and cache capacity must be positive".to_string()
        ))
    );
    let config = EvaluationConfig { coalition_batch_size: 8, cache_capacity: 4, max_model_rows: Some(0) };
    assert_eq!(
        config.validate(),
        Err(ShapError::InvalidConfiguration(
            "cache capacity must be at least the coalition batch size".to_string()
        ))
    );
    let config = EvaluationConfig { coalition_batch_size: 4, cache_capacity: 4, max_model_rows: Some(0) };
    assert_eq!(
        config.validate(),
        Err(ShapError::InvalidConfiguration(
            "model row evaluation limit must be positive when configured".to_string()
        ))
    );
}

#[test]
fn coalition_cache_evicts_least_recently_used() {
    let mut cache: CoalitionCache<u32> = CoalitionCache::new(2);
    assert_eq!(cache.plan(&[1, 2, 1]), vec![1, 2]);
    cache.insert_batch(vec![(1, 10), (2, 20)]);
    assert_eq!(cache.len(), 2);
    // 2 is looked up and becomes most recent; 3 is new.
    assert_eq!(cache.plan(&[2, 3]), vec![3]);
    cache.insert_batch(vec![(3, 30)]);
    assert!(!cache.contains(1));
    assert_eq!(cache.get(2), Some(&20));
    assert_eq!(cache.get(3), Some(&30));
    assert_eq!(cache.len(), 2);
    assert_eq!(cache.capacity(), 2);
}

#[test]
fn coalition_cache_lookup_refreshes_recency() {
    let mut cache: CoalitionCache<u32> = CoalitionCache::new(2);
    cache.plan(&[1, 2]);
    cache.insert_batch(vec![(1, 10), (2, 20)]);
    // Looking 1 up makes 2 the least recently used entry.
    assert_eq!(cache.plan(&[1]), Vec::<u64>::new());
    assert_eq!(cache.plan(&[4]), vec![4]);
    cache.insert_batch(vec![(4, 40)]);
    assert!(cache.contains(1));
    assert!(!cache.contains(2));
    assert!(cache.contains(4));
}

#[test]
fn row_budget_counts_and_limits_rows() {
    let mut budget = EvaluationBudget::new(Some(5));
    assert!(budget.allow_rows(5).is_ok());
    assert_eq!(budget.record(3, 2), Ok(()));
    assert_eq!(budget.rows_evaluated(), 3);
    assert_eq!(budget.outputs(), Some(2));
    assert_eq!(
        budget.allow_rows(3),
        Err(ShapError::InvalidConfiguration("model row evaluation limit exceeded".to_string()))
    );
    assert!(budget.allow_rows(2).is_ok());
    assert_eq!(
        budget.check_outputs(3),
        Err(ShapError::OutputDimensionMismatch { expected: 2, found: 3 })
    );
    assert!(budget.check_outputs(2).is_ok());
}

#[test]
fn unlimited_budget_only_refuses_overflowing_totals() {
    let mut budget = EvaluationBudget::new(None);
    assert!(budget.allow_rows(usize::MAX).is_ok());
    assert_eq!(budget.record(usize::MAX, 1), Ok(()));
    assert_eq!(
        budget.record(1, 1),
        Err(ShapError::InvalidConfiguration("model row evaluation count overflow".to_string()))
    );
    assert_eq!(budget.rows_evaluated(), usize::MAX);
}

#[test]
fn chunks_cover_items_in_order() {
    assert_eq!(chunk_bounds(5, 2), vec![(0, 2), (2, 4), (4, 5)]);
    assert_eq!(chunk_bounds(4, 2), vec![(0, 2), (2, 4)]);
    assert_eq!(chunk_bounds(0, 3), Vec::<(usize, usize)>::new());
    assert_eq!(chunk_bounds(3, 10), vec![(0, 3)]);
}

#[test]
fn batch_row_totals_are_checked() {
    assert_eq!(add_batch_rows(3, 4), Ok(7));
    assert_eq!(
        add_batch_rows(usize::MAX, 1),
        Err(ShapError::InvalidConfiguration("coalition batch is too large".to_string()))
    );
}

#[test]
fn batches_and_deduplicates_coalitions() {
    let mut cache: CoalitionCache<f64> = CoalitionCache::new(8);
    let missing = cache.plan(&[0, 1, 2, 3, 1]);
    assert_eq!(missing, vec![0, 1, 2, 3]);
    assert_eq!(chunk_bounds(missing.len(), 8), vec![(0, 4)]);
    let mut budget = EvaluationBudget::new(None);
    budget.record(missing.len() * 2, 1).unwrap();
    cache.insert_batch(missing.iter().map(|&m| (m, m as f64)).collect());
    assert_eq!(cache.get(1), Some(&1.0));
    assert_eq!(budget.rows_evaluated(), 8);
}

#[test]
fn bounded_cache_does_not_limit_request_size() {
    let mut cache: CoalitionCache<f64> = CoalitionCache::new(2);
    let missing = cache.plan(&[0, 1, 2, 3]);
    assert_eq!(missing.len(), 4);
    for (start, end) in chunk_bounds(missing.len(), 2) {
        cache.insert_batch(missing[start..end].iter().map(|&m| (m, m as f64)).collect());
    }
    assert_eq!(cache.len(), 2);
}

#[test]
fn cache_uses_deterministic_lru_eviction() {
    let mut cache: CoalitionCache<f64> = CoalitionCache::new(2);
    let missing = cache.plan(&[0, 1]);
    for (start, end) in chunk_bounds(missing.len(), 1) {
        cache.insert_batch(missing[start..end].iter().map(|&m| (m, m as f64)).collect());
    }
    assert!(cache.plan(&[0]).is_empty());
    let missing = cache.plan(&[2]);
    cache.insert_batch(missing.iter().map(|&m| (m, m as f64)).collect());
    assert!(cache.contains(0));
    assert!(cache.contains(2));
    assert!(!cache.contains(1));
}
