use shap_rs::prediction_cache::{assemble_predictions, PredictionCache};
use shap_rs::ShapError;

#[test]
fn cache_capacity_must_be_positive() {
    assert_eq!(
        PredictionCache::<u32>::new(0).err(),
        Some(ShapError::InvalidConfiguration("prediction cache capacity must be positive".to_string()))
    );
}

#[test]
fn plans_distinct_misses_and_reuses_hits() {
    let mut cache: PredictionCache<&str> = PredictionCache::new(2).unwrap();
    let (sources, missing) = cache.plan(&vec![vec![1], vec![2], vec![1]]);
    assert_eq!(sources, vec![Some(0), Some(1), Some(0)]);
    assert_eq!(missing, vec![vec![1], vec![2]]);
    cache.insert_all(missing, vec!["one", "two"]);
    assert_eq!(cache.len(), 2);
    let (sources, missing) = cache.plan(&vec![vec![2], vec![3]]);
    assert_eq!(sources, vec![None, Some(0)]);
    assert_eq!(missing, vec![vec![3]]);
    assert_eq!(cache.get(&vec![2]), Some(&"two"));
    cache.insert_all(missing, vec!["three"]);
    assert_eq!(cache.get(&vec![1]), None);
    assert_eq!(cache.get(&vec![3]), Some(&"three"));
    assert_eq!(cache.len(), 2);
}

#[test]
fn batches_larger_than_the_cache_keep_the_newest_rows() {
    let mut cache: PredictionCache<u32> = PredictionCache::new(2).unwrap();
    cache.insert_all(vec![vec![1], vec![2], vec![3]], vec![10, 20, 30]);
    assert_eq!(cache.len(), 2);
    assert_eq!(cache.get(&vec![1]), None);
    assert_eq!(cache.get(&vec![2]), Some(&20));
    assert_eq!(cache.get(&vec![3]), Some(&30));
}

#[test]
fn reinserting_a_row_replaces_its_prediction() {
    let mut cache: PredictionCache<u32> = PredictionCache::new(3).unwrap();
    cache.insert_all(vec![vec![1, 2], vec![3, 4]], vec![10, 20]);
    cache.insert_all(vec![vec![1, 2]], vec![11]);
    assert_eq!(cache.len(), 2);
    assert_eq!(cache.get(&vec![1, 2]), Some(&11));
    assert_eq!(cache.get(&vec![1]), None);
}

#[test]
fn output_width_is_remembered_and_cleared() {
    let mut cache: PredictionCache<u32> = PredictionCache::new(1).unwrap();
    assert_eq!(cache.outputs(), None);
    assert_eq!(cache.record_outputs(2), Ok(()));
    assert_eq!(
        cache.record_outputs(3),
        Err(ShapError::OutputDimensionMismatch { expected: 2, found: 3 })
    );
    assert_eq!(cache.outputs(), Some(2));
    cache.insert_all(vec![vec![9]], vec![90]);
    cache.clear();
    assert_eq!(cache.len(), 0);
    assert_eq!(cache.outputs(), None);
    assert_eq!(cache.capacity(), 1);
}

fn row_key(row: &[f64]) -> Vec<u64> {
    row.iter().map(|v| v.to_bits()).collect()
}

#[test]
fn cached_model_rejects_zero_capacity() {
    assert!(PredictionCache::<Vec<f64>>::new(0).is_err());
}

#[test]
fn cached_model_reuses_rows_across_batches_and_deduplicates_misses() {
    let mut cache: PredictionCache<Vec<f64>> = PredictionCache::new(4).unwrap();
    let predict = |row: &Vec<u64>| vec![row.iter().map(|&b| f64::from_bits(b)).sum::<f64>()];
    let batch = vec![row_key(&[1., 2.]), row_key(&[3., 4.]), row_key(&[1., 2.])];
    let (sources, missing) = cache.plan(&batch);
    assert_eq!(sources, vec![Some(0), Some(1), Some(0)]);
    assert_eq!(missing.len(), 2);
    let fresh: Vec<Vec<f64>> = missing.iter().map(predict).collect();
    let first: Vec<Vec<f64>> = sources.iter().map(|s| fresh[s.unwrap()].clone()).collect();
    assert_eq!(first, vec![vec![3.], vec![7.], vec![3.]]);
    cache.insert_all(missing, fresh);
    let batch = vec![row_key(&[3., 4.]), row_key(&[5., 6.])];
    let (sources, missing) = cache.plan(&batch);
    assert_eq!(sources, vec![None, Some(0)]);
    assert_eq!(missing.len(), 1);
    assert_eq!(cache.get(&batch[0]), Some(&vec![7.]));
    let fresh: Vec<Vec<f64>> = missing.iter().map(predict).collect();
    assert_eq!(fresh, vec![vec![11.]]);
    cache.insert_all(missing, fresh);
    assert_eq!(cache.len(), 3);
}

#[test]
fn cached_model_has_bounded_lru_eviction_and_can_be_cleared() {
    let mut cache: PredictionCache<Vec<f64>> = PredictionCache::new(2).unwrap();
    let mut rows = 0;
    let batch = vec![row_key(&[1.]), row_key(&[2.]), row_key(&[3.])];
    let (_, missing) = cache.plan(&batch);
    rows += missing.len();
    let values = missing.iter().map(|k| vec![f64::from_bits(k[0])]).collect();
    cache.insert_all(missing, values);
    assert_eq!(cache.len(), 2);
    let (_, missing) = cache.plan(&vec![row_key(&[1.])]);
    rows += missing.len();
    assert_eq!(rows, 4);
    cache.clear();
    assert_eq!(cache.len(), 0);
}

#[test]
fn served_predictions_are_the_models_own() {
    fn model(row: &[u64]) -> u64 {
        row.iter().sum::<u64>() * 7
    }
    let mut cache: PredictionCache<u64> = PredictionCache::new(3).unwrap();
    let batches = vec![
        vec![vec![1, 2], vec![3, 4], vec![1, 2]],
        vec![vec![3, 4], vec![5, 6], vec![7, 8], vec![9, 0]],
        vec![vec![9, 0], vec![1, 2], vec![9, 0]],
    ];
    for rows in batches {
        let (sources, missing) = cache.plan(&rows);
        let cached: Vec<Option<u64>> = rows
            .iter()
            .zip(&sources)
            .map(|(row, source)| match source {
                None => cache.get(row).copied(),
                Some(_) => None,
            })
            .collect();
        let predicted: Vec<u64> = missing.iter().map(|row| model(row)).collect();
        for (i, row) in rows.iter().enumerate() {
            let served = match sources[i] {
                None => cached[i].unwrap(),
                Some(j) => predicted[j],
            };
            assert_eq!(served, model(row));
        }
        cache.insert_all(missing, predicted);
        assert!(cache.len() <= 3);
    }
}

#[test]
fn assembles_hits_and_fresh_predictions_row_by_row() {
    let sources = vec![None, Some(1), Some(0), Some(1), None];
    let cached = vec![Some(vec![1.5]), None, None, None, None];
    let predicted = vec![vec![2.5], vec![3.5]];
    assert_eq!(
        assemble_predictions(cached, &sources, &predicted),
        vec![Some(vec![1.5]), Some(vec![3.5]), Some(vec![2.5]), Some(vec![3.5]), None]
    );
}

#[test]
fn batches_are_served_the_models_predictions_through_the_library() {
    fn model(row: &[u64]) -> u64 {
        row.iter().sum::<u64>() * 3 + 1
    }
    let mut cache: PredictionCache<u64> = PredictionCache::new(2).unwrap();
    for rows in [
        vec![vec![1], vec![2], vec![1]],
        vec![vec![2], vec![3], vec![4], vec![2]],
        vec![vec![4], vec![1], vec![4]],
    ] {
        let (sources, missing) = cache.plan(&rows);
        let hits = cache.lookup_hits(&rows, &sources);
        for (hit, source) in hits.iter().zip(&sources) {
            assert_eq!(hit.is_some(), source.is_none());
        }
        let predicted: Vec<u64> = missing.iter().map(|row| model(row)).collect();
        cache.insert_all(missing, predicted.clone());
        let served = assemble_predictions(hits, &sources, &predicted);
        let expected: Vec<Option<u64>> = rows.iter().map(|row| Some(model(row))).collect();
        assert_eq!(served, expected);
    }
}
