use rand::SeedableRng;
use shap_rs::kernel::{coalition_rows, n_choose_k, n_choose_k_checked};
use shap_rs::parallel::parallel_chunks;
use shap_rs::explainers::coalition_sampler::CoalitionSampler;
use shap_rs::explainers::kernel_coalitions::{check_kernel_input, exact_coalitions, kernel_coalitions, plan_kernel_coalitions, CoalitionPlan};
use shap_rs::explainers::KernelSolver;
use shap_rs::ShapError;

#[test]
fn few_features_use_every_proper_coalition() {
    assert_eq!(plan_kernel_coalitions(3, 10, 12), Ok(CoalitionPlan::Exact { count: 6 }));
    assert_eq!(exact_coalitions(6), vec![1, 2, 3, 4, 5, 6]);
    assert_eq!(plan_kernel_coalitions(1, 10, 12), Ok(CoalitionPlan::Exact { count: 0 }));
}

#[test]
fn many_features_are_sampled() {
    assert_eq!(
        plan_kernel_coalitions(14, 100, 12),
        Ok(CoalitionPlan::Sampled { full: 16383, target: 100 })
    );
    assert_eq!(
        plan_kernel_coalitions(3, 10, 2),
        Ok(CoalitionPlan::Sampled { full: 7, target: 6 })
    );
    assert_eq!(
        plan_kernel_coalitions(64, 5, 12),
        Ok(CoalitionPlan::Sampled { full: u64::MAX, target: 5 })
    );
}

#[test]
fn sample_count_must_be_positive() {
    assert_eq!(
        plan_kernel_coalitions(3, 0, 12),
        Err(ShapError::InvalidConfiguration("nsamples must be positive".to_string()))
    );
}

#[test]
fn oversized_coalition_sets_are_refused() {
    assert_eq!(
        plan_kernel_coalitions(64, usize::MAX, 12),
        Err(ShapError::InvalidConfiguration(
            "Kernel SHAP coalition set dimensions overflow the addressable allocation size".to_string()
        ))
    );
}

#[test]
fn sampler_pairs_complements_then_fills_singly() {
    let mut sampler = CoalitionSampler::new(7, 4);
    sampler.offer(1);
    assert_eq!(sampler.coalitions(), vec![1, 6]);
    sampler.offer(6);
    assert_eq!(sampler.len(), 2);
    sampler.offer(2 | 8);
    assert_eq!(sampler.coalitions(), vec![1, 2, 5, 6]);
    assert!(sampler.is_done());
    sampler.offer(3);
    assert_eq!(sampler.len(), 4);

    let mut sampler = CoalitionSampler::new(7, 3);
    sampler.offer(1);
    sampler.offer(7);
    sampler.offer(0);
    assert!(!sampler.is_done());
    sampler.offer(3);
    assert_eq!(sampler.coalitions(), vec![1, 3, 6]);
    assert!(sampler.is_done());
}

#[test]
fn solver_defaults_to_normal_equations() {
    assert_eq!(KernelSolver::default(), KernelSolver::NormalEquations);
}

#[test]
fn binomial_coefficients_and_their_overflow() {
    assert_eq!(n_choose_k(5, 2), 10);
    assert_eq!(n_choose_k(5, 7), 0);
    assert_eq!(n_choose_k(6, 6), 1);
    assert_eq!(n_choose_k_checked(10, 3), Some(120));
    assert_eq!(n_choose_k_checked(3, 4), Some(0));
    assert_eq!(n_choose_k_checked(usize::MAX, 0), Some(1));
    assert_eq!(n_choose_k_checked(usize::MAX, 2), None);
}

#[test]
fn coalition_rows_start_with_the_boundaries_and_mark_drawn_sizes() {
    let mut rng = rand::rngs::StdRng::seed_from_u64(7);
    let (rows, sizes) = coalition_rows(4, 30, &mut rng);
    assert_eq!(rows.len(), 30);
    assert_eq!(sizes.len(), 30);
    assert_eq!(rows[0], vec![false; 4]);
    assert_eq!(rows[1], vec![true; 4]);
    assert_eq!((sizes[0], sizes[1]), (0, 4));
    for (row, &size) in rows.iter().zip(&sizes).skip(2) {
        assert!((1..4).contains(&size));
        assert_eq!(row.iter().filter(|&&on| on).count(), size);
    }
    let identity_prefix = |size: usize| (0..4).map(|j| j < size).collect::<Vec<bool>>();
    assert!(rows.iter().zip(&sizes).skip(2).any(|(row, &size)| *row != identity_prefix(size)));
    let mut rng = rand::rngs::StdRng::seed_from_u64(1);
    let (rows, sizes) = coalition_rows(1, 4, &mut rng);
    assert_eq!(rows[2], vec![true]);
    assert_eq!(sizes[2], 1);
}

#[test]
fn parallel_chunks_cover_the_rows_in_order() {
    assert_eq!(parallel_chunks(5, 2), Ok(vec![(0, 2), (2, 4), (4, 5)]));
    assert_eq!(parallel_chunks(5, 8), Ok(vec![(0, 5)]));
    assert_eq!(parallel_chunks(0, 2), Err(ShapError::EmptyData));
    assert_eq!(
        parallel_chunks(3, 0),
        Err(ShapError::InvalidConfiguration("parallel chunk size must be positive".to_string()))
    );
}

#[test]
fn kernel_input_is_checked_in_order() {
    let config = |m: &str| Err(ShapError::InvalidConfiguration(m.to_string()));
    assert_eq!(check_kernel_input(3, 3, 0, 3, false), Err(ShapError::EmptyData));
    assert_eq!(check_kernel_input(63, 63, 1, 63, true), config("Kernel SHAP currently supports at most 62 features"));
    assert_eq!(check_kernel_input(3, 3, 1, 4, false), config("ridge must be finite and non-negative"));
    assert_eq!(
        check_kernel_input(2, 4, 1, 3, true),
        Err(ShapError::DimensionMismatch { expected: "4 input features".to_string(), found: "3".to_string() })
    );
    assert_eq!(check_kernel_input(2, 4, 5, 4, true), Ok(()));
}

#[test]
fn kernel_coalitions_enumerate_or_sample_from_the_seed() {
    assert_eq!(kernel_coalitions(3, 10, 12, 7), Ok(vec![1, 2, 3, 4, 5, 6]));
    assert_eq!(
        kernel_coalitions(3, 0, 12, 7),
        Err(ShapError::InvalidConfiguration("nsamples must be positive".to_string()))
    );
    let full = (1u64 << 14) - 1;
    let v = kernel_coalitions(14, 100, 12, 7).unwrap();
    assert_eq!(v.len(), 100);
    assert!(v.windows(2).all(|w| w[0] < w[1]));
    assert!(v.iter().all(|&z| z > 0 && z < full));
    assert!(v.iter().filter(|&&z| v.binary_search(&(full ^ z)).is_err()).count() <= 1);
    assert_eq!(kernel_coalitions(14, 100, 12, 7).unwrap(), v);
    assert_eq!(kernel_coalitions(4, 100, 2, 3).unwrap(), (1..15).collect::<Vec<u64>>());
    assert_eq!(kernel_coalitions(14, 7, 12, 1).unwrap().len(), 7);
}
