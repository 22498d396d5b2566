use shap_rs::coalition::{all, binomial, members, sample_seed};
use shap_rs::kernel::n_choose_k;

#[test]
fn enumerates_every_coalition_mask() {
    assert_eq!(all(3), 0..8);
    assert_eq!(all(0), 0..1);
    assert_eq!(all(62), 0..(1u64 << 62));
    assert_eq!(all(63), 0..0);
}

#[test]
fn decodes_coalition_members() {
    assert_eq!(members(5, 4), vec![true, false, true, false]);
    assert_eq!(members(0, 2), vec![false, false]);
    assert_eq!(members(u64::MAX, 3), vec![true, true, true]);
}

#[test]
fn binomial_coefficients_are_exact() {
    assert_eq!(binomial(5, 2), 10);
    assert_eq!(binomial(10, 3), 120);
    assert_eq!(binomial(10, 7), 120);
    assert_eq!(binomial(3, 5), 0);
    assert_eq!(binomial(4, 0), 1);
    assert_eq!(binomial(64, 32), 1832624140942590534);
}

#[test]
fn n_choose_k_matches_binomial() {
    assert_eq!(n_choose_k(10, 3), 120);
    assert_eq!(n_choose_k(6, 6), 1);
    assert_eq!(n_choose_k(2, 3), 0);
    assert_eq!(n_choose_k(20, 10), 184756);
}

#[test]
fn sample_seeds_mix_the_value_bits() {
    let bits = [1.0f64.to_bits(), 2.0f64.to_bits()];
    assert_eq!(sample_seed(42, &[]), 12058926934050108962);
    assert_eq!(sample_seed(42, &bits), 13239884273596926910);
    assert_eq!(sample_seed(0, &[]), 0);
    assert_eq!(sample_seed(42, &bits), sample_seed(42, &bits));
}
