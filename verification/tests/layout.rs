use pso_rs::{bound_indices, flat_dimension, last_dimension, reshape, swarm_rng, EvaluationBudget};
use rand::RngCore;

#[test]
fn flat_dimension_is_the_product() {
    assert_eq!(flat_dimension(&[20, 3]), Some(60));
    assert_eq!(flat_dimension(&[]), Some(1));
    assert_eq!(flat_dimension(&[4, 0, 5]), Some(0));
    assert_eq!(flat_dimension(&[usize::MAX, 2]), None);
    // A running product that overflows before a zero still overflows.
    assert_eq!(flat_dimension(&[usize::MAX, 2, 0]), None);
}

#[test]
fn bounds_follow_the_last_axis() {
    assert_eq!(last_dimension(&[20, 3]), 3);
    assert_eq!(last_dimension(&[]), 1);
    assert_eq!(bound_indices(7, 3), vec![0, 1, 2, 0, 1, 2, 0]);
    assert_eq!(bound_indices(0, 0), Vec::<usize>::new());
}

#[test]
fn reshape_splits_rows() {
    let particle = vec![1.0, 2.0, 3.0, 4.0, 5.0, 6.0, 7.0];
    let rows = reshape(&particle, &[2, 3]);
    assert_eq!(rows, vec![vec![1.0, 2.0, 3.0], vec![4.0, 5.0, 6.0]]);
}

#[test]
fn budget_stops_after_reaching_t_max() {
    let mut budget = EvaluationBudget::new(10);
    assert!(budget.can_record(4));
    assert!(!budget.record_generation(4, false));
    // A generation served entirely from the cache costs nothing.
    assert!(!budget.record_generation(0, false));
    assert!(!budget.record_generation(4, false));
    assert!(budget.record_generation(4, false));
    assert_eq!(budget.evaluations(), 12);
    let mut once = EvaluationBudget::new(0);
    assert!(once.record_generation(5, false));
    assert_eq!(once.evaluations(), 5);
    let full = EvaluationBudget::new(1);
    assert!(full.can_record(usize::MAX));
}

#[test]
fn termination_test_stops_the_run() {
    let mut budget = EvaluationBudget::new(100);
    assert!(budget.record_generation(3, true));
    assert_eq!(budget.evaluations(), 3);
}

#[test]
fn same_seed_gives_same_generator() {
    let mut a = swarm_rng(Some(42)).unwrap();
    let mut b = swarm_rng(Some(42)).unwrap();
    let mut c = swarm_rng(Some(43)).unwrap();
    let xs: Vec<u64> = (0..4).map(|_| a.next_u64()).collect();
    let ys: Vec<u64> = (0..4).map(|_| b.next_u64()).collect();
    let zs: Vec<u64> = (0..4).map(|_| c.next_u64()).collect();
    assert_eq!(xs, ys);
    assert_ne!(xs, zs);
}

#[test]
fn unseeded_generator_is_not_seed_zero() {
    let mut a = swarm_rng(None).unwrap();
    let mut z = swarm_rng(Some(0)).unwrap();
    let xs: Vec<u64> = (0..4).map(|_| a.next_u64()).collect();
    let zs: Vec<u64> = (0..4).map(|_| z.next_u64()).collect();
    assert_ne!(xs, zs);
}
