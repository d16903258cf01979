use ternary_fitness::{Entropy, TernaryStrategy};

/// The average pairwise distance from the totals the library counts.
fn diversity(totals: (u64, u64)) -> f64 {
    if totals.1 == 0 {
        0.0
    } else {
        totals.0 as f64 / totals.1 as f64
    }
}

#[test]
fn test_hamming_distance_same() {
    let a = TernaryStrategy::new(vec![-1, 0, 1]);
    assert_eq!(Entropy::hamming_distance(&a, &a) as f64, 0.0);
}

#[test]
fn test_hamming_distance_different() {
    let a = TernaryStrategy::new(vec![-1, 0, 1]);
    let b = TernaryStrategy::new(vec![1, 0, -1]);
    assert_eq!(Entropy::hamming_distance(&a, &b) as f64, 2.0);
}

#[test]
fn test_population_diversity_empty() {
    assert_eq!(diversity(Entropy::population_diversity(&[])), 0.0);
}

#[test]
fn test_population_diversity_single() {
    let s = TernaryStrategy::new(vec![0]);
    assert_eq!(diversity(Entropy::population_diversity(&[s])), 0.0);
}

#[test]
fn hamming_distance_uses_shorter_length() {
    let a = TernaryStrategy::new(vec![-1, 0, 1, 1]);
    let b = TernaryStrategy::new(vec![1, 0]);
    assert_eq!(Entropy::hamming_distance(&a, &b), 1);
    assert_eq!(Entropy::hamming_distance(&b, &a), 1);
}

#[test]
fn population_diversity_three_strategies() {
    let pop = vec![
        TernaryStrategy::new(vec![-1, 0, 1]),
        TernaryStrategy::new(vec![1, 0, -1]),
        TernaryStrategy::new(vec![-1, 0, -1]),
    ];
    // distances: (0,1)=2, (0,2)=1, (1,2)=1
    assert_eq!(Entropy::population_diversity(&pop), (4, 3));
    assert!((diversity(Entropy::population_diversity(&pop)) - 4.0 / 3.0).abs() < 1e-12);
}

#[test]
fn choice_counts_of_strategy() {
    let s = TernaryStrategy::new(vec![-1, 0, 0, 0, 1, 1]);
    assert_eq!(Entropy::choice_counts(&s), (1, 3, 2));
    assert_eq!(Entropy::choice_counts(&TernaryStrategy::new(vec![])), (0, 0, 0));
}
