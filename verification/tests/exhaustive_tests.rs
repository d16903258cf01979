use std::collections::HashSet;
use ternary_fitness::{ExhaustiveSearch, FitnessTable, TernaryStrategy};

/// Fitness keys of all strategies for reward rows `[r(-1), r(0), r(+1)]`, and the
/// fitness value each key stands for.
fn table_from_rows(rows: &[[f64; 3]]) -> (FitnessTable, Vec<f64>) {
    let n = rows.len();
    let fitness: Vec<f64> = ExhaustiveSearch::enumerate(n)
        .iter()
        .map(|s| {
            s.choices()
                .iter()
                .enumerate()
                .map(|(state, &a)| rows[state][(a + 1) as usize])
                .sum()
        })
        .collect();
    let mut values = fitness.clone();
    values.sort_by(|a, b| a.partial_cmp(b).unwrap());
    values.dedup();
    let keys: Vec<u64> = fitness
        .iter()
        .map(|f| values.binary_search_by(|v| v.partial_cmp(f).unwrap()).unwrap() as u64)
        .collect();
    (FitnessTable::new(n, keys).unwrap(), values)
}

#[test]
fn test_enumerate_n1() {
    let strategies = ExhaustiveSearch::enumerate(1);
    assert_eq!(strategies.len(), 3);
    assert!(strategies.contains(&TernaryStrategy::new(vec![-1])));
    assert!(strategies.contains(&TernaryStrategy::new(vec![0])));
    assert!(strategies.contains(&TernaryStrategy::new(vec![1])));
}

#[test]
fn test_enumerate_n2() {
    let strategies = ExhaustiveSearch::enumerate(2);
    assert_eq!(strategies.len(), 9);
}

#[test]
fn test_enumerate_n3() {
    let strategies = ExhaustiveSearch::enumerate(3);
    assert_eq!(strategies.len(), 27);
    // Check uniqueness
    let set: HashSet<_> = strategies.iter().collect();
    assert_eq!(set.len(), 27);
}

#[test]
fn test_enumerate_n4_81_strategies() {
    let strategies = ExhaustiveSearch::enumerate(4);
    assert_eq!(strategies.len(), 81);
    // Verify uniqueness
    let set: HashSet<_> = strategies.iter().collect();
    assert_eq!(set.len(), 81);
    // All should be valid length-4 strategies
    for s in &strategies {
        assert_eq!(s.len(), 4);
    }
}

#[test]
fn test_count() {
    assert_eq!(ExhaustiveSearch::count(4), 81);
    assert_eq!(ExhaustiveSearch::count(1), 3);
    assert_eq!(ExhaustiveSearch::count(0), 1);
}

#[test]
fn test_ranked_ordering() {
    let (table, values) = table_from_rows(&[[1.0, 0.5, 2.0], [3.0, 1.0, 0.0]]);
    let ranked = ExhaustiveSearch::ranked(&table);
    assert_eq!(ranked.len(), 9);
    // Verify descending order
    for window in ranked.windows(2) {
        assert!(values[window[0].1 as usize] >= values[window[1].1 as usize]);
    }
}

#[test]
fn test_optimum() {
    let (table, values) = table_from_rows(&[[1.0, 0.5, 2.0], [3.0, 1.0, 0.0], [0.0, 4.0, 1.0]]);
    let (strategy, fitness) = ExhaustiveSearch::optimum(&table);
    assert_eq!(strategy.choices(), &[1, -1, 0]);
    assert_eq!(values[fitness as usize], 9.0);
}

#[test]
fn enumerate_numbering_is_base_three() {
    let strategies = ExhaustiveSearch::enumerate(2);
    let got: Vec<Vec<i8>> = strategies.iter().map(|s| s.choices().to_vec()).collect();
    assert_eq!(
        got,
        vec![
            vec![-1, -1],
            vec![0, -1],
            vec![1, -1],
            vec![-1, 0],
            vec![0, 0],
            vec![1, 0],
            vec![-1, 1],
            vec![0, 1],
            vec![1, 1],
        ]
    );
}

#[test]
fn enumerate_n0_is_single_empty_strategy() {
    let strategies = ExhaustiveSearch::enumerate(0);
    assert_eq!(strategies.len(), 1);
    assert!(strategies[0].is_empty());
}

#[test]
fn ranked_is_stable_for_ties() {
    // All strategies equally fit: ranking keeps enumeration order.
    let table = FitnessTable::new(2, vec![5; 9]).unwrap();
    let ranked = ExhaustiveSearch::ranked(&table);
    let enumerated = ExhaustiveSearch::enumerate(2);
    for (r, e) in ranked.iter().zip(enumerated.iter()) {
        assert_eq!(&r.0, e);
    }
}

#[test]
fn ranked_exact_order() {
    let table = FitnessTable::new(1, vec![2, 7, 2]).unwrap();
    let ranked = ExhaustiveSearch::ranked(&table);
    let got: Vec<(Vec<i8>, u64)> = ranked.iter().map(|(s, k)| (s.choices().to_vec(), *k)).collect();
    assert_eq!(got, vec![(vec![0], 7), (vec![-1], 2), (vec![1], 2)]);
}

#[test]
fn optimum_prefers_first_enumerated_on_tie() {
    let table = FitnessTable::new(1, vec![7, 3, 7]).unwrap();
    let (strategy, fitness) = ExhaustiveSearch::optimum(&table);
    assert_eq!(strategy.choices(), &[-1]);
    assert_eq!(fitness, 7);
}

#[test]
fn table_rejects_wrong_length() {
    assert!(FitnessTable::new(2, vec![0; 8]).is_none());
    assert!(FitnessTable::new(0, vec![]).is_none());
    assert!(FitnessTable::new(0, vec![4]).is_some());
}
