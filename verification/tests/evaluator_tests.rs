use ternary_fitness::{ExhaustiveSearch, FitnessEvaluator, FitnessTable, TernaryStrategy};

/// Fitness keys of all strategies for reward rows `[r(-1), r(0), r(+1)]`, and the
/// fitness value each key stands for.
fn table_from_rows(rows: &[[f64; 3]]) -> (FitnessTable, Vec<f64>) {
    let n = rows.len();
    let fitness: Vec<f64> = ExhaustiveSearch::enumerate(n)
        .iter()
        .map(|s| {
            s.choices()
                .iter()
                .enumerate()
                .map(|(state, &a)| rows[state][(a + 1) as usize])
                .sum()
        })
        .collect();
    let mut values = fitness.clone();
    values.sort_by(|a, b| a.partial_cmp(b).unwrap());
    values.dedup();
    let keys: Vec<u64> = fitness
        .iter()
        .map(|f| values.binary_search_by(|v| v.partial_cmp(f).unwrap()).unwrap() as u64)
        .collect();
    (FitnessTable::new(n, keys).unwrap(), values)
}

fn simple_env() -> (FitnessTable, Vec<f64>) {
    table_from_rows(&[
        [1.0, 0.5, 2.0], // state 0: +1 is best
        [3.0, 1.0, 0.0], // state 1: -1 is best
        [0.0, 4.0, 1.0], // state 2: 0 is best
    ])
}

#[test]
fn test_optimal_strategy() {
    let (table, values) = simple_env();
    let strategy = TernaryStrategy::new(vec![1, -1, 0]);
    assert_eq!(values[FitnessEvaluator::evaluate(&strategy, &table) as usize], 9.0);
}

#[test]
fn test_worst_strategy() {
    let (table, values) = simple_env();
    let strategy = TernaryStrategy::new(vec![-1, 1, 1]);
    assert_eq!(values[FitnessEvaluator::evaluate(&strategy, &table) as usize], 2.0);
}

#[test]
fn test_all_zero_strategy() {
    let (table, values) = simple_env();
    let strategy = TernaryStrategy::new(vec![0, 0, 0]);
    assert_eq!(values[FitnessEvaluator::evaluate(&strategy, &table) as usize], 5.5);
}

#[test]
fn test_evaluate_all() {
    let (table, values) = simple_env();
    let strategies = vec![
        TernaryStrategy::new(vec![1, -1, 0]),
        TernaryStrategy::new(vec![-1, 1, 1]),
    ];
    let fitnesses: Vec<f64> = FitnessEvaluator::evaluate_all(&strategies, &table)
        .iter()
        .map(|k| values[*k as usize])
        .collect();
    assert_eq!(fitnesses, vec![9.0, 2.0]);
}

#[test]
fn evaluate_reads_the_key_of_the_strategy_number() {
    // Strategy [0, 1] has number (0+1) + 3*(1+1) = 7.
    let keys: Vec<u64> = (0..9).map(|i| 100 + i).collect();
    let table = FitnessTable::new(2, keys).unwrap();
    assert_eq!(FitnessEvaluator::evaluate(&TernaryStrategy::new(vec![0, 1]), &table), 107);
    assert_eq!(table.key_of(&TernaryStrategy::new(vec![0])), None);
}
