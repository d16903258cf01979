use ternary_fitness::{ExhaustiveSearch, FitnessLandscape, FitnessTable, TernaryStrategy};

/// Fitness keys of all strategies for reward rows `[r(-1), r(0), r(+1)]`, and the
/// fitness value each key stands for.
fn table_from_rows(rows: &[[f64; 3]]) -> (FitnessTable, Vec<f64>) {
    let n = rows.len();
    let fitness: Vec<f64> = ExhaustiveSearch::enumerate(n)
        .iter()
        .map(|s| {
            s.choices()
                .iter()
                .enumerate()
                .map(|(state, &a)| rows[state][(a + 1) as usize])
                .sum()
        })
        .collect();
    let mut values = fitness.clone();
    values.sort_by(|a, b| a.partial_cmp(b).unwrap());
    values.dedup();
    let keys: Vec<u64> = fitness
        .iter()
        .map(|f| values.binary_search_by(|v| v.partial_cmp(f).unwrap()).unwrap() as u64)
        .collect();
    (FitnessTable::new(n, keys).unwrap(), values)
}

fn test_env() -> (FitnessTable, Vec<f64>) {
    table_from_rows(&[[1.0, 0.5, 2.0], [3.0, 1.0, 0.0], [0.0, 4.0, 1.0]])
}

#[test]
fn test_landscape_size() {
    let (table, _) = test_env();
    let landscape = FitnessLandscape::build(&table);
    assert_eq!(landscape.size(), 27);
}

#[test]
fn test_global_peak() {
    let (table, values) = test_env();
    let landscape = FitnessLandscape::build(&table);
    let peak = landscape.global_peak().unwrap();
    assert_eq!(peak.strategy.choices(), &[1, -1, 0]);
    assert_eq!(values[peak.fitness as usize], 9.0);
}

#[test]
fn test_fitness_range() {
    let (table, values) = test_env();
    let landscape = FitnessLandscape::build(&table);
    let (min, max) = landscape.fitness_range().unwrap();
    assert_eq!(values[max as usize], 9.0);
    assert!(values[min as usize] < values[max as usize]);
}

#[test]
fn test_fitness_lookup() {
    let (table, values) = test_env();
    let landscape = FitnessLandscape::build(&table);
    let s = TernaryStrategy::new(vec![1, -1, 0]);
    assert_eq!(landscape.fitness_of(&s).map(|k| values[k as usize]), Some(9.0));
}

#[test]
fn test_peaks_exist() {
    let (table, _) = test_env();
    let landscape = FitnessLandscape::build(&table);
    assert!(!landscape.peaks().is_empty());
    // All peaks should have fitness >= their neighbors
    for peak in landscape.peaks() {
        let neighbors = peak.strategy.neighbors();
        for n in neighbors {
            let n_fit = landscape.fitness_of(&n).unwrap();
            assert!(peak.fitness >= n_fit);
        }
    }
}

#[test]
fn test_basin_of_global_peak() {
    let (table, _) = test_env();
    let landscape = FitnessLandscape::build(&table);
    let global = landscape.global_peak().unwrap();
    let basin = landscape.basin_of(&global.strategy);
    assert!(!basin.is_empty());
    // Global peak should be in its own basin
    assert!(basin.iter().any(|s| s == &global.strategy));
}

#[test]
fn test_n4_landscape_81_strategies() {
    let (table, _) = table_from_rows(&[
        [1.0, 2.0, 3.0],
        [3.0, 1.0, 0.5],
        [0.5, 2.5, 1.0],
        [2.0, 1.0, 3.0],
    ]);
    let landscape = FitnessLandscape::build(&table);
    assert_eq!(landscape.size(), 81);
    let peak = landscape.global_peak().unwrap();
    // Best = [1,-1,0,1] = 3+3+2.5+3 = 11.5
    assert_eq!(peak.strategy.choices(), &[1, -1, 0, 1]);
}

#[test]
fn separable_landscape_has_single_peak_whose_basin_is_everything() {
    // Each state has a unique best action and no ties: the global optimum is the only peak,
    // and steepest ascent reaches it from everywhere.
    let (table, _) = test_env();
    let landscape = FitnessLandscape::build(&table);
    assert_eq!(landscape.peaks().len(), 1);
    let global = landscape.global_peak().unwrap();
    let basin = landscape.basin_of(&global.strategy);
    assert_eq!(basin.len(), 27);
    assert_eq!(basin[0], global.strategy);
    assert!(landscape.saddle_points().is_empty());
}

#[test]
fn two_peaks_and_a_saddle() {
    // n = 1: strategies -1, 0, +1 with keys 5, 1, 5: both ends are peaks, the middle is a saddle.
    let table = FitnessTable::new(1, vec![5, 1, 5]).unwrap();
    let landscape = FitnessLandscape::build(&table);
    let peaks: Vec<Vec<i8>> = landscape.peaks().iter().map(|p| p.strategy.choices().to_vec()).collect();
    assert_eq!(peaks, vec![vec![-1], vec![1]]);
    // The global peak is the last-enumerated of the fittest.
    assert_eq!(landscape.global_peak().unwrap().strategy.choices(), &[1]);
    // Each peak sees only one peak at least as fit (the other); the middle sees both.
    let saddles = landscape.saddle_points();
    let at: Vec<Vec<i8>> = saddles.iter().map(|s| s.strategy.choices().to_vec()).collect();
    assert_eq!(at, vec![vec![0]]);
    let middle = &saddles[0];
    assert_eq!(middle.fitness, 1);
    let adjacent: Vec<Vec<i8>> = middle.adjacent_peaks.iter().map(|t| t.choices().to_vec()).collect();
    assert_eq!(adjacent, vec![vec![-1], vec![1]]);
    // From 0, steepest ascent picks the last of the equally fit neighbors, +1.
    let basin_plus: Vec<Vec<i8>> = landscape
        .basin_of(&TernaryStrategy::new(vec![1]))
        .iter()
        .map(|t| t.choices().to_vec())
        .collect();
    assert_eq!(basin_plus, vec![vec![1], vec![0]]);
    assert_eq!(landscape.basin_of(&TernaryStrategy::new(vec![-1])).len(), 1);
}

#[test]
fn fitness_of_wrong_length_is_none() {
    let (table, _) = test_env();
    let landscape = FitnessLandscape::build(&table);
    assert_eq!(landscape.fitness_of(&TernaryStrategy::new(vec![1, 1])), None);
}

#[test]
fn points_follow_enumeration() {
    let table = FitnessTable::new(1, vec![3, 9, 4]).unwrap();
    let landscape = FitnessLandscape::build(&table);
    let pts: Vec<(Vec<i8>, u64)> = landscape
        .points()
        .iter()
        .map(|p| (p.strategy.choices().to_vec(), p.fitness))
        .collect();
    assert_eq!(pts, vec![(vec![-1], 3), (vec![0], 9), (vec![1], 4)]);
    assert_eq!(landscape.fitness_range(), Some((3, 9)));
}

#[test]
fn empty_strategy_landscape() {
    let table = FitnessTable::new(0, vec![2]).unwrap();
    let landscape = FitnessLandscape::build(&table);
    assert_eq!(landscape.size(), 1);
    assert_eq!(landscape.peaks().len(), 1);
    assert!(landscape.global_peak().unwrap().strategy.is_empty());
}

#[test]
fn basins_of_peaks_partition_the_landscape() {
    let (table, _) = table_from_rows(&[[1.0, 2.0, 1.0], [2.0, 1.0, 2.0]]);
    let landscape = FitnessLandscape::build(&table);
    let mut seen: Vec<Vec<i8>> = Vec::new();
    for peak in landscape.peaks() {
        for s in landscape.basin_of(&peak.strategy) {
            let c = s.choices().to_vec();
            assert!(!seen.contains(&c));
            seen.push(c);
        }
    }
    assert_eq!(seen.len(), landscape.size());
}

#[test]
fn adjacent_peaks_are_the_neighbors_that_are_peaks() {
    let (table, _) = table_from_rows(&[[1.0, 2.0, 1.0], [2.0, 1.0, 2.0]]);
    let landscape = FitnessLandscape::build(&table);
    let peaks: Vec<TernaryStrategy> = landscape.peaks().iter().map(|p| p.strategy.clone()).collect();
    for s in landscape.saddle_points() {
        let expected: Vec<TernaryStrategy> =
            s.strategy.neighbors().into_iter().filter(|t| peaks.contains(t)).collect();
        assert_eq!(s.adjacent_peaks, expected);
    }
    assert!(!landscape.saddle_points().is_empty());
}
