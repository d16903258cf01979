use ternary_fitness::{Entropy, ExhaustiveSearch, FitnessTable, Objective, ParetoFront};

/// Keys ranking `values` (equal values get equal keys), and the distinct values by key.
fn rank(values: &[f64]) -> (Vec<u64>, Vec<f64>) {
    let mut distinct = values.to_vec();
    distinct.sort_by(|a, b| a.partial_cmp(b).unwrap());
    distinct.dedup();
    let keys = values
        .iter()
        .map(|f| distinct.binary_search_by(|v| v.partial_cmp(f).unwrap()).unwrap() as u64)
        .collect();
    (keys, distinct)
}

/// Reward and entropy tables of all strategies for reward rows, with the values behind the keys.
fn tables(rows: &[[f64; 3]]) -> (FitnessTable, Vec<f64>, FitnessTable, Vec<f64>) {
    let n = rows.len();
    let strategies = ExhaustiveSearch::enumerate(n);
    let rewards: Vec<f64> = strategies
        .iter()
        .map(|s| {
            s.choices()
                .iter()
                .enumerate()
                .map(|(state, &a)| rows[state][(a + 1) as usize])
                .sum()
        })
        .collect();
    let entropies: Vec<f64> = strategies
        .iter()
        .map(|s| {
            let len = s.len() as f64;
            if len == 0.0 {
                return 0.0;
            }
            let (neg, zero, pos) = Entropy::choice_counts(s);
            let h = |p: f64| if p > 0.0 { -p * p.log2() } else { 0.0 };
            h(neg as f64 / len) + h(zero as f64 / len) + h(pos as f64 / len)
        })
        .collect();
    let (rk, rv) = rank(&rewards);
    let (dk, dv) = rank(&entropies);
    (FitnessTable::new(n, rk).unwrap(), rv, FitnessTable::new(n, dk).unwrap(), dv)
}

fn test_env() -> [[f64; 3]; 2] {
    [[1.0, 0.5, 2.0], [3.0, 1.0, 0.0]]
}

#[test]
fn test_pareto_front_reward_only() {
    let (r, _, d, _) = tables(&test_env());
    let front = ParetoFront::compute(&r, &d, &[Objective::Reward]);
    assert_eq!(front.len(), 1);
    // [1,-1] = env.reward(0,1) + env.reward(1,-1) = 2.0 + 3.0 = 5.0
}

#[test]
fn test_pareto_front_reward_and_diversity() {
    let (r, rv, d, _) = tables(&test_env());
    let front = ParetoFront::compute(&r, &d, &[Objective::Reward, Objective::Diversity]);
    // Should have multiple solutions trading off reward vs diversity
    assert!(front.len() >= 1);
    // The max-reward solution should be on the front
    // Best reward: [1,-1] = 2+3 = 5
    assert!(front.iter().any(|s| rv[s.reward as usize] == 5.0));
}

#[test]
fn test_pareto_front_all_objectives() {
    let (r, _, d, _) = tables(&test_env());
    let front = ParetoFront::compute(
        &r,
        &d,
        &[Objective::Reward, Objective::Diversity, Objective::Speed],
    );
    assert!(front.len() >= 1);
}

#[test]
fn test_no_dominated_solutions() {
    let (r, _, d, _) = tables(&test_env());
    let front = ParetoFront::compute(&r, &d, &[Objective::Reward, Objective::Diversity]);
    for i in 0..front.len() {
        for j in 0..front.len() {
            if i != j {
                // No solution on the front should dominate another on the front
                let objectives = [Objective::Reward, Objective::Diversity];
                // They can only dominate in one direction, not both
                let fwd = ParetoFront::dominates(&front[i], &front[j], &objectives);
                let bwd = ParetoFront::dominates(&front[j], &front[i], &objectives);
                assert!(!(fwd && bwd), "Mutual domination detected");
            }
        }
    }
}

#[test]
fn reward_only_front_is_best_strategy() {
    let (r, rv, d, _) = tables(&test_env());
    let front = ParetoFront::compute(&r, &d, &[Objective::Reward]);
    assert_eq!(front[0].strategy.choices(), &[1, -1]);
    assert_eq!(rv[front[0].reward as usize], 5.0);
    assert_eq!(front[0].speed, 0);
}

#[test]
fn speed_only_front_is_all_zero_strategy() {
    let (r, _, d, _) = tables(&test_env());
    let front = ParetoFront::compute(&r, &d, &[Objective::Speed]);
    assert_eq!(front.len(), 1);
    assert_eq!(front[0].strategy.choices(), &[0, 0]);
    assert_eq!(front[0].speed, 2);
}

#[test]
fn no_objectives_keeps_everything() {
    let (r, _, d, _) = tables(&test_env());
    assert_eq!(ParetoFront::compute(&r, &d, &[]).len(), 9);
}

#[test]
fn front_members_are_not_bettered_in_all_objectives() {
    let (r, _, d, _) = tables(&test_env());
    let objectives = [Objective::Reward, Objective::Diversity, Objective::Speed];
    let front = ParetoFront::compute(&r, &d, &objectives);
    let everything = ParetoFront::compute(&r, &d, &[]);
    for f in &front {
        for o in &everything {
            let better = o.reward > f.reward && o.diversity > f.diversity && o.speed > f.speed;
            assert!(!better);
        }
    }
}

#[test]
fn reward_and_diversity_front_keeps_trade_offs() {
    // Strategies with two different choices all have entropy 1 bit; the all-equal ones
    // have entropy 0 and [1,-1] beats each of them on both objectives.
    let (r, _, d, _) = tables(&test_env());
    let front = ParetoFront::compute(&r, &d, &[Objective::Reward, Objective::Diversity]);
    let got: Vec<Vec<i8>> = front.iter().map(|s| s.strategy.choices().to_vec()).collect();
    assert_eq!(
        got,
        vec![vec![0, -1], vec![1, -1], vec![-1, 0], vec![1, 0], vec![-1, 1], vec![0, 1]]
    );
}
