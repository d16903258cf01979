use ternary_fitness::TernaryStrategy;

#[test]
fn test_new_valid() {
    let s = TernaryStrategy::new(vec![-1, 0, 1]);
    assert_eq!(s.choices(), &[-1, 0, 1]);
}

#[test]
fn test_len_and_empty() {
    let s = TernaryStrategy::new(vec![-1, 0, 1]);
    assert_eq!(s.len(), 3);
    assert!(!s.is_empty());

    let empty = TernaryStrategy::new(vec![]);
    assert!(empty.is_empty());
}

#[test]
fn test_neighbors_count() {
    let s = TernaryStrategy::new(vec![-1, 0, 1]);
    let neighbors = s.neighbors();
    // 3 positions × 2 alternatives = 6 neighbors
    assert_eq!(neighbors.len(), 6);
}

#[test]
fn test_neighbors_all_different() {
    let s = TernaryStrategy::new(vec![0]);
    let neighbors = s.neighbors();
    assert_eq!(neighbors.len(), 2);
    assert!(neighbors.contains(&TernaryStrategy::new(vec![-1])));
    assert!(neighbors.contains(&TernaryStrategy::new(vec![1])));
}

#[test]
fn test_display() {
    let s = TernaryStrategy::new(vec![-1, 0, 1]);
    assert_eq!(s.to_string(), "[-, 0, +]");
}

#[test]
fn test_active_count() {
    let s = TernaryStrategy::new(vec![-1, 0, 1, 0]);
    assert_eq!(s.active_count(), 2);
}

#[test]
fn test_with_mutation() {
    let s = TernaryStrategy::new(vec![-1, 0, 1]);
    let mutated = s.with_mutation(1, 1).unwrap();
    assert_eq!(mutated.choices(), &[-1, 1, 1]);
}

#[test]
fn test_with_mutation_no_change() {
    let s = TernaryStrategy::new(vec![-1, 0, 1]);
    assert!(s.with_mutation(0, -1).is_none());
}

#[test]
fn with_mutation_out_of_range_is_none() {
    let s = TernaryStrategy::new(vec![-1, 0, 1]);
    assert!(s.with_mutation(3, 0).is_none());
}

#[test]
fn get_in_and_out_of_range() {
    let s = TernaryStrategy::new(vec![-1, 0, 1]);
    assert_eq!(s.get(0), Some(-1));
    assert_eq!(s.get(2), Some(1));
    assert_eq!(s.get(3), None);
}

#[test]
fn neighbors_exact_order() {
    let s = TernaryStrategy::new(vec![0, 1]);
    let got: Vec<Vec<i8>> = s.neighbors().iter().map(|t| t.choices().to_vec()).collect();
    assert_eq!(got, vec![vec![-1, 1], vec![1, 1], vec![0, -1], vec![0, 0]]);
}

#[test]
fn neighbors_of_empty_strategy() {
    let s = TernaryStrategy::new(vec![]);
    assert!(s.neighbors().is_empty());
}

#[test]
fn neighbor_relation_is_symmetric() {
    let s = TernaryStrategy::new(vec![1, -1, 0]);
    for t in s.neighbors() {
        assert!(t.neighbors().contains(&s));
    }
}

#[test]
fn display_of_empty_and_single() {
    assert_eq!(TernaryStrategy::new(vec![]).to_string(), "[]");
    assert_eq!(TernaryStrategy::new(vec![1]).to_string(), "[+]");
    assert_eq!(TernaryStrategy::new(vec![0, 0, -1]).to_string(), "[0, 0, -]");
}

#[test]
fn clone_and_same_choices() {
    let s = TernaryStrategy::new(vec![1, 0, -1]);
    let c = s.clone();
    assert!(s.same_choices(&c));
    assert!(!s.same_choices(&TernaryStrategy::new(vec![1, 0])));
    assert!(!s.same_choices(&TernaryStrategy::new(vec![1, 0, 1])));
}

#[test]
fn active_count_all_zero() {
    assert_eq!(TernaryStrategy::new(vec![0, 0, 0]).active_count(), 0);
    assert_eq!(TernaryStrategy::new(vec![1, -1]).active_count(), 2);
}

#[test]
fn neighbors_are_the_single_mutations() {
    let s = TernaryStrategy::new(vec![1, 0, -1]);
    let mut mutations = Vec::new();
    for position in 0..3 {
        for value in [-1i8, 0, 1] {
            if let Some(t) = s.with_mutation(position, value) {
                mutations.push(t);
            }
        }
    }
    assert_eq!(mutations, s.neighbors());
}
