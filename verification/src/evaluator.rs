//! Fitness evaluation of ternary strategies against a fitness table.
use vstd::prelude::*;
use crate::encoding::encode;
use crate::strategy::TernaryStrategy;
use crate::table::FitnessTable;

verus! {

/// Evaluates the fitness of ternary strategies, as order keys of a [`FitnessTable`].
pub struct FitnessEvaluator;

impl FitnessEvaluator {
    /// The fitness key of a strategy whose length is the table's number of states.
    pub fn evaluate(strategy: &TernaryStrategy, table: &FitnessTable) -> (k: u64)
        requires
            strategy@.len() == table.dim(),
        ensures
            encode(strategy@) < table.key_seq().len(),
            k == table.key_seq()[encode(strategy@) as int],
    {
        match table.key_of(strategy) {
            Some(k) => k,
            None => 0,
        }
    }

    /// The fitness keys of several strategies, in order.
    pub fn evaluate_all(strategies: &[TernaryStrategy], table: &FitnessTable) -> (r: Vec<u64>)
        requires
            forall|i: int| 0 <= i < strategies@.len() ==> (#[trigger] strategies@[i])@.len() == table.dim(),
        ensures
            r@.len() == strategies@.len(),
            forall|i: int| 0 <= i < r@.len() ==> encode(#[trigger] strategies@[i]@) < table.key_seq().len(),
            forall|i: int| 0 <= i < r@.len() ==> #[trigger] r@[i] == table.key_seq()[encode(strategies@[i]@) as int],
    {
        let mut r: Vec<u64> = Vec::new();
        let mut i: usize = 0;
        while i < strategies.len()
            invariant
                i <= strategies@.len(),
                forall|j: int| 0 <= j < strategies@.len() ==> (#[trigger] strategies@[j])@.len() == table.dim(),
                r@.len() == i,
                forall|j: int| 0 <= j < r@.len() ==> encode(#[trigger] strategies@[j]@) < table.key_seq().len(),
                forall|j: int| 0 <= j < r@.len() ==> #[trigger] r@[j] == table.key_seq()[encode(strategies@[j]@) as int],
            decreases strategies@.len() - i,
        {
            let k = Self::evaluate(&strategies[i], table);
            r.push(k);
            i = i + 1;
        }
        r
    }
}

} // verus!
