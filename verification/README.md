# ternary_fitness

Fitness landscape analysis over ternary strategies (sequences of choices in
{-1, 0, +1}), written in Verus with every function of `src/` carrying a
contract that Verus proves.

- `src/strategy.rs`: `TernaryStrategy`, its neighbors (one position changed),
  Hamming distance and display form, with laws about neighbors.
- `src/encoding.rs`: the numbering of the `3^n` strategies of length `n`
  (base-3 digits, position 0 least significant) and its inverse.
- `src/table.rs`: `FitnessTable`, the order keys of all strategies' fitness.
- `src/evaluator.rs`, `src/exhaustive.rs`: evaluation, enumeration, a stable
  ranking (merge sort) and the optimum.
- `src/landscape.rs`: peaks, the global peak, saddle points, steepest-ascent
  basins and the fitness range.
- `src/pareto.rs`: dominance and Pareto fronts over reward, diversity and speed.
- `src/entropy.rs`: the counts that entropy and population diversity are made of.

`app/lib.rs` holds what works on floating point: the reward environment, the
fitness sums, the conversion of fitness values to order keys and back, and the
entropy formulas.
