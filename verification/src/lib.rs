//! Fitness landscape analysis for ternary agent systems {-1, 0, +1}.
//!
//! Strategies are sequences of ternary choices. Every strategy of length `n`
//! has a number below `3^n` (see [`encoding`]); an environment's scores for all
//! of them enter as a [`FitnessTable`] of order keys, over which the crate
//! enumerates strategies, ranks them, analyses the landscape's topology
//! (peaks, saddle points, basins of attraction), computes Pareto fronts, and
//! counts what entropy and diversity measures are made of.
pub mod strategy;
pub mod encoding;
pub mod table;
pub mod evaluator;
pub mod exhaustive;
pub mod landscape;
pub mod pareto;
pub mod entropy;

pub use entropy::Entropy;
pub use evaluator::FitnessEvaluator;
pub use exhaustive::ExhaustiveSearch;
pub use landscape::{FitnessLandscape, LandscapePoint, SaddlePoint};
pub use pareto::{Objective, ParetoFront, ParetoSolution};
pub use strategy::TernaryStrategy;
pub use table::FitnessTable;
