//! Exhaustive search for exact covering designs (Steiner systems) S(t, k, n):
//! collections of k-element blocks of the universe 1..=n such that every
//! t-element subset of the universe is covered by exactly one block.

pub mod combinatorics;
pub mod cover;
pub mod search;

pub use combinatorics::larger_sets;
pub use combinatorics::permutations;
pub use search::SearchError;
pub use search::SteinerSearcher;
pub use search::StepOutcome;
