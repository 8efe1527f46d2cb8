//! Minimum-flip-set analysis for two-sided electoral contests.
//!
//! Given the per-unit vote margins of an election and a table of electoral-vote
//! weights, this library determines the smallest-effort set of units that would
//! have to change sides to deprive the winner of victory (or force a tie).
//! The core is a fully specified 0/1 knapsack solver with subset
//! reconstruction; the analysis layer turns election data into knapsack items
//! and translates the optimal subset back into the minimal flip set.

pub mod analyzer;
pub mod knapsack;
pub mod weights;

pub use analyzer::AnalyzerError;
pub use analyzer::ElectionDistrictResultMargin;
pub use analyzer::ElectionStateResultMargin;
pub use analyzer::Outcome;
pub use analyzer::capacity_for_outcome;
pub use analyzer::create_knapsack_inputs;
pub use analyzer::determine_winner;
pub use analyzer::items_of_inputs;
pub use analyzer::solve_for_outcome;
pub use knapsack::KnapsackItem;
pub use knapsack::KnapsackSolution;
pub use knapsack::checked_total_value;
pub use knapsack::solve_knapsack_problem;
pub use weights::AllElectoralVotes;
pub use weights::ElectoralVoteMap;
pub use weights::get_electoral_votes_for_year;
