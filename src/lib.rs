//! Optimal strategy for turn-based dice games.
//!
//! Each turn rolls a fixed set of dice, allows a bounded number of rerolls,
//! and then fills one scoring category with the final dice. The solver runs a
//! backward induction over the sets of filled categories and computes, for every
//! state, the action that maximises the expected final score.
//!
//! Probabilities are exact: every probability is an integer weight over a power
//! of the number of faces. Expected scores are fixed-point numbers with
//! `solver::SCALE` units per point, each expectation rounded down.

/// Capabilities of outcomes, moves and categories.
pub mod abstract_game;
/// A-priori weights: their multinomial form, and their sum over all outcomes.
pub mod apriori;
/// Binomial coefficients.
pub mod combinatorics;
/// Drawing an index by weight.
pub mod draw;
/// A configured game and its outcome, move, score and transition tables.
pub mod game;
/// Playing solved games and gathering statistics.
pub mod game_player;
/// Sets of filled categories as bit masks.
pub mod masks;
/// Unordered dice outcomes and their a-priori weights.
pub mod outcome;
/// Walking a solved game: positions and the recorded actions.
pub mod position;
/// Reroll selections and transition weights.
pub mod reroll;
/// Scoring rules of the categories.
pub mod scoring;
/// The backward-induction solver.
pub mod solver;

pub use game::{DiceGame, DiceSlot, DiceSlotDescription, GameError};
pub use outcome::UnorderedDiceOutcome;
pub use reroll::DiceReroll;
pub use solver::GameSolver;
