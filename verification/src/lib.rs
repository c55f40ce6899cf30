//! Monte Carlo simulation of Texas Hold'em showdowns.
//!
//! The crate models cards and a deck, ranks five- and seven-card hands under a
//! total order, plays one showdown for a table of players, and accumulates win
//! counts and hand-category frequencies across many games.
//!
//! Everything here is verified except three calls into other crates, which
//! stand behind functions whose contracts are taken on trust: choosing `k` of
//! `n` cards (`combinations`), and shuffling and picking at random (`random`).

pub mod card;
pub mod combinations;
pub mod deck;
pub mod evaluator;
pub mod game;
pub mod hand_rank;
pub mod invariance;
mod random;
pub mod simulation;
pub mod straight;
pub mod tally;
