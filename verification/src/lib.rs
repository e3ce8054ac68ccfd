//! A Monte Carlo Tree Search engine for two-player perfect-information games.
//!
//! The search tree lives in a fixed-capacity arena of nodes addressed by
//! index.  Win probabilities and move priors are fixed-point numbers in
//! sixteen binary fractional digits (`UNIT` stands for 1.0), so every step of
//! the search - selection, expansion, backpropagation and the final move
//! queries - is plain integer arithmetic with proved bounds.
//!
//! Game rules are not part of the engine: a position type implements the
//! [`oracle::GamePosition`] trait, which reports legal moves with prior
//! probabilities, applies a move, detects terminal positions and estimates a
//! win probability for the side to move.

use vstd::prelude::*;

pub mod arena;
pub mod events;
pub mod expand;
pub mod fixed;
pub mod games;
pub mod laws;
pub mod oracle;
pub mod parameters;
pub mod rng;
pub mod select;
pub mod rollout;
pub mod search;
pub mod settings;
pub mod stats;
pub mod tree;
pub mod web;

pub use search::mcts;

verus! {

} // verus!
