//! Search configuration.
//!
//! A [`MctsSetting`] is built once per search request and never changes
//! during the search.  Invalid configurations are rejected when the tree is
//! constructed, never silently corrected.

use vstd::prelude::*;
use crate::fixed::{UNIT, CAP_MAX, EXPLORATION_MAX};

verus! {

/// Default arena capacity, in nodes.
pub const DEFAULT_ARENA_SIZE: usize = 0x10_0000;

/// Default exploration constant (fixed point): 2.0.
pub const DEFAULT_EXPLORATION: u64 = 131072;

/// Bytes the arena is assumed to spend per node when a capacity is derived
/// from a byte budget.
pub const NODE_FOOTPRINT: usize = 64;

/// Largest accepted prior-sharpening exponent for rollout sampling.
pub const GREED_MAX: u64 = 6;

/// Why a configuration was rejected at construction time.
#[derive(Clone, Copy, Debug, PartialEq, Eq, Structural)]
pub enum ConfigError {
    /// The arena would hold no nodes at all.
    ZeroCapacity,
    /// The arena capacity exceeds `CAP_MAX`.
    CapacityTooLarge,
    /// The exploration constant exceeds `EXPLORATION_MAX`.
    ExplorationTooLarge,
    /// The noise blend weight exceeds `UNIT` (that is, 1.0).
    NoiseTooLarge,
    /// The rollout sharpening exponent exceeds `GREED_MAX`.
    GreedTooLarge,
}

/// Immutable search settings, consumed at tree construction.
#[derive(Clone, Debug)]
pub struct MctsSetting {
    /// Arena capacity in nodes; index 0 is the root.
    pub arena_capacity: usize,
    /// Weight of the exploration term in the selection formula, fixed point.
    pub exploration: u64,
    /// Blend weight in [0, UNIT] for random exploration noise on the root
    /// priors; `None` disables noise and makes the search deterministic.
    pub noise_weight: Option<u64>,
    /// Number of stochastic rollout plies used to evaluate a fresh leaf;
    /// 0 asks the evaluator directly.
    pub rollout_depth: u16,
    /// Exponent sharpening the prior distribution during rollout sampling:
    /// 0 samples uniformly, 1 follows the priors, larger values approach
    /// the greedy move (the inverse of a sampling temperature).
    pub rollout_greed: u64,
    /// Moves that must never appear among the root's edges.
    pub exclude_moves: Vec<u64>,
    /// Seed of the search's explicit random source.
    pub seed: u64,
}

/// A configuration the tree constructor accepts.
pub open spec fn settings_ok(s: MctsSetting) -> bool {
    &&& 1 <= s.arena_capacity <= CAP_MAX
    &&& s.exploration <= EXPLORATION_MAX
    &&& (s.noise_weight matches Some(w) ==> w <= UNIT)
    &&& s.rollout_greed <= GREED_MAX
}

impl Default for MctsSetting {
    /// The default configuration: a million-node arena, exploration 2.0,
    /// no noise, direct evaluation of leaves, nothing excluded, seed 0.
    fn default() -> (s: MctsSetting)
        ensures
            s.arena_capacity == DEFAULT_ARENA_SIZE,
            s.exploration == DEFAULT_EXPLORATION,
            s.noise_weight is None,
            s.rollout_depth == 0,
            s.rollout_greed == 1,
            s.exclude_moves@ =~= Seq::<u64>::empty(),
            s.seed == 0,
            settings_ok(s),
    {
        MctsSetting {
            arena_capacity: DEFAULT_ARENA_SIZE,
            exploration: DEFAULT_EXPLORATION,
            noise_weight: None,
            rollout_depth: 0,
            rollout_greed: 1,
            exclude_moves: Vec::new(),
            seed: 0,
        }
    }
}

impl MctsSetting {
    /// Sets the arena capacity in nodes.
    pub fn arena_size(self, capacity: usize) -> (s: MctsSetting)
        ensures
            s == (MctsSetting { arena_capacity: capacity, ..self }),
    {
        MctsSetting { arena_capacity: capacity, ..self }
    }

    /// Sets the arena capacity from a memory budget in bytes.
    pub fn mem_usage(self, bytes: usize) -> (s: MctsSetting)
        ensures
            s == (MctsSetting { arena_capacity: bytes / NODE_FOOTPRINT as usize, ..self }),
    {
        let capacity: usize = bytes / NODE_FOOTPRINT;
        MctsSetting { arena_capacity: capacity, ..self }
    }

    /// Sets the exploration constant (fixed point; `UNIT` is 1.0).
    pub fn exploration(self, c: u64) -> (s: MctsSetting)
        ensures
            s == (MctsSetting { exploration: c, ..self }),
    {
        MctsSetting { exploration: c, ..self }
    }

    /// Enables root exploration noise with the given blend weight in
    /// [0, UNIT].
    pub fn add_noise(self, weight: u64) -> (s: MctsSetting)
        ensures
            s == (MctsSetting { noise_weight: Some(weight), ..self }),
    {
        MctsSetting { noise_weight: Some(weight), ..self }
    }

    /// Sets the stochastic rollout depth; 0 evaluates leaves directly.
    pub fn add_rollout_depth(self, depth: u16) -> (s: MctsSetting)
        ensures
            s == (MctsSetting { rollout_depth: depth, ..self }),
    {
        MctsSetting { rollout_depth: depth, ..self }
    }

    /// Sets the rollout sharpening exponent (the inverse of a sampling
    /// temperature: 0 is uniform, larger is greedier).
    pub fn add_rollout_greed(self, greed: u64) -> (s: MctsSetting)
        ensures
            s == (MctsSetting { rollout_greed: greed, ..self }),
    {
        MctsSetting { rollout_greed: greed, ..self }
    }

    /// Sets the root move exclusion set.
    pub fn exclude_moves(self, moves: Vec<u64>) -> (s: MctsSetting)
        ensures
            s == (MctsSetting { exclude_moves: moves, ..self }),
    {
        MctsSetting { exclude_moves: moves, ..self }
    }

    /// Seeds the search's random source.
    pub fn seed(self, seed: u64) -> (s: MctsSetting)
        ensures
            s == (MctsSetting { seed: seed, ..self }),
    {
        MctsSetting { seed: seed, ..self }
    }
}

} // verus!
