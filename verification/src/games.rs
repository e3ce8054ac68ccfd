//! Small fully-specified games for exercising the engine.
//!
//! These implement [`GamePosition`] with proofs, so every search over them
//! runs entirely through verified code: a two-branch ladder whose first
//! move decides the game's drift, and a tactics game with a forced win a
//! fixed number of plies deep that a static glance undervalues.

use vstd::prelude::*;
use crate::fixed::{UNIT, HALF};
use crate::oracle::{GamePosition, lemma_prior_sum_push};

verus! {

/// A game with one real decision: at the root, move 0 steers into a line
/// the mover wins with probability 0.9 and move 1 into one they win with
/// probability 0.1 (per the evaluator); afterwards each side has a single
/// move and the game never ends.
#[derive(Clone, Copy, Debug, PartialEq, Eq, Structural)]
pub struct LadderPosition {
    /// Plies played since the root.
    pub depth: u64,
    /// 0 before the first move, 1 after move 0, 2 after move 1.
    pub line: u64,
}

impl LadderPosition {
    /// The undecided root position.
    pub fn start() -> (r: LadderPosition)
        ensures
            r.depth == 0,
            r.line == 0,
            r.spec_terminal() is None,
    {
        LadderPosition { depth: 0, line: 0 }
    }
}

impl GamePosition for LadderPosition {
    open spec fn spec_moves(&self) -> Seq<(u64, u64)> {
        if self.depth == 0 {
            seq![(0u64, HALF), (1u64, HALF)]
        } else {
            seq![(0u64, UNIT)]
        }
    }

    open spec fn spec_apply(&self, mv: u64) -> LadderPosition {
        if self.depth == 0 {
            LadderPosition { depth: 1, line: if mv == 1 { 2 } else { 1 } }
        } else {
            LadderPosition {
                depth: if self.depth == u64::MAX {
                    self.depth
                } else {
                    (self.depth + 1) as u64
                },
                line: self.line,
            }
        }
    }

    open spec fn spec_terminal(&self) -> Option<u64> {
        None
    }

    open spec fn spec_value(&self) -> u64 {
        if self.depth == 0 {
            HALF
        } else if (self.line == 1) == (self.depth % 2 == 0) {
            58982
        } else {
            6554
        }
    }

    fn moves_with_priors(&self) -> (r: Vec<(u64, u64)>) {
        let mut r: Vec<(u64, u64)> = Vec::new();
        if self.depth == 0 {
            r.push((0, HALF));
            r.push((1, HALF));
            proof {
                let s0 = Seq::<(u64, u64)>::empty();
                let s1 = s0.push((0u64, HALF));
                lemma_prior_sum_push(s0, (0u64, HALF));
                lemma_prior_sum_push(s1, (1u64, HALF));
                assert(r@ =~= s1.push((1u64, HALF)));
                assert(r@ =~= self.spec_moves());
            }
        } else {
            r.push((0, UNIT));
            proof {
                lemma_prior_sum_push(Seq::empty(), (0u64, UNIT));
                assert(r@ =~= self.spec_moves());
            }
        }
        r
    }

    fn apply_move(&self, mv: u64) -> (r: LadderPosition) {
        if self.depth == 0 {
            LadderPosition { depth: 1, line: if mv == 1 { 2 } else { 1 } }
        } else {
            LadderPosition {
                depth: if self.depth == u64::MAX {
                    self.depth
                } else {
                    self.depth + 1
                },
                line: self.line,
            }
        }
    }

    fn terminal_value(&self) -> (r: Option<u64>) {
        None
    }

    fn static_value(&self) -> (r: u64) {
        if self.depth == 0 {
            HALF
        } else if (self.line == 1) == (self.depth % 2 == 0) {
            58982
        } else {
            6554
        }
    }
}

/// A game with a forced win for the side to move at the root, `plies`
/// plies deep: on the winning track, only move 0 of the hero keeps the
/// threat alive, while every defender move loses; straying leads to a
/// draw.  The evaluator slightly *undervalues* the winning track, so only
/// genuine search finds the win.
#[derive(Clone, Copy, Debug, PartialEq, Eq, Structural)]
pub struct TacticsPosition {
    /// Plies until the game ends.
    pub plies_left: u64,
    /// Whether the side that owns the forced win is to move.
    pub hero_to_move: bool,
    /// Whether the forced win is still available.
    pub winning: bool,
}

impl TacticsPosition {
    /// A position where the side to move wins by force in `plies` plies
    /// (choose an odd number, so the win lands on the defender's turn).
    pub fn start(plies: u64) -> (r: TacticsPosition)
        requires
            plies >= 1,
        ensures
            r.plies_left == plies,
            r.hero_to_move,
            r.winning,
            r.spec_terminal() is None,
    {
        TacticsPosition { plies_left: plies, hero_to_move: true, winning: true }
    }
}

impl GamePosition for TacticsPosition {
    open spec fn spec_moves(&self) -> Seq<(u64, u64)> {
        if self.hero_to_move {
            seq![(0u64, 9830u64), (1u64, 22938u64), (2u64, 19661u64), (3u64, 13107u64)]
        } else {
            seq![(0u64, HALF), (1u64, HALF)]
        }
    }

    open spec fn spec_apply(&self, mv: u64) -> TacticsPosition {
        TacticsPosition {
            plies_left: if self.plies_left == 0 {
                0
            } else {
                (self.plies_left - 1) as u64
            },
            hero_to_move: !self.hero_to_move,
            winning: self.winning && (!self.hero_to_move || mv == 0),
        }
    }

    open spec fn spec_terminal(&self) -> Option<u64> {
        if self.plies_left == 0 {
            Some(
                if self.winning {
                    0u64
                } else {
                    HALF
                },
            )
        } else {
            None
        }
    }

    open spec fn spec_value(&self) -> u64 {
        if self.winning == self.hero_to_move {
            29491
        } else {
            36045
        }
    }

    fn moves_with_priors(&self) -> (r: Vec<(u64, u64)>) {
        let mut r: Vec<(u64, u64)> = Vec::new();
        if self.hero_to_move {
            r.push((0, 9830));
            r.push((1, 22938));
            r.push((2, 19661));
            r.push((3, 13107));
            proof {
                let s0 = Seq::<(u64, u64)>::empty();
                let s1 = s0.push((0u64, 9830u64));
                let s2 = s1.push((1u64, 22938u64));
                let s3 = s2.push((2u64, 19661u64));
                lemma_prior_sum_push(s0, (0u64, 9830u64));
                lemma_prior_sum_push(s1, (1u64, 22938u64));
                lemma_prior_sum_push(s2, (2u64, 19661u64));
                lemma_prior_sum_push(s3, (3u64, 13107u64));
                assert(r@ =~= s3.push((3u64, 13107u64)));
                assert(r@ =~= self.spec_moves());
            }
        } else {
            r.push((0, HALF));
            r.push((1, HALF));
            proof {
                let s0 = Seq::<(u64, u64)>::empty();
                let s1 = s0.push((0u64, HALF));
                lemma_prior_sum_push(s0, (0u64, HALF));
                lemma_prior_sum_push(s1, (1u64, HALF));
                assert(r@ =~= s1.push((1u64, HALF)));
                assert(r@ =~= self.spec_moves());
            }
        }
        r
    }

    fn apply_move(&self, mv: u64) -> (r: TacticsPosition) {
        TacticsPosition {
            plies_left: if self.plies_left == 0 {
                0
            } else {
                self.plies_left - 1
            },
            hero_to_move: !self.hero_to_move,
            winning: self.winning && (!self.hero_to_move || mv == 0),
        }
    }

    fn terminal_value(&self) -> (r: Option<u64>) {
        if self.plies_left == 0 {
            Some(
                if self.winning {
                    0
                } else {
                    HALF
                },
            )
        } else {
            None
        }
    }

    fn static_value(&self) -> (r: u64) {
        if self.winning == self.hero_to_move {
            29491
        } else {
            36045
        }
    }
}

} // verus!
