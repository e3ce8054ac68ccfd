//! The narrow interface between the search and the game.
//!
//! The engine never sees game rules.  A position type implements
//! [`GamePosition`]: it lists the legal moves with prior probabilities,
//! advances a position by a move (as an immutable transform returning a new
//! position), reports a terminal outcome when the game is over, and
//! estimates the win probability of the side to move.  Moves are plain
//! `u64` identifiers whose meaning belongs to the implementation.
//!
//! All probabilities are fixed point (`UNIT` is 1.0), always stated from
//! the perspective of the side to move at the position in question.

use vstd::prelude::*;
use crate::fixed::{UNIT, HALF, MAX_MOVES};

verus! {

/// A terminal outcome for the side to move, as a fixed-point value:
/// `UNIT` for a win, `HALF` for a draw, 0 for a loss.
pub open spec fn outcome_value(v: u64) -> bool {
    v == 0 || v == HALF || v == UNIT
}

/// The sum of the prior probabilities in a move list.
pub open spec fn prior_sum(ms: Seq<(u64, u64)>) -> int
    decreases ms.len(),
{
    if ms.len() == 0 {
        0
    } else {
        prior_sum(ms.drop_last()) + ms.last().1
    }
}

/// The move identifiers of a move list, in order.
pub open spec fn move_ids(ms: Seq<(u64, u64)>) -> Seq<u64> {
    Seq::new(ms.len(), |k: int| ms[k].0)
}

/// A well-formed move list: priors are in [0, UNIT] and sum to exactly
/// `UNIT`, the list is small enough for the arena's arithmetic, and no
/// move appears twice.
pub open spec fn moves_wf(ms: Seq<(u64, u64)>) -> bool {
    &&& prior_sum(ms) == UNIT
    &&& ms.len() >= 1
    &&& ms.len() <= MAX_MOVES
    &&& forall|i: int| 0 <= i < ms.len() ==> (#[trigger] ms[i]).1 <= UNIT
    &&& forall|i: int, j: int|
        #![trigger ms[i], ms[j]]
        0 <= i < j < ms.len() ==> ms[i].0 != ms[j].0
}

/// A game position, as the search sees it: the position oracle and the
/// evaluator of one game, rolled into the position type itself.
///
/// The four spec functions fix the game mathematically; the four executable
/// methods must return exactly those values, which makes every
/// implementation a deterministic oracle - the property the engine's own
/// determinism rests on.
pub trait GamePosition: Sized {
    /// The legal moves with their prior probabilities.
    spec fn spec_moves(&self) -> Seq<(u64, u64)>;

    /// The position after a move.
    spec fn spec_apply(&self, mv: u64) -> Self;

    /// The terminal outcome for the side to move, if the game is over.
    spec fn spec_terminal(&self) -> Option<u64>;

    /// The evaluator's win-probability estimate for the side to move.
    spec fn spec_value(&self) -> u64;

    /// Lists the legal moves with prior probabilities.  On a non-terminal
    /// position the list is never empty and its priors sum to `UNIT`.
    fn moves_with_priors(&self) -> (r: Vec<(u64, u64)>)
        ensures
            r@ == self.spec_moves(),
            self.spec_terminal() is None ==> moves_wf(r@),
    ;

    /// Advances the position by one of its legal moves, returning the new
    /// position; the receiver is not changed.
    fn apply_move(&self, mv: u64) -> (r: Self)
        ensures
            r == self.spec_apply(mv),
    ;

    /// Reports the terminal outcome from the perspective of the side to
    /// move, or `None` while the game is still open.
    fn terminal_value(&self) -> (r: Option<u64>)
        ensures
            r == self.spec_terminal(),
            r matches Some(v) ==> outcome_value(v),
    ;

    /// Estimates the probability, in [0, UNIT], that the side to move wins.
    fn static_value(&self) -> (r: u64)
        ensures
            r == self.spec_value(),
            r <= UNIT,
    ;
}

/// The sum of a move list's priors grows by one move's prior at a time.
pub proof fn lemma_prior_sum_push(ms: Seq<(u64, u64)>, m: (u64, u64))
    ensures
        prior_sum(ms.push(m)) == prior_sum(ms) + m.1,
{
    assert(ms.push(m).drop_last() =~= ms);
}

/// Priors are individually bounded by their sum: each prior of a move list
/// is at most `prior_sum` of the whole list.
pub proof fn lemma_prior_le_sum(ms: Seq<(u64, u64)>, i: int)
    requires
        0 <= i < ms.len(),
    ensures
        ms[i].1 <= prior_sum(ms),
    decreases ms.len(),
{
    if i == ms.len() - 1 {
        lemma_prior_sum_nonneg(ms.drop_last());
    } else {
        lemma_prior_le_sum(ms.drop_last(), i);
    }
}

/// A move list's prior sum is never negative.
pub proof fn lemma_prior_sum_nonneg(ms: Seq<(u64, u64)>)
    ensures
        prior_sum(ms) >= 0,
    decreases ms.len(),
{
    if ms.len() > 0 {
        lemma_prior_sum_nonneg(ms.drop_last());
    }
}

} // verus!
