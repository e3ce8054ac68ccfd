//! The search controller: drives simulations against a node or wall-clock
//! budget, reporting progress between batches.
//!
//! On early termination - arena exhaustion included - the statistics
//! gathered so far stay valid, and the usual queries still produce a
//! best-effort answer.

use vstd::prelude::*;
use crate::fixed::{UNIT, VISIT_CAP, CAP_MAX};
use crate::oracle::GamePosition;
use crate::settings::MctsSetting;
use crate::stats::{MoveInfo, selection_ok, spec_edge_value};
use crate::oracle::move_ids;
use crate::settings::{ConfigError, settings_ok};
use crate::tree::MonteCarloTree;

verus! {

/// How a search request is budgeted.
#[derive(Clone, Copy, Debug, PartialEq, Eq, Structural)]
pub enum TimeControl {
    /// Wall-clock budget: remaining milliseconds and increment per move.
    Time(u64, u64),
    /// A fixed number of simulations.
    FixedNodes(u64),
}

/// What a search request asks for.
#[derive(Clone, Copy, Debug, PartialEq, Eq, Structural)]
pub enum Action {
    /// The single best move with its line and score.
    SuggestMove,
    /// A ranked list of candidate moves.
    SuggestMoves,
}

/// A receiver for periodic progress reports from the time-bounded search
/// loop.  Implementations decide what to do with them; the search promises
/// nothing about when or how often it calls.
pub trait ProgressSink {
    /// Called between simulation batches with the root's visit count and
    /// the number of live arena nodes.
    fn report(&mut self, visits: u64, nodes_used: u64);
}

/// A progress receiver that ignores every report.
pub struct NoopSink {
}

impl ProgressSink for NoopSink {
    fn report(&mut self, _visits: u64, _nodes_used: u64) {
    }
}

/// An opaque monotonic-clock reading, for the time-bounded search loop.
#[verifier::external_type_specification]
#[verifier::external_body]
pub struct ExInstant(std::time::Instant);

/// Relies on `std::time::Instant::now`: an opaque reading of the
/// monotonic clock.  Nothing is assumed about its value.
#[verifier::external_body]
fn clock_now() -> (t: std::time::Instant) {
    std::time::Instant::now()
}

/// Relies on `std::time::Instant::elapsed` and `Duration::as_millis`:
/// whole milliseconds since the reading was taken, truncated to `u64`.
/// Nothing is assumed about its value.
#[verifier::external_body]
fn elapsed_ms(t: &std::time::Instant) -> (r: u64) {
    t.elapsed().as_millis() as u64
}

/// The mean value behind any edge of a well-formed tree is a probability.
proof fn lemma_edge_value_bounded<P: GamePosition>(t: MonteCarloTree<P>, e: crate::arena::Edge)
    requires
        t.wf(),
        e.child matches Some(c) ==> (c as int) < t.arena.nodes@.len(),
    ensures
        0 <= spec_edge_value(t.arena.nodes@, e) <= UNIT,
{
    match e.child {
        Some(c) => {
            if (c as int) < t.arena.nodes@.len() && t.arena.nodes@[c as int].visits >= 1 {
                assert(crate::arena::node_wf(t.arena.nodes@, c as int));
                let sum = t.arena.nodes@[c as int].value_sum;
                let visits = t.arena.nodes@[c as int].visits;
                vstd::arithmetic::div_mod::lemma_div_is_ordered(sum as int,
                    (visits * UNIT) as int, visits as int);
                vstd::arithmetic::div_mod::lemma_div_by_multiple(UNIT as int, visits as int);
                assert((UNIT as int) * (visits as int) == (visits as int) * (UNIT as int))
                    by (nonlinear_arith);
                vstd::arithmetic::div_mod::lemma_div_pos_is_pos(sum as int, visits as int);
            }
        },
        None => {},
    }
}

impl<P: GamePosition> MonteCarloTree<P> {
    /// Runs up to `n` simulations, stopping early on exhaustion, and
    /// returns how many ran.  The root gains exactly one visit per
    /// simulation that ran; an early stop means the arena is full or the
    /// visit cap was reached.
    pub fn run_for_nodes(&mut self, n: u64) -> (count: u64)
        requires
            old(self).wf(),
        ensures
            final(self).wf(),
            final(self).settings == old(self).settings,
            count <= n,
            final(self).root().visits == old(self).root().visits + count,
            count < n ==> (final(self).arena.nodes@.len() == final(self).arena.capacity || final(self).root().visits >= VISIT_CAP),
            (n >= 1 && old(self).root().visits == 0) ==> count >= 1,
            final(self).root().terminal is Some ==> (old(self).root().terminal is Some || old(self).root().pos.spec_terminal() is Some),
            final(self).root().pos == old(self).root().pos,
            (forall|p: P| (#[trigger] p.spec_terminal()) is None) ==> final(self).arena.nodes@.len() == old(self).arena.nodes@.len() + count - (
            if old(self).root().visits == 0 && count >= 1 {
                1int
            } else {
                0int
            }),
    {
        let ghost gsettings = self.settings;
        let ghost oldvisits = self.root().visits;
        let ghost gpos = self.root().pos;
        let ghost gterm = self.root().terminal;
        let ghost oldlen = self.arena.nodes@.len();
        let mut count: u64 = 0;
        let mut exhausted: bool = false;
        while count < n && !exhausted
            invariant
                self.wf(),
                self.settings == gsettings,
                count <= n,
                self.root().visits == oldvisits + count,
                self.root().pos == gpos,
                self.root().terminal is Some ==> (gterm is Some || gpos.spec_terminal() is Some),
                exhausted ==> (self.arena.nodes@.len() == self.arena.capacity
                    || self.root().visits >= VISIT_CAP),
                exhausted && count == 0 ==> oldvisits >= 1,
                (forall|p: P| (#[trigger] p.spec_terminal()) is None)
                    ==> self.arena.nodes@.len() == oldlen + count - (
                if oldvisits == 0 && count >= 1 {
                    1int
                } else {
                    0int
                }),
            decreases n - count, (if exhausted {
                0int
            } else {
                1int
            }),
        {
            let ghost pre = *self;
            match self.select() {
                Some(_) => {
                    proof {
                        if forall|p: P| (#[trigger] p.spec_terminal()) is None {
                            assert forall|i: int|
                                0 <= i < pre.arena.nodes@.len()
                                implies (#[trigger] pre.arena.nodes@[i]).pos.spec_terminal()
                                is None by {}
                        }
                    }
                    count = count + 1;
                },
                None => {
                    exhausted = true;
                },
            }
        }
        count
    }

    /// Runs simulations until the wall-clock budget elapses or the arena
    /// is exhausted, reporting progress to `sink` between batches.
    /// Returns how many simulations ran.  The first batch runs before the
    /// clock is consulted, so an empty run can only mean the arena was
    /// already full (or the visit cap reached), and a fresh tree always
    /// gets at least one simulation.
    pub fn search_for_time<S: ProgressSink>(&mut self, budget_ms: u64, sink: &mut S) -> (count:
        u64)
        requires
            old(self).wf(),
        ensures
            final(self).wf(),
            final(self).settings == old(self).settings,
            final(self).root().visits == old(self).root().visits + count,
            count == 0 ==> (final(self).arena.nodes@.len() == final(self).arena.capacity
                || final(self).root().visits >= VISIT_CAP),
            old(self).root().visits == 0 ==> count >= 1,
            final(self).root().pos == old(self).root().pos,
    {
        let start: std::time::Instant = clock_now();
        let first: u64 = self.run_for_nodes(64);
        sink.report(self.visits(), self.arena.len() as u64);
        let mut count: u64 = first;
        let mut rounds: u64 = 0;
        let mut exhausted: bool = first < 64;
        if elapsed_ms(&start) >= budget_ms {
            return count;
        }
        while rounds < VISIT_CAP && !exhausted
            invariant
                self.wf(),
                self.settings == old(self).settings,
                self.root().visits == old(self).root().visits + count,
                self.root().pos == old(self).root().pos,
                count >= first,
                count == 0 ==> (self.arena.nodes@.len() == self.arena.capacity
                    || self.root().visits >= VISIT_CAP),
            decreases VISIT_CAP - rounds, (if exhausted {
                0int
            } else {
                1int
            }),
        {
            let ran: u64 = self.run_for_nodes(64);
            proof {
                assert(crate::arena::node_wf(self.arena.nodes@, 0));
            }
            count = count + ran;
            sink.report(self.visits(), self.arena.len() as u64);
            if ran < 64 {
                exhausted = true;
            } else {
                rounds = rounds + 1;
            }
            if elapsed_ms(&start) >= budget_ms {
                return count;
            }
        }
        count
    }
}

/// How many candidate moves a move-list request reports.
pub const SUGGESTED_MOVES: usize = 10;

/// What one search request produced.
#[derive(Debug, Clone)]
pub enum SearchOutcome {
    /// One suggested line: the win probability, in [0, UNIT], of the side
    /// to move, the principal variation, the simulations run and the
    /// arena bytes used.
    SuggestedMove {
        /// Win probability of the side to move at the root.
        score: u64,
        /// The principal variation, best move first.
        pv: Vec<u64>,
        /// Simulations run.
        nodes: u64,
        /// Arena bytes used.
        mem_usage: u64,
    },
    /// A ranked list of candidate moves with their statistics.
    SuggestedMoves(Vec<MoveInfo>),
}

/// Serves one search request end to end, deciding over the budget mode
/// and the requested answer shape: a finished game is scored without
/// searching; otherwise the tree is searched under the time control and
/// the answer drawn from the frozen statistics.  Every reported move is
/// one of the position's legal moves.
pub fn run_search<P: GamePosition, S: ProgressSink>(
    position: P,
    settings: MctsSetting,
    time_control: TimeControl,
    action: Action,
    half_moves_played: u64,
    sink: &mut S,
) -> (r: Result<SearchOutcome, ConfigError>)
    requires
        time_control matches TimeControl::FixedNodes(n) ==> n >= 1,
    ensures
        r is Ok <==> settings_ok(settings),
        position.spec_terminal() matches Some(outcome) ==> (r matches Ok(out) ==> ({
            &&& out matches SearchOutcome::SuggestedMove { score, pv, nodes, mem_usage }
            &&& score == UNIT - outcome
            &&& pv@.len() == 0
            &&& nodes == 0
            &&& mem_usage == 0
        })),
        (position.spec_terminal() is None && action == Action::SuggestMoves) ==> (
        r matches Ok(out) ==> ({
            &&& out matches SearchOutcome::SuggestedMoves(infos)
            &&& infos@.len() <= SUGGESTED_MOVES
            &&& (forall|t: int|
                0 <= t < infos@.len() ==> move_ids(position.spec_moves()).contains(
                    (#[trigger] infos@[t]).mv,
                ))
            &&& (forall|t1: int, t2: int|
                #![trigger infos@[t1], infos@[t2]]
                0 <= t1 < t2 < infos@.len() ==> infos@[t1].mv != infos@[t2].mv)
            &&& (forall|t: int|
                0 <= t < infos@.len() - 1 ==> (#[trigger] infos@[t]).visits >= infos@[t
                    + 1].visits)
        })),
        (position.spec_terminal() is None && action == Action::SuggestMove) ==> (
        r matches Ok(out) ==> ({
            &&& out matches SearchOutcome::SuggestedMove { score, pv, nodes, mem_usage }
            &&& score <= UNIT
            &&& nodes >= 1
            &&& (pv@.len() >= 1 ==> move_ids(position.spec_moves()).contains(pv@[0]))
        })),
{
    let term: Option<u64> = position.terminal_value();
    let tree_or = MonteCarloTree::with_settings(position, settings);
    let mut tree: MonteCarloTree<P> = match tree_or {
        Ok(t) => t,
        Err(e) => {
            return Err(e);
        },
    };
    if let Some(outcome) = term {
        return Ok(
            SearchOutcome::SuggestedMove {
                score: crate::events::finished_game_score(outcome),
                pv: Vec::new(),
                nodes: 0,
                mem_usage: 0,
            },
        );
    }
    let _ran: u64 = match time_control {
        TimeControl::FixedNodes(n) => tree.run_for_nodes(n),
        TimeControl::Time(left_ms, increment_ms) => {
            let budget: u64 = match action {
                Action::SuggestMoves => left_ms,
                Action::SuggestMove => crate::events::move_time_budget_ms(
                    left_ms,
                    increment_ms,
                    half_moves_played,
                ),
            };
            tree.search_for_time(budget, sink)
        },
    };
    proof {
        assert(tree.root().visits >= 1);
        assert(tree.root().pos == position);
        assert(tree.root().terminal is None);
        assert(tree.root().edges is Some);
    }
    match action {
        Action::SuggestMoves => {
            let infos: Vec<MoveInfo> = tree.best_children_info(SUGGESTED_MOVES);
            proof {
                let sel = choose|idxs: Seq<int>|
                    #[trigger] selection_ok(
                        tree.arena.nodes@,
                        tree.root().visits,
                        tree.root().edges->Some_0@,
                        SUGGESTED_MOVES as int,
                        idxs,
                        infos@,
                    );
                assert(infos@.len() <= SUGGESTED_MOVES);
            }
            Ok(SearchOutcome::SuggestedMoves(infos))
        },
        Action::SuggestMove => {
            let best: (u64, u64) = tree.best_move();
            proof {
                let es = tree.root().edges->Some_0@;
                let b = choose|b: int|
                    {
                        &&& #[trigger] crate::stats::is_first_visit_max(tree.arena.nodes@, es, b)
                        &&& best.0 == es[b].mv
                        &&& best.1 == spec_edge_value(tree.arena.nodes@, es[b])
                    };
                assert(crate::arena::node_wf(tree.arena.nodes@, 0));
                assert(crate::arena::edge_wf(tree.arena.nodes@, 0, es[b]));
                lemma_edge_value_bounded(tree, es[b]);
            }
            let score: u64 = UNIT - best.1;
            let pv: Vec<u64> = tree.pv();
            let nodes: u64 = tree.visits();
            let mem: u64 = tree.mem_usage();
            Ok(SearchOutcome::SuggestedMove { score, pv, nodes, mem_usage: mem })
        },
    }
}

/// Builds a tree over `position` with a capacity fitted to the node
/// budget, runs `nodes` simulations (or as many as the arena allows), and
/// returns the best move - always one of the position's legal moves -
/// together with the win probability, in [0, UNIT], of the side to move
/// at the root after playing it.
pub fn mcts<P: GamePosition>(position: P, nodes: u64) -> (r: (u64, u64))
    requires
        nodes >= 1,
        position.spec_terminal() is None,
    ensures
        r.1 <= UNIT,
        crate::oracle::move_ids(position.spec_moves()).contains(r.0),
{
    let settings: MctsSetting = MctsSetting::default();
    let capacity: usize = if nodes < (CAP_MAX as u64) {
        (nodes + 1) as usize
    } else {
        CAP_MAX
    };
    let settings = settings.arena_size(capacity);
    let tree_or = MonteCarloTree::with_settings(position, settings);
    let mut tree: MonteCarloTree<P> = match tree_or {
        Ok(t) => t,
        Err(_) => vstd::pervasive::unreached(),
    };
    tree.run_for_nodes(nodes);
    proof {
        assert(tree.root().visits >= 1);
        assert(tree.root().terminal is None);
        assert(tree.root().edges is Some);
        assert(tree.root().pos == position);
    }
    let best: (u64, u64) = tree.best_move();
    proof {
        let es = tree.root().edges->Some_0@;
        let b = choose|b: int|
            {
                &&& #[trigger] crate::stats::is_first_visit_max(tree.arena.nodes@, es, b)
                &&& best.0 == es[b].mv
                &&& best.1 == spec_edge_value(tree.arena.nodes@, es[b])
            };
        assert(crate::arena::node_wf(tree.arena.nodes@, 0));
        assert(crate::arena::edge_wf(tree.arena.nodes@, 0, es[b]));
        lemma_edge_value_bounded(tree, es[b]);
    }
    (best.0, UNIT - best.1)
}

} // verus!
