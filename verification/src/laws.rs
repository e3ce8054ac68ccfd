//! The engine's invariants, stated once more as standalone theorems.
//!
//! Each law is a public proof function over a well-formed tree, so a
//! reader sees the guarantee itself rather than having to collect it from
//! the individual contracts.  Monotone visit growth and the exhaustion
//! signal are stated directly on `select`'s contract, where they belong.

use vstd::prelude::*;
use vstd::arithmetic::div_mod::{lemma_fundamental_div_mod, lemma_fundamental_div_mod_converse};
use crate::arena::{child_visits_sum, edge_prior_sum, node_wf};
use crate::stats::{is_first_visit_max, lemma_first_max_unique, spec_edge_value};
use crate::fixed::UNIT;
use crate::oracle::GamePosition;
use crate::tree::MonteCarloTree;

verus! {

/// Prior normalization: the edge priors of every expanded node sum to
/// exactly `UNIT`, that is, to 1.
pub proof fn law_prior_normalization<P: GamePosition>(t: MonteCarloTree<P>, i: int)
    requires
        t.wf(),
        0 <= i < t.arena.nodes@.len(),
        t.arena.nodes@[i].edges is Some,
    ensures
        edge_prior_sum(t.arena.nodes@[i].edges->Some_0@) == UNIT,
{
    assert(node_wf(t.arena.nodes@, i));
}

/// Visit accounting: every expanded node has been visited exactly one
/// time more than all of its materialized children together.
pub proof fn law_visit_accounting<P: GamePosition>(t: MonteCarloTree<P>, i: int)
    requires
        t.wf(),
        0 <= i < t.arena.nodes@.len(),
        t.arena.nodes@[i].edges is Some,
    ensures
        t.arena.nodes@[i].visits == 1 + child_visits_sum(
            t.arena.nodes@,
            t.arena.nodes@[i].edges->Some_0@,
        ),
{
    assert(node_wf(t.arena.nodes@, i));
}

/// Perspective consistency: for any materialized node, the mean value its
/// parent reads off the edge - the average of the simulation values
/// flipped to the parent's side - is the complement of the node's own
/// mean value, up to one fixed-point unit of division rounding.
pub proof fn law_perspective_consistency<P: GamePosition>(t: MonteCarloTree<P>, c: int)
    requires
        t.wf(),
        1 <= c < t.arena.nodes@.len(),
    ensures
        ({
            let visits = t.arena.nodes@[c].visits as int;
            let sum = t.arena.nodes@[c].value_sum as int;
            let parent_view = (visits * UNIT - sum) / visits;
            let own_mean = sum / visits;
            UNIT - 1 <= parent_view + own_mean <= UNIT
        }),
{
    assert(node_wf(t.arena.nodes@, c));
    let visits = t.arena.nodes@[c].visits as int;
    let sum = t.arena.nodes@[c].value_sum as int;
    assert(visits >= 1);
    assert(sum <= visits * UNIT);
    lemma_fundamental_div_mod(sum, visits);
    let q = sum / visits;
    let r = sum % visits;
    assert(sum == visits * q + r);
    assert(0 <= r < visits);
    assert(0 <= q <= UNIT) by (nonlinear_arith)
        requires
            visits >= 1,
            0 <= sum <= visits * (UNIT as int),
            sum == visits * q + r,
            0 <= r < visits,
    ;
    if r == 0 {
        assert(visits * UNIT - sum == visits * (UNIT - q)) by (nonlinear_arith)
            requires
                sum == visits * q + r,
                r == 0,
        ;
        lemma_fundamental_div_mod_converse(visits * UNIT - sum, visits, UNIT - q, 0);
    } else {
        assert(visits * UNIT - sum == visits * (UNIT - q - 1) + (visits - r))
            by (nonlinear_arith)
            requires
                sum == visits * q + r,
        ;
        assert(q < UNIT) by (nonlinear_arith)
            requires
                visits >= 1,
                sum <= visits * (UNIT as int),
                sum == visits * q + r,
                0 < r < visits,
        ;
        lemma_fundamental_div_mod_converse(visits * UNIT - sum, visits, UNIT - q - 1,
            visits - r);
    }
}

/// Exclusion respected: while the exclusion set does not rule out every
/// legal root move, no excluded move stands among the root's edges - so
/// neither `best_move` nor `best_children_info` nor the principal
/// variation can ever report one.
pub proof fn law_exclusion_respected<P: GamePosition>(t: MonteCarloTree<P>)
    requires
        t.wf(),
        t.root().edges is Some,
        !t.all_root_moves_excluded(),
    ensures
        forall|j: int|
            0 <= j < t.root().edges->Some_0@.len()
                ==> !t.settings.exclude_moves@.contains(
                (#[trigger] t.root().edges->Some_0@[j]).mv),
{
}

/// Determinism of the reported decision: the best-move contract admits
/// exactly one answer per tree state, so two searches that reach equal
/// statistics report the same move and value.
pub proof fn law_best_move_determined<P: GamePosition>(
    t: MonteCarloTree<P>,
    a: (u64, u64),
    ia: int,
    b: (u64, u64),
    ib: int,
)
    requires
        t.wf(),
        t.root().edges is Some,
        is_first_visit_max(t.arena.nodes@, t.root().edges->Some_0@, ia),
        a.0 == t.root().edges->Some_0@[ia].mv,
        a.1 == spec_edge_value(t.arena.nodes@, t.root().edges->Some_0@[ia]),
        is_first_visit_max(t.arena.nodes@, t.root().edges->Some_0@, ib),
        b.0 == t.root().edges->Some_0@[ib].mv,
        b.1 == spec_edge_value(t.arena.nodes@, t.root().edges->Some_0@[ib]),
    ensures
        a == b,
{
    lemma_first_max_unique(t.arena.nodes@, t.root().edges->Some_0@, ia, ib);
}

} // verus!

